//! The Nemo layout: per pack, the packed tokens, a per-token loss mask,
//! and the offsets at which the concatenated sub-sequences after the
//! first begin. Packs of this layout are emitted exactly as concatenated:
//! their buffers are neither truncated nor padded.

use vstd::prelude::*;
use crate::common::{count_eq, seq_sum, LossMask, PackError, Sequence};
use crate::packing::count_in_bins;
use crate::strategy::common::{
    all_bin_pieces, bin_pieces, lemma_all_bin_pieces_len, lemma_all_bin_pieces_push,
    lemma_bin_pieces_push, lemma_count_eq_skip, lemma_count_in_bins_skip, pool_after_bin,
    pool_after_bins, pool_covers, pool_pop, SequencePool,
};
use crate::{NemoOutput, ReturnFormat};

verus! {

/// The options bundle of the Nemo layout.
pub struct NemoOptions {
    pub answer_start_id: Option<u32>,
    pub answer_end_id: Option<u32>,
    pub answer_loss_only: bool,
}

impl NemoOptions {
    /// If `answer_loss_only` is set, both boundary ids must be present.
    pub open spec fn wf(self) -> bool {
        self.answer_loss_only ==> self.answer_start_id is Some && self.answer_end_id is Some
    }

    /// A builder with nothing set.
    pub fn builder() -> (r: NemoOptionsBuilder)
        ensures
            r == (NemoOptionsBuilder {
                answer_start_id: None,
                answer_end_id: None,
                answer_loss_only: false,
            }),
    {
        NemoOptionsBuilder::default()
    }
}

/// Builder of `NemoOptions`; `build` validates the bundle.
pub struct NemoOptionsBuilder {
    pub answer_start_id: Option<u32>,
    pub answer_end_id: Option<u32>,
    pub answer_loss_only: bool,
}

impl Default for NemoOptionsBuilder {
    fn default() -> (r: Self)
        ensures
            r == (NemoOptionsBuilder {
                answer_start_id: None,
                answer_end_id: None,
                answer_loss_only: false,
            }),
    {
        NemoOptionsBuilder { answer_start_id: None, answer_end_id: None, answer_loss_only: false }
    }
}

impl NemoOptionsBuilder {
    pub fn answer_start_id(self, id: Option<u32>) -> (r: Self)
        ensures
            r == (NemoOptionsBuilder { answer_start_id: id, ..self }),
    {
        NemoOptionsBuilder { answer_start_id: id, ..self }
    }

    pub fn answer_end_id(self, id: Option<u32>) -> (r: Self)
        ensures
            r == (NemoOptionsBuilder { answer_end_id: id, ..self }),
    {
        NemoOptionsBuilder { answer_end_id: id, ..self }
    }

    pub fn answer_loss_only(self, loss_only: bool) -> (r: Self)
        ensures
            r == (NemoOptionsBuilder { answer_loss_only: loss_only, ..self }),
    {
        NemoOptionsBuilder { answer_loss_only: loss_only, ..self }
    }

    /// Validate and build. When `answer_loss_only` is off, the boundary
    /// ids are cleared, since no masking will read them; when it is on,
    /// both boundary ids must be present, else `InvalidOptions`.
    pub fn build(self) -> (r: Result<NemoOptions, PackError>)
        ensures
            r == build_opts(self),
            !self.answer_loss_only ==> r == Ok::<NemoOptions, PackError>(
                NemoOptions {
                    answer_start_id: None,
                    answer_end_id: None,
                    answer_loss_only: false,
                },
            ),
            self.answer_loss_only && self.answer_start_id is Some && self.answer_end_id is Some
                ==> r == Ok::<NemoOptions, PackError>(
                NemoOptions {
                    answer_start_id: self.answer_start_id,
                    answer_end_id: self.answer_end_id,
                    answer_loss_only: true,
                },
            ),
            self.answer_loss_only && (self.answer_start_id is None || self.answer_end_id is None)
                ==> r == Err::<NemoOptions, PackError>(PackError::InvalidOptions),
            r matches Ok(o) ==> o.wf(),
    {
        if !self.answer_loss_only {
            Ok(NemoOptions { answer_start_id: None, answer_end_id: None, answer_loss_only: false })
        } else if self.answer_start_id.is_none() || self.answer_end_id.is_none() {
            Err(PackError::InvalidOptions)
        } else {
            Ok(NemoOptions {
                answer_start_id: self.answer_start_id,
                answer_end_id: self.answer_end_id,
                answer_loss_only: true,
            })
        }
    }
}

/// What `NemoOptionsBuilder::build` returns for a given builder state.
pub open spec fn build_opts(b: NemoOptionsBuilder) -> Result<NemoOptions, PackError> {
    if !b.answer_loss_only {
        Ok(NemoOptions { answer_start_id: None, answer_end_id: None, answer_loss_only: false })
    } else if b.answer_start_id is None || b.answer_end_id is None {
        Err(PackError::InvalidOptions)
    } else {
        Ok(
            NemoOptions {
                answer_start_id: b.answer_start_id,
                answer_end_id: b.answer_end_id,
                answer_loss_only: true,
            },
        )
    }
}

/// Whether a token is the configured pad id; a pad position never
/// contributes to the loss, whatever the masking mode or phase.
pub open spec fn is_pad(x: u32, pad: Option<u32>) -> bool {
    pad matches Some(p) && x == p
}

/// The phase of the answer-loss-only scan after the first `i` tokens:
/// true from an answer-start token until the next answer-end token. Pad
/// positions leave the phase untouched.
pub open spec fn alo_phase(input: Seq<u32>, start: u32, end: u32, pad: Option<u32>, i: int) -> bool
    decreases i,
{
    if i <= 0 {
        false
    } else {
        let c = input[i - 1];
        if is_pad(c, pad) {
            alo_phase(input, start, end, pad, i - 1)
        } else if c == start {
            true
        } else if c == end {
            false
        } else {
            alo_phase(input, start, end, pad, i - 1)
        }
    }
}

/// The loss mask of one sub-sequence. With `answer_loss_only` off, every
/// position contributes except position 0 and pad positions. With it on,
/// positions contribute from an answer-start token (inclusive) until an
/// answer-end token (whose own position does not contribute), pad
/// positions never.
pub open spec fn loss_mask_spec(
    input: Seq<u32>,
    answer_loss_only: bool,
    start: Option<u32>,
    end: Option<u32>,
    pad: Option<u32>,
) -> Seq<bool> {
    if !answer_loss_only {
        Seq::new(input.len(), |i: int| i != 0 && !is_pad(input[i], pad))
    } else {
        Seq::new(
            input.len(),
            |i: int|
                {
                    let c = input[i];
                    if is_pad(c, pad) {
                        false
                    } else if c == start.unwrap() {
                        true
                    } else if c == end.unwrap() {
                        false
                    } else {
                        alo_phase(input, start.unwrap(), end.unwrap(), pad, i)
                    }
                },
        )
    }
}

/// A pad position never contributes to the loss, in either masking mode.
pub proof fn lemma_pad_position_never_in_loss(
    input: Seq<u32>,
    answer_loss_only: bool,
    start: Option<u32>,
    end: Option<u32>,
    pad: Option<u32>,
    i: int,
)
    requires
        0 <= i < input.len(),
        is_pad(input[i], pad),
    ensures
        loss_mask_spec(input, answer_loss_only, start, end, pad)[i] == false,
{
}

/// Compute the loss mask of one sub-sequence.
pub fn create_loss_mask(
    input_ids: Sequence,
    answer_loss_only: bool,
    answer_start_id: Option<u32>,
    answer_end_id: Option<u32>,
    pad_id: Option<u32>,
) -> (r: LossMask)
    requires
        answer_loss_only ==> answer_start_id is Some && answer_end_id is Some,
        !answer_loss_only ==> input_ids@.len() > 0,
    ensures
        r@ == loss_mask_spec(input_ids@, answer_loss_only, answer_start_id, answer_end_id, pad_id),
{
    let n = input_ids.len();
    let mut loss_mask: LossMask = Vec::new();
    if !answer_loss_only {
        let mut i: usize = 0;
        while i < n
            invariant
                i <= n,
                n == input_ids@.len(),
                loss_mask@.len() == i,
                forall|j: int|
                    0 <= j < i ==> loss_mask@[j] == (j != 0 && !is_pad(input_ids@[j], pad_id)),
            decreases n - i,
        {
            let mut v = i != 0;
            if let Some(p) = pad_id {
                if input_ids[i] == p {
                    v = false;
                }
            }
            loss_mask.push(v);
            i = i + 1;
        }
        proof {
            assert(loss_mask@ =~= loss_mask_spec(
                input_ids@,
                answer_loss_only,
                answer_start_id,
                answer_end_id,
                pad_id,
            ));
        }
    } else {
        let start = answer_start_id.unwrap();
        let end = answer_end_id.unwrap();
        let mut flag = false;
        let mut i: usize = 0;
        while i < n
            invariant
                i <= n,
                n == input_ids@.len(),
                start == answer_start_id.unwrap(),
                end == answer_end_id.unwrap(),
                flag == alo_phase(input_ids@, start, end, pad_id, i as int),
                loss_mask@.len() == i,
                forall|j: int|
                    0 <= j < i ==> loss_mask@[j] == loss_mask_spec(
                        input_ids@,
                        true,
                        answer_start_id,
                        answer_end_id,
                        pad_id,
                    )[j],
            decreases n - i,
        {
            let c = input_ids[i];
            let mut padded = false;
            if let Some(p) = pad_id {
                if c == p {
                    padded = true;
                }
            }
            if padded {
                loss_mask.push(false);
            } else if c == start {
                flag = true;
                loss_mask.push(true);
            } else if c == end {
                flag = false;
                loss_mask.push(false);
            } else {
                loss_mask.push(flag);
            }
            i = i + 1;
        }
        proof {
            assert(loss_mask@ =~= loss_mask_spec(
                input_ids@,
                answer_loss_only,
                answer_start_id,
                answer_end_id,
                pad_id,
            ));
        }
    }
    loss_mask
}

/// The loss mask of a whole pack: the concatenation of the masks of its
/// pieces.
pub open spec fn pack_loss_mask_of(
    pieces: Seq<Seq<u32>>,
    opts: NemoOptions,
    pad: Option<u32>,
) -> Seq<bool> {
    Seq::new(
        pieces.len(),
        |k: int|
            loss_mask_spec(
                pieces[k],
                opts.answer_loss_only,
                opts.answer_start_id,
                opts.answer_end_id,
                pad,
            ),
    ).flatten()
}

/// The total token count of a piece list.
pub open spec fn pieces_total_len(pieces: Seq<Seq<u32>>) -> int
    decreases pieces.len(),
{
    if pieces.len() == 0 {
        0
    } else {
        pieces_total_len(pieces.drop_last()) + pieces.last().len()
    }
}

/// The offsets at which a pack's sub-sequences begin, the first omitted:
/// entry `j` is the offset of sub-sequence `j + 1`.
pub open spec fn seq_starts_of(pieces: Seq<Seq<u32>>) -> Seq<u32> {
    if pieces.len() == 0 {
        Seq::empty()
    } else {
        Seq::new((pieces.len() - 1) as nat, |j: int| pieces_total_len(pieces.take(j + 1)) as u32)
    }
}

/// What the Nemo layout holds for a given starting pool and assignment.
pub open spec fn nemo_output_ok(
    out: NemoOutput,
    pool: Seq<Seq<Seq<u32>>>,
    bins: Seq<Seq<usize>>,
    opts: NemoOptions,
    pad: Option<u32>,
) -> bool {
    let pieces = all_bin_pieces(pool, bins);
    &&& out.input_ids@.len() == bins.len()
    &&& out.loss_mask@.len() == bins.len()
    &&& out.seq_start_id@.len() == bins.len()
    &&& forall|i: int|
        0 <= i < bins.len() ==> (#[trigger] out.input_ids@[i])@ == pieces[i].flatten()
    &&& forall|i: int|
        0 <= i < bins.len() ==> (#[trigger] out.loss_mask@[i])@ == pack_loss_mask_of(
            pieces[i],
            opts,
            pad,
        )
    &&& forall|i: int|
        0 <= i < bins.len() ==> (#[trigger] out.seq_start_id@[i])@ == seq_starts_of(pieces[i])
}

proof fn lemma_pieces_total_len_push(pieces: Seq<Seq<u32>>, p: Seq<u32>)
    ensures
        pieces_total_len(pieces.push(p)) == pieces_total_len(pieces) + p.len(),
{
    assert(pieces.push(p).drop_last() =~= pieces);
}

/// Fill every pack without truncation or padding, computing per piece the
/// loss mask and recording the sub-sequence start offsets.
pub(crate) fn nemo_packing_strategy(
    ifile_handles: &mut SequencePool,
    assignments: Vec<Vec<usize>>,
    options: NemoOptions,
    pad_id: Option<u32>,
) -> (r: ReturnFormat)
    requires
        old(ifile_handles).input_ids@.len() > 0,
        old(ifile_handles).wf(old(ifile_handles).input_ids@.len() - 1),
        pool_covers(
            old(ifile_handles).tokens(),
            assignments.deep_view(),
            old(ifile_handles).input_ids@.len() - 1,
        ),
        options.wf(),
        forall|i: int|
            0 <= i < assignments.deep_view().len() ==> seq_sum(
                #[trigger] assignments.deep_view()[i],
            ) <= u32::MAX,
        !options.answer_loss_only ==> forall|i: int, j: int|
            0 <= i < assignments.deep_view().len() && 0 <= j < assignments.deep_view()[i].len()
                ==> (#[trigger] assignments.deep_view()[i][j]) > 0,
    ensures
        final(ifile_handles).wf(old(ifile_handles).input_ids@.len() - 1),
        final(ifile_handles).tokens() == pool_after_bins(
            old(ifile_handles).tokens(),
            assignments.deep_view(),
        ),
        r matches ReturnFormat::Nemo(out) && nemo_output_ok(
            out,
            old(ifile_handles).tokens(),
            assignments.deep_view(),
            options,
            pad_id,
        ),
{
    let ghost cap = ifile_handles.input_ids@.len() - 1;
    let ghost tok0 = ifile_handles.tokens();
    let ghost bins = assignments.deep_view();
    let mut input_ids: Vec<Sequence> = Vec::new();
    let mut loss_mask: Vec<LossMask> = Vec::new();
    let mut seq_start_id: Vec<Sequence> = Vec::new();
    let n = assignments.len();
    let mut i: usize = 0;
    proof {
        assert(bins.take(0) =~= Seq::<Seq<usize>>::empty());
        assert(all_bin_pieces(tok0, bins.take(0)) =~= Seq::<Seq<Seq<u32>>>::empty());
        assert(bins.skip(0) =~= bins);
    }
    while i < n
        invariant
            i <= n,
            n == bins.len(),
            bins == assignments.deep_view(),
            options.wf(),
            ifile_handles.input_ids@.len() == cap + 1,
            forall|i2: int, j: int|
                0 <= i2 < bins.len() && 0 <= j < bins[i2].len() ==> (#[trigger] bins[i2][j]) <= cap,
            forall|i2: int| 0 <= i2 < bins.len() ==> seq_sum(#[trigger] bins[i2]) <= u32::MAX,
            !options.answer_loss_only ==> forall|i2: int, j: int|
                0 <= i2 < bins.len() && 0 <= j < bins[i2].len() ==> (#[trigger] bins[i2][j]) > 0,
            ifile_handles.wf(cap),
            ifile_handles.tokens() == pool_after_bins(tok0, bins.take(i as int)),
            forall|x: usize|
                x <= cap ==> count_in_bins(bins.skip(i as int), x)
                    <= ifile_handles.tokens()[x as int].len(),
            input_ids@.len() == i,
            loss_mask@.len() == i,
            seq_start_id@.len() == i,
            forall|k: int|
                0 <= k < i ==> (#[trigger] input_ids@[k])@ == all_bin_pieces(
                    tok0,
                    bins.take(i as int),
                )[k].flatten(),
            forall|k: int|
                0 <= k < i ==> (#[trigger] loss_mask@[k])@ == pack_loss_mask_of(
                    all_bin_pieces(tok0, bins.take(i as int))[k],
                    options,
                    pad_id,
                ),
            forall|k: int|
                0 <= k < i ==> (#[trigger] seq_start_id@[k])@ == seq_starts_of(
                    all_bin_pieces(tok0, bins.take(i as int))[k],
                ),
        decreases n - i,
    {
        let bin = &assignments[i];
        let m = bin.len();
        let ghost tok_i = ifile_handles.tokens();
        let ghost pieces_i = bin_pieces(tok_i, bins[i as int]);
        let mut buf_tokens: Sequence = Vec::new();
        let mut buf_mask: LossMask = Vec::new();
        let mut buf_starts: Sequence = Vec::new();
        proof {
            assert(bin@ =~= bins[i as int]);
            assert(bin@.take(0) =~= Seq::<usize>::empty());
            assert(bin_pieces(tok_i, bin@.take(0)) =~= Seq::<Seq<u32>>::empty());
            assert(bin_pieces(tok_i, bin@.take(0)).flatten() =~= Seq::<u32>::empty());
            assert(pack_loss_mask_of(bin_pieces(tok_i, bin@.take(0)), options, pad_id)
                =~= Seq::<bool>::empty());
            assert(bin@.skip(0) =~= bin@);
            assert forall|x: usize|
                x <= cap implies count_eq(bin@.skip(0), x) + count_in_bins(
                    bins.skip(i as int + 1),
                    x,
                ) <= ifile_handles.tokens()[x as int].len() by {
                lemma_count_in_bins_skip(bins, i as int, x);
            }
        }
        let mut j: usize = 0;
        while j < m
            invariant
                j <= m,
                m == bin@.len(),
                bin@ == bins[i as int],
                (i as int) < bins.len(),
                options.wf(),
                ifile_handles.input_ids@.len() == cap + 1,
                forall|j2: int| 0 <= j2 < bin@.len() ==> (#[trigger] bin@[j2]) <= cap,
                seq_sum(bin@) <= u32::MAX,
                !options.answer_loss_only ==> forall|j2: int|
                    0 <= j2 < bin@.len() ==> (#[trigger] bin@[j2]) > 0,
                ifile_handles.wf(cap),
                ifile_handles.tokens() == pool_after_bin(tok_i, bin@.take(j as int)),
                forall|x: usize|
                    x <= cap ==> count_eq(bin@.skip(j as int), x) + count_in_bins(
                        bins.skip(i as int + 1),
                        x,
                    ) <= ifile_handles.tokens()[x as int].len(),
                buf_tokens@ == bin_pieces(tok_i, bin@.take(j as int)).flatten(),
                buf_mask@ == pack_loss_mask_of(bin_pieces(tok_i, bin@.take(j as int)), options,
                    pad_id),
                buf_tokens@.len() == pieces_total_len(bin_pieces(tok_i, bin@.take(j as int))),
                pieces_total_len(bin_pieces(tok_i, bin@.take(j as int))) == seq_sum(
                    bin@.take(j as int),
                ),
                buf_starts@.len() == j,
                forall|x: int|
                    0 <= x < j ==> buf_starts@[x] == (pieces_total_len(
                        bin_pieces(tok_i, bin@.take(j as int)).take(x + 1),
                    ) as u32),
            decreases m - j,
        {
            let l = bin[j];
            proof {
                lemma_count_eq_skip(bin@, j as int, l);
                assert(count_eq(bin@.skip(j as int), l) >= 1);
                assert(ifile_handles.input_ids@[l as int]@.len() >= 1);
                crate::packing::lemma_seq_sum_push(bin@.take(j as int), l);
                assert(bin@.take(j as int).push(l) =~= bin@.take(j as int + 1));
                lemma_seq_sum_take_le(bin@, j as int + 1);
            }
            let ghost cur = ifile_handles.tokens();
            let piece = ifile_handles.input_ids[l].pop().unwrap();
            let _ = ifile_handles.position_ids[l].pop().unwrap();
            let ghost piece0 = piece;
            let mut piece_copy = piece.clone();
            proof {
                assert(piece_copy@ =~= piece0@);
            }
            buf_tokens.append(&mut piece_copy);
            let piece_mask = create_loss_mask(
                piece,
                options.answer_loss_only,
                options.answer_start_id,
                options.answer_end_id,
                pad_id,
            );
            let ghost piece_mask0 = piece_mask;
            let mut piece_mask_mut = piece_mask;
            buf_mask.append(&mut piece_mask_mut);
            buf_starts.push(buf_tokens.len() as u32);
            proof {
                assert(ifile_handles.tokens() =~~= pool_pop(cur, l as int));
                lemma_bin_pieces_push(tok_i, bin@.take(j as int), l);
                crate::strategy::common::lemma_bin_pieces_len(tok_i, bin@.take(j as int));
                crate::strategy::common::lemma_bin_pieces_len(tok_i, bin@.take(j as int + 1));
                let pcs_j = bin_pieces(tok_i, bin@.take(j as int));
                let pcs_j1 = bin_pieces(tok_i, bin@.take(j as int + 1));
                let pv = cur[l as int].last();
                assert(piece0.deep_view() =~= piece0@);
                assert(piece0.deep_view() == pv);
                assert(pcs_j1 == pcs_j.push(pv));
                assert(pv.len() == l);
                pcs_j.lemma_flatten_push(pv);
                assert(buf_tokens@ == pcs_j1.flatten());
                lemma_pieces_total_len_push(pcs_j, pv);
                // the mask of the popped piece extends the pack mask
                assert(Seq::new(
                    pcs_j1.len(),
                    |k: int|
                        loss_mask_spec(
                            pcs_j1[k],
                            options.answer_loss_only,
                            options.answer_start_id,
                            options.answer_end_id,
                            pad_id,
                        ),
                ) =~= Seq::new(
                    pcs_j.len(),
                    |k: int|
                        loss_mask_spec(
                            pcs_j[k],
                            options.answer_loss_only,
                            options.answer_start_id,
                            options.answer_end_id,
                            pad_id,
                        ),
                ).push(
                    loss_mask_spec(
                        pv,
                        options.answer_loss_only,
                        options.answer_start_id,
                        options.answer_end_id,
                        pad_id,
                    ),
                ));
                Seq::new(
                    pcs_j.len(),
                    |k: int|
                        loss_mask_spec(
                            pcs_j[k],
                            options.answer_loss_only,
                            options.answer_start_id,
                            options.answer_end_id,
                            pad_id,
                        ),
                ).lemma_flatten_push(
                    loss_mask_spec(
                        pv,
                        options.answer_loss_only,
                        options.answer_start_id,
                        options.answer_end_id,
                        pad_id,
                    ),
                );
                assert(buf_mask@ == pack_loss_mask_of(pcs_j1, options, pad_id));
                // start offsets already recorded stay correct
                assert forall|x: int|
                    0 <= x < j + 1 implies buf_starts@[x] == (pieces_total_len(
                        pcs_j1.take(x + 1),
                    ) as u32) by {
                    if x < j {
                        assert(pcs_j1.take(x + 1) =~= pcs_j.take(x + 1));
                    } else {
                        assert(pcs_j1.take(x + 1) =~= pcs_j1);
                    }
                }
                // one unit of demand for `l` was served
                assert forall|x: usize|
                    x <= cap implies count_eq(bin@.skip(j as int + 1), x) + count_in_bins(
                        bins.skip(i as int + 1),
                        x,
                    ) <= ifile_handles.tokens()[x as int].len() by {
                    lemma_count_eq_skip(bin@, j as int, x);
                    if x != l {
                        assert(ifile_handles.tokens()[x as int] == cur[x as int]);
                    }
                }
            }
            j = j + 1;
        }
        // the offset recorded after the last piece is the pack's total
        // length, not a sub-sequence start, and is dropped
        if !buf_starts.is_empty() {
            let _ = buf_starts.pop();
        }
        proof {
            assert(bin@.take(m as int) =~= bin@);
            assert(pieces_i == bin_pieces(tok_i, bin@));
            assert(bin@.skip(m as int) =~= Seq::<usize>::empty());
            assert forall|x: usize|
                x <= cap implies count_in_bins(bins.skip(i as int + 1), x)
                    <= ifile_handles.tokens()[x as int].len() by {
                assert(count_eq(bin@.skip(m as int), x) + count_in_bins(bins.skip(i as int + 1), x)
                    <= ifile_handles.tokens()[x as int].len());
                assert(count_eq(bin@.skip(m as int), x) == 0);
            }
            crate::strategy::common::lemma_bin_pieces_len(tok_i, bin@);
            assert(buf_starts@ =~= seq_starts_of(pieces_i));
        }
        let ghost in0 = input_ids@;
        let ghost lm0 = loss_mask@;
        let ghost ss0 = seq_start_id@;
        input_ids.push(buf_tokens);
        loss_mask.push(buf_mask);
        seq_start_id.push(buf_starts);
        proof {
            lemma_all_bin_pieces_push(tok0, bins.take(i as int), bins[i as int]);
            lemma_all_bin_pieces_len(tok0, bins.take(i as int));
            assert(bins.take(i as int).push(bins[i as int]) =~= bins.take(i as int + 1));
            let pieces_upto = all_bin_pieces(tok0, bins.take(i as int + 1));
            assert(pieces_upto == all_bin_pieces(tok0, bins.take(i as int)).push(pieces_i));
            assert forall|k: int|
                0 <= k < i + 1 implies (#[trigger] input_ids@[k])@ == pieces_upto[k].flatten() by {
                if k < i {
                    assert(input_ids@[k] == in0[k]);
                    assert(pieces_upto[k] == all_bin_pieces(tok0, bins.take(i as int))[k]);
                }
            }
            assert forall|k: int|
                0 <= k < i + 1 implies (#[trigger] loss_mask@[k])@ == pack_loss_mask_of(
                    pieces_upto[k],
                    options,
                    pad_id,
                ) by {
                if k < i {
                    assert(loss_mask@[k] == lm0[k]);
                    assert(pieces_upto[k] == all_bin_pieces(tok0, bins.take(i as int))[k]);
                }
            }
            assert forall|k: int|
                0 <= k < i + 1 implies (#[trigger] seq_start_id@[k])@ == seq_starts_of(
                    pieces_upto[k],
                ) by {
                if k < i {
                    assert(seq_start_id@[k] == ss0[k]);
                    assert(pieces_upto[k] == all_bin_pieces(tok0, bins.take(i as int))[k]);
                }
            }
        }
        i = i + 1;
    }
    proof {
        assert(bins.take(n as int) =~= bins);
        lemma_all_bin_pieces_len(tok0, bins);
    }
    ReturnFormat::Nemo(NemoOutput { input_ids, loss_mask, seq_start_id })
}

proof fn lemma_seq_sum_take_le(s: Seq<usize>, j: int)
    requires
        0 <= j <= s.len(),
    ensures
        seq_sum(s.take(j)) <= seq_sum(s),
    decreases s.len() - j,
{
    if j < s.len() {
        lemma_seq_sum_take_le(s, j + 1);
        crate::packing::lemma_seq_sum_push(s.take(j), s[j]);
        assert(s.take(j).push(s[j]) =~= s.take(j + 1));
    } else {
        assert(s.take(j) =~= s);
    }
}

} // verus!
