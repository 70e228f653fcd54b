//! The sequence pool and the shared fill step. The pool holds, per length,
//! the actual sequences in a randomized order together with their derived
//! position-index sequences; the fill step drains it last-in-first-out,
//! one pop per length of each bin, concatenating the popped pieces into
//! the pack buffers.

use vstd::prelude::*;
use vstd::multiset::Multiset;
use crate::common::{count_eq, seq_sum, Histogram, Sequence};
use crate::packing::count_in_bins;
use crate::strategy::composer::{composer_output_ok, composer_packing_strategy};
use crate::strategy::iterator::{iterator_output_ok, iterator_packing_strategy};
use crate::strategy::nemo::{nemo_output_ok, nemo_packing_strategy, NemoOptions};
use crate::ReturnFormat;

verus! {

/// The position-index sequence of a length-`n` piece: `0, 1, ..., n-1`.
pub open spec fn pos_seq(n: int) -> Seq<u32> {
    Seq::new(n as nat, |i: int| i as u32)
}

/// The sequence pool: bucket `l` of `input_ids` holds the sequences of
/// length `l` in a randomized order, and the same bucket of
/// `position_ids` holds their position-index sequences in parallel.
pub struct SequencePool {
    pub input_ids: Vec<Vec<Sequence>>,
    pub position_ids: Vec<Vec<Sequence>>,
}

impl SequencePool {
    /// Buckets cover every length up to the capacity; each sequence sits
    /// in the bucket of its own length, with its position ids alongside.
    pub open spec fn wf(self, cap: int) -> bool {
        &&& self.input_ids@.len() == cap + 1
        &&& self.position_ids@.len() == cap + 1
        &&& forall|l: int|
            0 <= l <= cap ==> (#[trigger] self.position_ids@[l])@.len()
                == self.input_ids@[l]@.len()
        &&& forall|l: int, k: int|
            0 <= l <= cap && 0 <= k < self.input_ids@[l]@.len()
                ==> (#[trigger] self.input_ids@[l]@[k])@.len() == l
        &&& forall|l: int, k: int|
            0 <= l <= cap && 0 <= k < self.position_ids@[l]@.len()
                ==> (#[trigger] self.position_ids@[l]@[k])@ == pos_seq(l)
    }

    /// The tokens the pool holds, bucket by bucket.
    pub open spec fn tokens(self) -> Seq<Seq<Seq<u32>>> {
        self.input_ids.deep_view()
    }
}

/// The pool holds, per length, exactly the given buckets' sequences, in
/// some order.
pub open spec fn pool_matches_buckets(
    pool: Seq<Seq<Seq<u32>>>,
    buckets: Seq<Seq<Seq<u32>>>,
    cap: int,
) -> bool {
    &&& pool.len() == cap + 1
    &&& forall|l: int|
        0 <= l <= cap ==> (#[trigger] pool[l]).to_multiset() == buckets[l].to_multiset()
}

/// The pool holds, per length, exactly the histogram's sequences of that
/// length, in some order.
pub open spec fn pool_matches_hist(pool: Seq<Seq<Seq<u32>>>, hist: Histogram, cap: int) -> bool {
    pool_matches_buckets(pool, hist.buckets.deep_view(), cap)
}

/// Derive the position-index sequence `0..len-1` for each sequence.
pub fn create_position_ids(input_ids: &Vec<Sequence>) -> (r: Vec<Sequence>)
    requires
        forall|i: int| 0 <= i < input_ids@.len() ==> (#[trigger] input_ids@[i])@.len() <= u32::MAX,
    ensures
        r@.len() == input_ids@.len(),
        forall|i: int|
            0 <= i < r@.len() ==> (#[trigger] r@[i])@ == pos_seq(input_ids@[i]@.len() as int),
{
    let mut r: Vec<Sequence> = Vec::new();
    let n = input_ids.len();
    let mut i: usize = 0;
    while i < n
        invariant
            i <= n,
            n == input_ids@.len(),
            forall|k: int|
                0 <= k < input_ids@.len() ==> (#[trigger] input_ids@[k])@.len() <= u32::MAX,
            r@.len() == i,
            forall|k: int|
                0 <= k < i ==> (#[trigger] r@[k])@ == pos_seq(input_ids@[k]@.len() as int),
        decreases n - i,
    {
        let seq = &input_ids[i];
        let m = seq.len();
        let mut pos: Sequence = Vec::new();
        let mut j: usize = 0;
        while j < m
            invariant
                j <= m,
                m <= u32::MAX,
                pos@.len() == j,
                forall|k: int| 0 <= k < j ==> pos@[k] == k as u32,
            decreases m - j,
        {
            pos.push(j as u32);
            j = j + 1;
        }
        proof {
            assert(pos@ =~= pos_seq(m as int));
        }
        r.push(pos);
        i = i + 1;
    }
    r
}

/// For each length bucket of the histogram, copy out the sequences,
/// shuffle them uniformly at random, derive their position ids, and store
/// both in the pool. The pool then holds the histogram's contents per
/// length, in an order decoupled from the input order.
pub fn populate_ifile_handles(
    ifile_handles: &mut SequencePool,
    sequences: &Histogram,
    pack_size: &usize,
)
    requires
        old(ifile_handles).input_ids@.len() == 0,
        old(ifile_handles).position_ids@.len() == 0,
        sequences.wf(*pack_size as int),
        *pack_size <= u32::MAX,
        *pack_size < usize::MAX,
    ensures
        final(ifile_handles).wf(*pack_size as int),
        pool_matches_hist(final(ifile_handles).tokens(), *sequences, *pack_size as int),
{
    let cap: usize = *pack_size;
    let mut l: usize = 0;
    while l <= cap
        invariant
            l <= cap + 1,
            cap <= u32::MAX,
            cap < usize::MAX,
            sequences.wf(cap as int),
            ifile_handles.input_ids@.len() == l,
            ifile_handles.position_ids@.len() == l,
            forall|l2: int|
                0 <= l2 < l ==> (#[trigger] ifile_handles.position_ids@[l2])@.len()
                    == ifile_handles.input_ids@[l2]@.len(),
            forall|l2: int, k: int|
                0 <= l2 < l && 0 <= k < ifile_handles.input_ids@[l2]@.len()
                    ==> (#[trigger] ifile_handles.input_ids@[l2]@[k])@.len() == l2,
            forall|l2: int, k: int|
                0 <= l2 < l && 0 <= k < ifile_handles.position_ids@[l2]@.len()
                    ==> (#[trigger] ifile_handles.position_ids@[l2]@[k])@ == pos_seq(l2),
            forall|l2: int|
                0 <= l2 < l ==> (#[trigger] ifile_handles.tokens()[l2]).to_multiset()
                    == sequences.buckets@[l2].deep_view().to_multiset(),
        decreases cap + 1 - l,
    {
        let bucket = &sequences.buckets[l];
        let m = bucket.len();
        let mut input_ids: Vec<Sequence> = Vec::new();
        let mut k: usize = 0;
        while k < m
            invariant
                k <= m,
                m == bucket@.len(),
                input_ids@.len() == k,
                forall|j: int| 0 <= j < k ==> (#[trigger] input_ids@[j])@ == bucket@[j]@,
            decreases m - k,
        {
            input_ids.push(bucket[k].clone());
            k = k + 1;
        }
        proof {
            assert(input_ids.deep_view() =~~= bucket.deep_view());
        }
        crate::common::shuffle_vec(&mut input_ids);
        proof {
            assert(input_ids.deep_view().to_multiset() == bucket.deep_view().to_multiset());
            // every sequence in the shuffled bucket keeps length `l`
            broadcast use vstd::seq_lib::group_to_multiset_ensures;

            assert forall|j: int|
                0 <= j < input_ids@.len() implies (#[trigger] input_ids@[j])@.len() == l by {
                let dv = input_ids.deep_view();
                assert(dv[j] == input_ids@[j]@);
                assert(dv.contains(dv[j]));
                assert(dv.to_multiset().count(dv[j]) > 0);
                let bdv = bucket.deep_view();
                assert(bdv.contains(dv[j]));
                let j2 = choose|j2: int| 0 <= j2 < bdv.len() && bdv[j2] == dv[j];
                assert(bdv[j2] == bucket@[j2]@);
                assert(bucket@[j2]@.len() == l);
            }
        }
        let position_ids = create_position_ids(&input_ids);
        let ghost shuffled = input_ids;
        let ghost pool0 = *ifile_handles;
        ifile_handles.input_ids.push(input_ids);
        ifile_handles.position_ids.push(position_ids);
        proof {
            assert forall|l2: int|
                0 <= l2 < l + 1 implies (#[trigger] ifile_handles.tokens()[l2]).to_multiset()
                    == sequences.buckets@[l2].deep_view().to_multiset() by {
                if l2 < l {
                    assert(ifile_handles.tokens()[l2] == pool0.tokens()[l2]);
                    assert(pool0.tokens()[l2].to_multiset()
                        == sequences.buckets@[l2].deep_view().to_multiset());
                } else {
                    assert(ifile_handles.input_ids@[l2] == shuffled);
                    assert(ifile_handles.tokens()[l2] == shuffled.deep_view());
                }
            }
        }
        l = l + 1;
    }
}

/// Remove the last entry of bucket `l`: the entry a LIFO pop takes.
pub open spec fn pool_pop(pool: Seq<Seq<Seq<u32>>>, l: int) -> Seq<Seq<Seq<u32>>> {
    pool.update(l, pool[l].drop_last())
}

/// The pieces one bin pops from the pool, front to back: one piece per
/// length in the bin, each the newest entry of the bucket of that length.
pub open spec fn bin_pieces(pool: Seq<Seq<Seq<u32>>>, bin: Seq<usize>) -> Seq<Seq<u32>>
    decreases bin.len(),
{
    if bin.len() == 0 {
        Seq::empty()
    } else {
        seq![pool[bin[0] as int].last()] + bin_pieces(pool_pop(pool, bin[0] as int),
        bin.drop_first())
    }
}

/// The pool after one bin's pops.
pub open spec fn pool_after_bin(pool: Seq<Seq<Seq<u32>>>, bin: Seq<usize>) -> Seq<Seq<Seq<u32>>>
    decreases bin.len(),
{
    if bin.len() == 0 {
        pool
    } else {
        pool_after_bin(pool_pop(pool, bin[0] as int), bin.drop_first())
    }
}

/// The per-bin piece lists over a whole assignment, in bin order, the
/// pool draining from bin to bin.
pub open spec fn all_bin_pieces(pool: Seq<Seq<Seq<u32>>>, bins: Seq<Seq<usize>>) -> Seq<
    Seq<Seq<u32>>,
>
    decreases bins.len(),
{
    if bins.len() == 0 {
        Seq::empty()
    } else {
        seq![bin_pieces(pool, bins[0])] + all_bin_pieces(pool_after_bin(pool, bins[0]),
        bins.drop_first())
    }
}

/// The pool after a whole assignment's pops.
pub open spec fn pool_after_bins(pool: Seq<Seq<Seq<u32>>>, bins: Seq<Seq<usize>>) -> Seq<
    Seq<Seq<u32>>,
>
    decreases bins.len(),
{
    if bins.len() == 0 {
        pool
    } else {
        pool_after_bins(pool_after_bin(pool, bins[0]), bins.drop_first())
    }
}

pub proof fn lemma_bin_pieces_len(pool: Seq<Seq<Seq<u32>>>, bin: Seq<usize>)
    ensures
        bin_pieces(pool, bin).len() == bin.len(),
    decreases bin.len(),
{
    if bin.len() > 0 {
        lemma_bin_pieces_len(pool_pop(pool, bin[0] as int), bin.drop_first());
    }
}

pub proof fn lemma_all_bin_pieces_len(pool: Seq<Seq<Seq<u32>>>, bins: Seq<Seq<usize>>)
    ensures
        all_bin_pieces(pool, bins).len() == bins.len(),
    decreases bins.len(),
{
    if bins.len() > 0 {
        lemma_all_bin_pieces_len(pool_after_bin(pool, bins[0]), bins.drop_first());
    }
}

pub proof fn lemma_bin_pieces_push(pool: Seq<Seq<Seq<u32>>>, bin: Seq<usize>, l: usize)
    ensures
        bin_pieces(pool, bin.push(l)) == bin_pieces(pool, bin).push(
            pool_after_bin(pool, bin)[l as int].last(),
        ),
        pool_after_bin(pool, bin.push(l)) == pool_pop(pool_after_bin(pool, bin), l as int),
    decreases bin.len(),
{
    if bin.len() == 0 {
        reveal_with_fuel(bin_pieces, 2);
        reveal_with_fuel(pool_after_bin, 2);
        assert(bin.push(l)[0] == l);
        assert(bin.push(l).drop_first() =~= Seq::<usize>::empty());
        assert(bin_pieces(pool, bin.push(l)) =~= Seq::<Seq<u32>>::empty().push(
            pool[l as int].last(),
        ));
        assert(bin_pieces(pool, bin) =~= Seq::<Seq<u32>>::empty());
    } else {
        assert(bin.push(l)[0] == bin[0]);
        assert(bin.push(l).drop_first() =~= bin.drop_first().push(l));
        lemma_bin_pieces_push(pool_pop(pool, bin[0] as int), bin.drop_first(), l);
        let head = seq![pool[bin[0] as int].last()];
        let rest = bin_pieces(pool_pop(pool, bin[0] as int), bin.drop_first());
        let y = pool_after_bin(pool_pop(pool, bin[0] as int), bin.drop_first())[l as int].last();
        assert(head + rest.push(y) =~= (head + rest).push(y));
    }
}

pub proof fn lemma_all_bin_pieces_push(pool: Seq<Seq<Seq<u32>>>, bins: Seq<Seq<usize>>, b: Seq<usize>)
    ensures
        all_bin_pieces(pool, bins.push(b)) == all_bin_pieces(pool, bins).push(
            bin_pieces(pool_after_bins(pool, bins), b),
        ),
        pool_after_bins(pool, bins.push(b)) == pool_after_bin(pool_after_bins(pool, bins), b),
    decreases bins.len(),
{
    if bins.len() == 0 {
        reveal_with_fuel(all_bin_pieces, 2);
        reveal_with_fuel(pool_after_bins, 2);
        assert(bins.push(b)[0] == b);
        assert(bins.push(b).drop_first() =~= Seq::<Seq<usize>>::empty());
        assert(all_bin_pieces(pool, bins.push(b)) =~= Seq::<Seq<Seq<u32>>>::empty().push(
            bin_pieces(pool, b),
        ));
        assert(all_bin_pieces(pool, bins) =~= Seq::<Seq<Seq<u32>>>::empty());
    } else {
        assert(bins.push(b)[0] == bins[0]);
        assert(bins.push(b).drop_first() =~= bins.drop_first().push(b));
        lemma_all_bin_pieces_push(pool_after_bin(pool, bins[0]), bins.drop_first(), b);
        let head = seq![bin_pieces(pool, bins[0])];
        let rest = all_bin_pieces(pool_after_bin(pool, bins[0]), bins.drop_first());
        let y = bin_pieces(
            pool_after_bins(pool_after_bin(pool, bins[0]), bins.drop_first()),
            b,
        );
        assert(head + rest.push(y) =~= (head + rest).push(y));
    }
}

/// The positions buffer a bin produces: the concatenation of the position
/// ids of its pieces, each a fresh `0..len-1` counter.
pub open spec fn pack_positions_of(pieces: Seq<Seq<u32>>) -> Seq<u32> {
    Seq::new(pieces.len(), |k: int| pos_seq(pieces[k].len() as int)).flatten()
}

/// The shared truncation/padding step on a pack's token buffer: a buffer
/// over the capacity is cut to the capacity; otherwise, when a pad id is
/// configured, the buffer is right-padded with it up to the capacity; with
/// no pad id a short buffer stays ragged.
pub open spec fn finalize_tokens(raw: Seq<u32>, pad: Option<u32>, cap: int) -> Seq<u32> {
    if raw.len() > cap {
        raw.take(cap)
    } else {
        match pad {
            Some(p) => raw + Seq::new((cap - raw.len()) as nat, |i: int| p),
            None => raw,
        }
    }
}

/// The same step on the positions buffer; pad positions are zero.
pub open spec fn finalize_positions(raw: Seq<u32>, pad: Option<u32>, cap: int) -> Seq<u32> {
    if raw.len() > cap {
        raw.take(cap)
    } else {
        match pad {
            Some(_) => raw + Seq::new((cap - raw.len()) as nat, |i: int| 0u32),
            None => raw,
        }
    }
}

pub proof fn lemma_count_eq_skip(bin: Seq<usize>, j: int, x: usize)
    requires
        0 <= j < bin.len(),
    ensures
        count_eq(bin.skip(j), x) == count_eq(bin.skip(j + 1), x) + if bin[j] == x {
            1nat
        } else {
            0nat
        },
{
    assert(bin.skip(j) =~= seq![bin[j]] + bin.skip(j + 1));
    crate::common::lemma_count_eq_add(seq![bin[j]], bin.skip(j + 1), x);
    crate::packing::lemma_count_eq_singleton(bin[j], x);
}

pub proof fn lemma_count_in_bins_skip(bins: Seq<Seq<usize>>, i: int, x: usize)
    requires
        0 <= i < bins.len(),
    ensures
        count_in_bins(bins.skip(i), x) == count_eq(bins[i], x) + count_in_bins(
            bins.skip(i + 1),
            x,
        ),
{
    reveal_with_fuel(count_in_bins, 2);
    assert(bins.skip(i) =~= seq![bins[i]] + bins.skip(i + 1));
    crate::packing::lemma_count_in_bins_concat(seq![bins[i]], bins.skip(i + 1), x);
    assert(seq![bins[i]].drop_last() =~= Seq::<Seq<usize>>::empty());
    assert(seq![bins[i]].last() == bins[i]);
    assert(count_in_bins(seq![bins[i]], x) == count_eq(bins[i], x));
}

/// The demand the remaining bins place on the pool never exceeds what the
/// buckets still hold.
pub open spec fn pool_covers(pool: Seq<Seq<Seq<u32>>>, bins: Seq<Seq<usize>>, cap: int) -> bool {
    &&& forall|i: int, j: int|
        0 <= i < bins.len() && 0 <= j < bins[i].len() ==> (#[trigger] bins[i][j]) <= cap
    &&& forall|x: usize| x <= cap ==> count_in_bins(bins, x) <= pool[x as int].len()
}

/// The shared fill step. For every bin of the assignment, in bin order:
/// pop one (sequence, positions) pair per length in the bin, concatenate
/// them into the pack buffers, then truncate to the capacity or right-pad
/// with the configured pad id (positions pad with zero). Returns the token
/// buffers and the position buffers, one per pack.
pub(crate) fn fill_packs(
    ifile_handles: &mut SequencePool,
    assignments: &Vec<Vec<usize>>,
    pack_size: usize,
    pad_id: Option<u32>,
) -> (r: (Vec<Sequence>, Vec<Sequence>))
    requires
        old(ifile_handles).wf(pack_size as int),
        pool_covers(old(ifile_handles).tokens(), assignments.deep_view(), pack_size as int),
        pack_size <= u32::MAX,
    ensures
        final(ifile_handles).wf(pack_size as int),
        final(ifile_handles).tokens() == pool_after_bins(
            old(ifile_handles).tokens(),
            assignments.deep_view(),
        ),
        ({
            let pieces = all_bin_pieces(old(ifile_handles).tokens(), assignments.deep_view());
            &&& r.0@.len() == assignments.deep_view().len()
            &&& r.1@.len() == assignments.deep_view().len()
            &&& forall|i: int|
                0 <= i < pieces.len() ==> (#[trigger] r.0@[i])@ == finalize_tokens(
                    pieces[i].flatten(),
                    pad_id,
                    pack_size as int,
                )
            &&& forall|i: int|
                0 <= i < pieces.len() ==> (#[trigger] r.1@[i])@ == finalize_positions(
                    pack_positions_of(pieces[i]),
                    pad_id,
                    pack_size as int,
                )
        }),
{
    let ghost cap = pack_size as int;
    let ghost tok0 = ifile_handles.tokens();
    let ghost bins = assignments.deep_view();
    let mut out_tokens: Vec<Sequence> = Vec::new();
    let mut out_positions: Vec<Sequence> = Vec::new();
    let n = assignments.len();
    let mut i: usize = 0;
    proof {
        assert(bins.take(0) =~= Seq::<Seq<usize>>::empty());
        assert(all_bin_pieces(tok0, bins.take(0)) =~= Seq::<Seq<Seq<u32>>>::empty());
        assert(bins.skip(0) =~= bins);
    }
    while i < n
        invariant
            i <= n,
            n == bins.len(),
            cap == pack_size as int,
            pack_size <= u32::MAX,
            bins == assignments.deep_view(),
            forall|i2: int, j: int|
                0 <= i2 < bins.len() && 0 <= j < bins[i2].len() ==> (#[trigger] bins[i2][j])
                    <= pack_size,
            ifile_handles.wf(cap),
            ifile_handles.tokens() == pool_after_bins(tok0, bins.take(i as int)),
            forall|x: usize|
                x <= pack_size ==> count_in_bins(bins.skip(i as int), x)
                    <= ifile_handles.tokens()[x as int].len(),
            out_tokens@.len() == i,
            out_positions@.len() == i,
            forall|k: int|
                0 <= k < i ==> (#[trigger] out_tokens@[k])@ == finalize_tokens(
                    all_bin_pieces(tok0, bins.take(i as int))[k].flatten(),
                    pad_id,
                    cap,
                ),
            forall|k: int|
                0 <= k < i ==> (#[trigger] out_positions@[k])@ == finalize_positions(
                    pack_positions_of(all_bin_pieces(tok0, bins.take(i as int))[k]),
                    pad_id,
                    cap,
                ),
        decreases n - i,
    {
        let bin = &assignments[i];
        let m = bin.len();
        let ghost tok_i = ifile_handles.tokens();
        let ghost pieces_i = bin_pieces(tok_i, bins[i as int]);
        let mut buf_tokens: Sequence = Vec::new();
        let mut buf_positions: Sequence = Vec::new();
        proof {
            assert(bin@ =~= bins[i as int]);
            assert(bin@.take(0) =~= Seq::<usize>::empty());
            assert(bin_pieces(tok_i, bin@.take(0)) =~= Seq::<Seq<u32>>::empty());
            assert(bin_pieces(tok_i, bin@.take(0)).flatten() =~= Seq::<u32>::empty());
            assert(pack_positions_of(bin_pieces(tok_i, bin@.take(0))) =~= Seq::<u32>::empty());
            assert(bin@.skip(0) =~= bin@);
            assert forall|x: usize|
                x <= pack_size implies count_eq(bin@.skip(0), x) + count_in_bins(
                    bins.skip(i as int + 1),
                    x,
                ) <= ifile_handles.tokens()[x as int].len() by {
                lemma_count_in_bins_skip(bins, i as int, x);
            }
        }
        let mut j: usize = 0;
        while j < m
            invariant
                j <= m,
                m == bin@.len(),
                cap == pack_size as int,
                pack_size <= u32::MAX,
                bin@ == bins[i as int],
                (i as int) < bins.len(),
                forall|j2: int| 0 <= j2 < bin@.len() ==> (#[trigger] bin@[j2]) <= pack_size,
                ifile_handles.wf(cap),
                ifile_handles.tokens() == pool_after_bin(tok_i, bin@.take(j as int)),
                forall|x: usize|
                    x <= pack_size ==> count_eq(bin@.skip(j as int), x) + count_in_bins(
                        bins.skip(i as int + 1),
                        x,
                    ) <= ifile_handles.tokens()[x as int].len(),
                buf_tokens@ == bin_pieces(tok_i, bin@.take(j as int)).flatten(),
                buf_positions@ == pack_positions_of(bin_pieces(tok_i, bin@.take(j as int))),
                buf_positions@.len() == buf_tokens@.len(),
            decreases m - j,
        {
            let l = bin[j];
            proof {
                lemma_count_eq_skip(bin@, j as int, l);
                assert(count_eq(bin@.skip(j as int), l) >= 1);
                assert(ifile_handles.tokens()[l as int].len() >= 1);
                assert(ifile_handles.input_ids@[l as int]@.len() >= 1);
            }
            let ghost cur = ifile_handles.tokens();
            let mut piece = ifile_handles.input_ids[l].pop().unwrap();
            let mut ppiece = ifile_handles.position_ids[l].pop().unwrap();
            let ghost piece0 = piece;
            let ghost ppiece0 = ppiece;
            buf_tokens.append(&mut piece);
            buf_positions.append(&mut ppiece);
            proof {
                // the pool lost exactly the popped entry of bucket `l`
                assert(ifile_handles.tokens() =~~= pool_pop(cur, l as int));
                lemma_bin_pieces_push(tok_i, bin@.take(j as int), l);
                assert(bin@.take(j as int).push(l) =~= bin@.take(j as int + 1));
                // the popped piece is the newest entry of bucket `l`
                assert(piece0.deep_view() =~= piece0@);
                assert(piece0.deep_view() == cur[l as int].last());
                assert(piece0@.len() == l);
                assert(ppiece0@ == pos_seq(l as int));
                let pcs_j = bin_pieces(tok_i, bin@.take(j as int));
                let pcs_j1 = bin_pieces(tok_i, bin@.take(j as int + 1));
                assert(pcs_j1 == pcs_j.push(piece0@));
                pcs_j.lemma_flatten_push(piece0@);
                assert(buf_tokens@ == pcs_j1.flatten());
                // positions: one fresh counter per piece
                assert(Seq::new(pcs_j1.len(), |k: int| pos_seq(pcs_j1[k].len() as int)) =~= Seq::new(
                    pcs_j.len(),
                    |k: int| pos_seq(pcs_j[k].len() as int),
                ).push(pos_seq(l as int)));
                Seq::new(pcs_j.len(), |k: int| pos_seq(pcs_j[k].len() as int)).lemma_flatten_push(
                    pos_seq(l as int),
                );
                assert(buf_positions@ == pack_positions_of(pcs_j1));
                // one unit of demand for `l` was served
                assert forall|x: usize|
                    x <= pack_size implies count_eq(bin@.skip(j as int + 1), x) + count_in_bins(
                        bins.skip(i as int + 1),
                        x,
                    ) <= ifile_handles.tokens()[x as int].len() by {
                    lemma_count_eq_skip(bin@, j as int, x);
                    if x == l {
                    } else {
                        assert(ifile_handles.tokens()[x as int] == cur[x as int]);
                    }
                }
            }
            j = j + 1;
        }
        proof {
            assert(bin@.take(m as int) =~= bin@);
            assert(pieces_i == bin_pieces(tok_i, bin@));
            assert(bin@.skip(m as int) =~= Seq::<usize>::empty());
            assert forall|x: usize|
                x <= pack_size implies count_in_bins(bins.skip(i as int + 1), x)
                    <= ifile_handles.tokens()[x as int].len() by {
                assert(count_eq(bin@.skip(m as int), x) + count_in_bins(bins.skip(i as int + 1), x)
                    <= ifile_handles.tokens()[x as int].len());
                assert(count_eq(bin@.skip(m as int), x) == 0);
            }
        }
        let ghost rawt = buf_tokens@;
        let ghost rawp = buf_positions@;
        if buf_tokens.len() > pack_size {
            buf_tokens.truncate(pack_size);
            buf_positions.truncate(pack_size);
            proof {
                assert(buf_tokens@ =~= finalize_tokens(rawt, pad_id, cap));
                assert(buf_positions@ =~= finalize_positions(rawp, pad_id, cap));
            }
        } else if let Some(p) = pad_id {
            proof {
                assert(buf_tokens@ =~= rawt + Seq::new(
                    (buf_tokens@.len() - rawt.len()) as nat,
                    |k: int| p,
                ));
                assert(buf_positions@ =~= rawp + Seq::new(
                    (buf_positions@.len() - rawp.len()) as nat,
                    |k: int| 0u32,
                ));
            }
            while buf_tokens.len() < pack_size
                invariant
                    rawt.len() <= buf_tokens@.len() <= pack_size,
                    rawp.len() == rawt.len(),
                    buf_positions@.len() == buf_tokens@.len(),
                    pad_id == Some(p),
                    buf_tokens@ == rawt + Seq::new(
                        (buf_tokens@.len() - rawt.len()) as nat,
                        |k: int| p,
                    ),
                    buf_positions@ == rawp + Seq::new(
                        (buf_positions@.len() - rawp.len()) as nat,
                        |k: int| 0u32,
                    ),
                decreases pack_size - buf_tokens@.len(),
            {
                buf_tokens.push(p);
                buf_positions.push(0);
                proof {
                    assert(buf_tokens@ =~= rawt + Seq::new(
                        (buf_tokens@.len() - rawt.len()) as nat,
                        |k: int| p,
                    ));
                    assert(buf_positions@ =~= rawp + Seq::new(
                        (buf_positions@.len() - rawp.len()) as nat,
                        |k: int| 0u32,
                    ));
                }
            }
            proof {
                assert(buf_tokens@ =~= finalize_tokens(rawt, pad_id, cap));
                assert(buf_positions@ =~= finalize_positions(rawp, pad_id, cap));
            }
        } else {
            proof {
                assert(buf_tokens@ =~= finalize_tokens(rawt, pad_id, cap));
                assert(buf_positions@ =~= finalize_positions(rawp, pad_id, cap));
            }
        }
        let ghost out_t0 = out_tokens@;
        let ghost out_p0 = out_positions@;
        out_tokens.push(buf_tokens);
        out_positions.push(buf_positions);
        proof {
            lemma_all_bin_pieces_push(tok0, bins.take(i as int), bins[i as int]);
            lemma_all_bin_pieces_len(tok0, bins.take(i as int));
            assert(bins.take(i as int).push(bins[i as int]) =~= bins.take(i as int + 1));
            let pieces_upto = all_bin_pieces(tok0, bins.take(i as int + 1));
            assert(pieces_upto == all_bin_pieces(tok0, bins.take(i as int)).push(pieces_i));
            assert forall|k: int|
                0 <= k < i + 1 implies (#[trigger] out_tokens@[k])@ == finalize_tokens(
                    pieces_upto[k].flatten(),
                    pad_id,
                    cap,
                ) by {
                if k < i {
                    assert(out_tokens@[k] == out_t0[k]);
                    assert(pieces_upto[k] == all_bin_pieces(tok0, bins.take(i as int))[k]);
                }
            }
            assert forall|k: int|
                0 <= k < i + 1 implies (#[trigger] out_positions@[k])@ == finalize_positions(
                    pack_positions_of(pieces_upto[k]),
                    pad_id,
                    cap,
                ) by {
                if k < i {
                    assert(out_positions@[k] == out_p0[k]);
                    assert(pieces_upto[k] == all_bin_pieces(tok0, bins.take(i as int))[k]);
                }
            }
        }
        i = i + 1;
    }
    proof {
        assert(bins.take(n as int) =~= bins);
        assert(bins.skip(n as int) =~= Seq::<Seq<usize>>::empty());
        lemma_all_bin_pieces_len(tok0, bins);
    }
    (out_tokens, out_positions)
}

/// What `fill_packing_strategy` returns, for some pool drawn from the
/// histogram: the output layout selected by `return_format`, computed
/// from that pool.
pub open spec fn fill_post(
    r: ReturnFormat,
    sequences: Histogram,
    bins: Seq<Seq<usize>>,
    pack_size: usize,
    pad_id: Option<u32>,
    return_format: ReturnFormat,
    options: Option<NemoOptions>,
    pool: Seq<Seq<Seq<u32>>>,
) -> bool {
    &&& pool_matches_hist(pool, sequences, pack_size as int)
    &&& (return_format is Composer ==> (r matches ReturnFormat::Composer(out)
        && composer_output_ok(out, pool, bins, pad_id, pack_size as int)))
    &&& (return_format is Nemo ==> (r matches ReturnFormat::Nemo(out) && nemo_output_ok(
        out,
        pool,
        bins,
        options.unwrap(),
        pad_id,
    )))
    &&& (return_format is Iterator ==> (r matches ReturnFormat::Iterator(it)
        && iterator_output_ok(it, pool, bins, pad_id, pack_size as int)))
}

/// Build the sequence pool from the histogram and dispatch to the
/// selected output layout. The demand bound in the preconditions is what
/// rules out popping from an exhausted length bucket: an assignment
/// derived from the histogram's own counts meets it by construction.
pub fn fill_packing_strategy(
    assignments: Vec<Vec<usize>>,
    sequences: Histogram,
    pack_size: usize,
    pad_id: Option<u32>,
    return_format: ReturnFormat,
    options: Option<NemoOptions>,
) -> (r: ReturnFormat)
    requires
        sequences.wf(pack_size as int),
        pack_size <= u32::MAX,
        pack_size < usize::MAX,
        forall|i: int, j: int|
            0 <= i < assignments.deep_view().len() && 0 <= j < assignments.deep_view()[i].len()
                ==> (#[trigger] assignments.deep_view()[i][j]) <= pack_size,
        forall|x: usize|
            x <= pack_size ==> count_in_bins(assignments.deep_view(), x)
                <= sequences.buckets@[x as int]@.len(),
        return_format is Nemo ==> options is Some && options.unwrap().wf(),
        return_format is Nemo ==> forall|i: int|
            0 <= i < assignments.deep_view().len() ==> seq_sum(
                #[trigger] assignments.deep_view()[i],
            ) <= pack_size,
        return_format is Nemo && !options.unwrap().answer_loss_only ==> forall|i: int, j: int|
            0 <= i < assignments.deep_view().len() && 0 <= j < assignments.deep_view()[i].len()
                ==> (#[trigger] assignments.deep_view()[i][j]) > 0,
    ensures
        exists|pool: Seq<Seq<Seq<u32>>>|
            #[trigger] fill_post(
                r,
                sequences,
                assignments.deep_view(),
                pack_size,
                pad_id,
                return_format,
                options,
                pool,
            ),
{
    let ghost bins = assignments.deep_view();
    let mut ifile_handles = SequencePool { input_ids: Vec::new(), position_ids: Vec::new() };
    populate_ifile_handles(&mut ifile_handles, &sequences, &pack_size);
    let ghost pool = ifile_handles.tokens();
    proof {
        broadcast use vstd::seq_lib::group_to_multiset_ensures;

        assert forall|x: usize|
            x <= pack_size implies count_in_bins(bins, x) <= pool[x as int].len() by {
            assert(pool[x as int].to_multiset() == sequences.buckets@[
                x as int
            ].deep_view().to_multiset());
            assert(pool[x as int].to_multiset().len() == pool[x as int].len());
            assert(sequences.buckets@[x as int].deep_view().to_multiset().len()
                == sequences.buckets@[x as int].deep_view().len());
        }
        assert(pool_covers(pool, bins, pack_size as int));
    }
    let r = match return_format {
        ReturnFormat::Nemo(_) => {
            let opts = options.unwrap();
            nemo_packing_strategy(&mut ifile_handles, assignments, opts, pad_id)
        },
        ReturnFormat::Composer(_) => composer_packing_strategy(
            &mut ifile_handles,
            assignments,
            pack_size,
            pad_id,
        ),
        ReturnFormat::Iterator(_) => iterator_packing_strategy(
            &mut ifile_handles,
            assignments,
            pack_size,
            pad_id,
        ),
    };
    proof {
        assert(fill_post(
            r,
            sequences,
            bins,
            pack_size,
            pad_id,
            return_format,
            options,
            pool,
        ));
    }
    r
}

/// The multiset of sequences a pool holds, over all buckets.
pub open spec fn pool_ms(pool: Seq<Seq<Seq<u32>>>) -> Multiset<Seq<u32>>
    decreases pool.len(),
{
    if pool.len() == 0 {
        Multiset::empty()
    } else {
        pool_ms(pool.drop_last()).add(pool.last().to_multiset())
    }
}

/// The multiset of pieces over all packs.
pub open spec fn pieces_ms(pieces: Seq<Seq<Seq<u32>>>) -> Multiset<Seq<u32>>
    decreases pieces.len(),
{
    if pieces.len() == 0 {
        Multiset::empty()
    } else {
        pieces_ms(pieces.drop_last()).add(pieces.last().to_multiset())
    }
}

pub proof fn lemma_pool_ms_update(pool: Seq<Seq<Seq<u32>>>, l: int, nb: Seq<Seq<u32>>)
    requires
        0 <= l < pool.len(),
    ensures
        pool_ms(pool.update(l, nb)).add(pool[l].to_multiset()) =~= pool_ms(pool).add(
            nb.to_multiset(),
        ),
    decreases pool.len(),
{
    broadcast use vstd::multiset::group_multiset_axioms;
    broadcast use vstd::multiset::group_multiset_properties;

    let upd = pool.update(l, nb);
    if l == pool.len() - 1 {
        assert(upd.drop_last() =~= pool.drop_last());
        assert(upd.last() == nb);
        assert(pool_ms(upd) == pool_ms(pool.drop_last()).add(nb.to_multiset()));
        assert(pool_ms(pool) == pool_ms(pool.drop_last()).add(pool.last().to_multiset()));
        assert(pool.last() == pool[l]);
        assert forall|e: Seq<u32>|
            pool_ms(upd).add(pool[l].to_multiset()).count(e) == pool_ms(pool).add(
                nb.to_multiset(),
            ).count(e) by {}
    } else {
        assert(upd.drop_last() =~= pool.drop_last().update(l, nb));
        assert(upd.last() == pool.last());
        lemma_pool_ms_update(pool.drop_last(), l, nb);
        assert(pool_ms(upd) == pool_ms(pool.drop_last().update(l, nb)).add(
            pool.last().to_multiset(),
        ));
        assert(pool_ms(pool.drop_last().update(l, nb)).add(pool.drop_last()[l].to_multiset())
            == pool_ms(pool.drop_last()).add(nb.to_multiset()));
        assert(pool.drop_last()[l] == pool[l]);
        assert forall|e: Seq<u32>|
            pool_ms(upd).add(pool[l].to_multiset()).count(e) == pool_ms(pool).add(
                nb.to_multiset(),
            ).count(e) by {
            assert(pool_ms(pool.drop_last().update(l, nb)).add(
                pool.drop_last()[l].to_multiset(),
            ).count(e) == pool_ms(pool.drop_last()).add(nb.to_multiset()).count(e));
            assert(pool_ms(pool.drop_last().update(l, nb)).count(e) + pool.drop_last()[
                l
            ].to_multiset().count(e) == pool_ms(pool.drop_last()).count(e)
                + nb.to_multiset().count(e));
        }
    }
}

proof fn lemma_pool_pop_ms(pool: Seq<Seq<Seq<u32>>>, l: int)
    requires
        0 <= l < pool.len(),
        pool[l].len() > 0,
    ensures
        pool_ms(pool_pop(pool, l)).insert(pool[l].last()) =~= pool_ms(pool),
{
    broadcast use vstd::seq_lib::group_to_multiset_ensures;
    broadcast use vstd::multiset::group_multiset_axioms;
    broadcast use vstd::multiset::group_multiset_properties;

    let dl = pool[l].drop_last();
    let x = pool[l].last();
    lemma_pool_ms_update(pool, l, dl);
    assert(dl.push(x) =~= pool[l]);
    assert(pool[l].to_multiset() =~= dl.to_multiset().insert(x));
    assert forall|e: Seq<u32>|
        pool_ms(pool_pop(pool, l)).insert(x).count(e) == pool_ms(pool).count(e) by {
        assert(pool_ms(pool_pop(pool, l)).add(pool[l].to_multiset()).count(e) == pool_ms(
            pool,
        ).add(dl.to_multiset()).count(e));
        assert(pool[l].to_multiset().count(e) == dl.to_multiset().insert(x).count(e));
        assert(dl.to_multiset().insert(x).count(e) == dl.to_multiset().count(e)
            + Multiset::singleton(x).count(e));
        assert(pool_ms(pool_pop(pool, l)).insert(x).count(e) == pool_ms(pool_pop(pool, l)).count(e)
            + Multiset::singleton(x).count(e));
    }
}

pub proof fn lemma_pool_ms_all_empty(pool: Seq<Seq<Seq<u32>>>)
    requires
        forall|l: int| 0 <= l < pool.len() ==> (#[trigger] pool[l]).len() == 0,
    ensures
        pool_ms(pool) =~= Multiset::empty(),
    decreases pool.len(),
{
    broadcast use vstd::seq_lib::group_to_multiset_ensures;

    if pool.len() > 0 {
        lemma_pool_ms_all_empty(pool.drop_last());
        assert(pool.last() == pool[pool.len() - 1]);
        assert(pool.last().to_multiset().len() == 0);
    }
}

/// Bucket-wise multiset equality makes the whole pools' contents equal.
pub proof fn lemma_pool_ms_congruent(a: Seq<Seq<Seq<u32>>>, b: Seq<Seq<Seq<u32>>>)
    requires
        a.len() == b.len(),
        forall|l: int| 0 <= l < a.len() ==> (#[trigger] a[l]).to_multiset() == b[l].to_multiset(),
    ensures
        pool_ms(a) =~= pool_ms(b),
    decreases a.len(),
{
    if a.len() > 0 {
        lemma_pool_ms_congruent(a.drop_last(), b.drop_last());
        assert(a.last() == a[a.len() - 1]);
        assert(b.last() == b[b.len() - 1]);
    }
}

proof fn lemma_bin_conservation(pool: Seq<Seq<Seq<u32>>>, bin: Seq<usize>)
    requires
        forall|j: int| 0 <= j < bin.len() ==> (#[trigger] bin[j] as int) < pool.len(),
        forall|x: usize|
            (x as int) < pool.len() ==> count_eq(bin, x) <= (#[trigger] pool[x as int]).len(),
    ensures
        bin_pieces(pool, bin).to_multiset().add(pool_ms(pool_after_bin(pool, bin))) =~= pool_ms(
            pool,
        ),
        pool_after_bin(pool, bin).len() == pool.len(),
        forall|x: usize|
            (x as int) < pool.len() ==> (#[trigger] pool_after_bin(pool, bin)[x as int]).len()
                == pool[x as int].len() - count_eq(bin, x),
    decreases bin.len(),
{
    broadcast use vstd::seq_lib::group_to_multiset_ensures;

    if bin.len() == 0 {
        assert(bin_pieces(pool, bin).to_multiset().len() == 0);
        assert forall|x: usize|
            (x as int) < pool.len() implies (#[trigger] pool_after_bin(pool, bin)[x as int]).len()
                == pool[x as int].len() - count_eq(bin, x) by {
            assert(count_eq(bin, x) == 0);
        }
    } else {
        let l = bin[0];
        let rest = bin.drop_first();
        assert(bin =~= seq![l] + rest);
        assert forall|x: usize| (x as int) < pool.len() implies count_eq(bin, x) == count_eq(
            rest,
            x,
        ) + if l == x {
            1nat
        } else {
            0nat
        } by {
            crate::common::lemma_count_eq_add(seq![l], rest, x);
            crate::packing::lemma_count_eq_singleton(l, x);
        }
        assert(count_eq(bin, l) >= 1);
        assert(pool[l as int].len() >= 1);
        let popped = pool_pop(pool, l as int);
        assert(popped.len() == pool.len());
        assert forall|x: usize|
            (x as int) < popped.len() implies count_eq(rest, x) <= (#[trigger] popped[
                x as int
            ]).len() by {
            crate::common::lemma_count_eq_add(seq![l], rest, x);
            crate::packing::lemma_count_eq_singleton(l, x);
            if x != l {
                assert(popped[x as int] == pool[x as int]);
            }
        }
        lemma_bin_conservation(popped, rest);
        lemma_pool_pop_ms(pool, l as int);
        let head = seq![pool[l as int].last()];
        let tail = bin_pieces(popped, rest);
        assert(bin_pieces(pool, bin) == head + tail);
        vstd::seq_lib::lemma_multiset_commutative(head, tail);
        assert(head.to_multiset() =~= Multiset::empty().insert(pool[l as int].last())) by {
            assert(head =~= Seq::<Seq<u32>>::empty().push(pool[l as int].last()));
        }
        assert forall|x: usize|
            (x as int) < pool.len() implies (#[trigger] pool_after_bin(pool, bin)[x as int]).len()
                == pool[x as int].len() - count_eq(bin, x) by {
            assert(pool_after_bin(pool, bin) == pool_after_bin(popped, rest));
            if x != l {
                assert(popped[x as int] == pool[x as int]);
            }
        }
    }
}

proof fn lemma_fill_conservation(pool: Seq<Seq<Seq<u32>>>, bins: Seq<Seq<usize>>)
    requires
        forall|i: int, j: int|
            0 <= i < bins.len() && 0 <= j < bins[i].len() ==> (#[trigger] bins[i][j] as int)
                < pool.len(),
        forall|x: usize|
            (x as int) < pool.len() ==> count_in_bins(bins, x) <= (#[trigger] pool[
                x as int
            ]).len(),
    ensures
        pieces_ms(all_bin_pieces(pool, bins)).add(pool_ms(pool_after_bins(pool, bins))) =~= pool_ms(
            pool,
        ),
        pool_after_bins(pool, bins).len() == pool.len(),
        forall|x: usize|
            (x as int) < pool.len() ==> (#[trigger] pool_after_bins(pool, bins)[x as int]).len()
                == pool[x as int].len() - count_in_bins(bins, x),
    decreases bins.len(),
{
    if bins.len() == 0 {
        assert forall|x: usize|
            (x as int) < pool.len() implies (#[trigger] pool_after_bins(pool, bins)[x as int]).len()
                == pool[x as int].len() - count_in_bins(bins, x) by {
            assert(count_in_bins(bins, x) == 0);
        }
    } else {
        let b = bins[0];
        let rest = bins.drop_first();
        assert(bins =~= seq![b] + rest);
        assert forall|x: usize| (x as int) < pool.len() implies count_in_bins(bins, x) == count_eq(
            b,
            x,
        ) + count_in_bins(rest, x) by {
            crate::packing::lemma_count_in_bins_concat(seq![b], rest, x);
            reveal_with_fuel(count_in_bins, 2);
            assert(seq![b].drop_last() =~= Seq::<Seq<usize>>::empty());
            assert(seq![b].last() == b);
        }
        assert forall|x: usize|
            (x as int) < pool.len() implies count_eq(b, x) <= (#[trigger] pool[x as int]).len() by {
        }
        lemma_bin_conservation(pool, b);
        let after_b = pool_after_bin(pool, b);
        assert forall|x: usize|
            (x as int) < after_b.len() implies count_in_bins(rest, x) <= (#[trigger] after_b[
                x as int
            ]).len() by {
            assert(after_b[x as int].len() == pool[x as int].len() - count_eq(b, x));
        }
        lemma_fill_conservation(after_b, rest);
        let head = seq![bin_pieces(pool, b)];
        let tail = all_bin_pieces(after_b, rest);
        assert(all_bin_pieces(pool, bins) == head + tail);
        assert(pieces_ms(head + tail) =~= bin_pieces(pool, b).to_multiset().add(pieces_ms(tail)))
            by {
            lemma_pieces_ms_cons(bin_pieces(pool, b), tail);
        }
        assert forall|x: usize|
            (x as int) < pool.len() implies (#[trigger] pool_after_bins(pool, bins)[x as int]).len()
                == pool[x as int].len() - count_in_bins(bins, x) by {
            assert(pool_after_bins(pool, bins) == pool_after_bins(after_b, rest));
        }
    }
}

proof fn lemma_pieces_ms_cons(h: Seq<Seq<u32>>, tail: Seq<Seq<Seq<u32>>>)
    ensures
        pieces_ms(seq![h] + tail) =~= h.to_multiset().add(pieces_ms(tail)),
    decreases tail.len(),
{
    if tail.len() == 0 {
        assert(seq![h] + tail =~= seq![h]);
        assert(seq![h].drop_last() =~= Seq::<Seq<Seq<u32>>>::empty());
        assert(seq![h].last() == h);
        reveal_with_fuel(pieces_ms, 2);
    } else {
        lemma_pieces_ms_cons(h, tail.drop_last());
        assert((seq![h] + tail).drop_last() =~= seq![h] + tail.drop_last());
        assert((seq![h] + tail).last() == tail.last());
    }
}

/// The round trip of the fill step: when the assignment demands of each
/// length exactly as many pieces as the pool holds, the packs' pieces
/// are, as a multiset, exactly the pool's sequences - nothing is lost and
/// nothing is duplicated, and the pool drains completely.
pub proof fn lemma_fill_round_trip(pool: Seq<Seq<Seq<u32>>>, bins: Seq<Seq<usize>>, cap: int)
    requires
        0 <= cap <= usize::MAX,
        pool.len() == cap + 1,
        forall|i: int, j: int|
            0 <= i < bins.len() && 0 <= j < bins[i].len() ==> (#[trigger] bins[i][j]) <= cap,
        forall|x: usize|
            x <= cap ==> count_in_bins(bins, x) == (#[trigger] pool[x as int]).len(),
    ensures
        pieces_ms(all_bin_pieces(pool, bins)) =~= pool_ms(pool),
        forall|l: int| 0 <= l < pool.len() ==> (#[trigger] pool_after_bins(pool, bins)[l]).len() == 0,
{
    lemma_fill_conservation(pool, bins);
    assert forall|l: int|
        0 <= l < pool.len() implies (#[trigger] pool_after_bins(pool, bins)[l]).len() == 0 by {
        let x = l as usize;
        assert(x as int == l);
        assert(pool_after_bins(pool, bins)[x as int].len() == pool[x as int].len() - count_in_bins(
            bins,
            x,
        ));
    }
    lemma_pool_ms_all_empty(pool_after_bins(pool, bins));
    assert(pieces_ms(all_bin_pieces(pool, bins)).add(Multiset::empty()) =~= pieces_ms(
        all_bin_pieces(pool, bins),
    ));
}

/// Padding and truncation are mutually exclusive per pack: a buffer over
/// the capacity is cut to exactly the capacity and nothing is appended to
/// it, while a buffer within the capacity keeps every one of its tokens
/// and is only ever extended (and only when a pad id is configured).
pub proof fn lemma_pad_truncate_exclusive(raw: Seq<u32>, pad: Option<u32>, cap: int)
    requires
        0 <= cap,
    ensures
        raw.len() > cap ==> finalize_tokens(raw, pad, cap) == raw.take(cap)
            && finalize_tokens(raw, pad, cap).len() == cap,
        raw.len() <= cap ==> finalize_tokens(raw, pad, cap).take(raw.len() as int) == raw,
        raw.len() <= cap && pad is Some ==> finalize_tokens(raw, pad, cap).len() == cap
            && forall|i: int|
            raw.len() <= i < cap ==> finalize_tokens(raw, pad, cap)[i] == pad.unwrap(),
        raw.len() <= cap && pad is None ==> finalize_tokens(raw, pad, cap) == raw,
{
    if raw.len() <= cap {
        assert(finalize_tokens(raw, pad, cap).take(raw.len() as int) =~= raw);
    }
}

} // verus!
