//! Packing of variable-length token sequences into fixed-capacity packs
//! for batch training: a length histogram groups the sequences, a
//! first-fit family of bin-packing algorithms assigns lengths to packs,
//! and a fill stage materializes the packs in one of several output
//! layouts.

#![allow(unused_imports)]

use vstd::prelude::*;

pub mod common;
pub mod packing;
pub mod strategy;

pub use common::{Histogram, LossMask, PackError, Sequence};
pub use strategy::iterator::{PackRecord, ReturnIter};
pub use strategy::nemo::{NemoOptions, NemoOptionsBuilder};

use common::{ascii_lower, eq_lower};

verus! {

/// The packed output, in one of the three framework layouts.
pub enum ReturnFormat {
    Composer(ComposerOutput),
    // Nemo carries parallel per-pack lists as well, but different entries
    Nemo(NemoOutput),
    Iterator(ReturnIter),
}

/// The two value shapes among the Nemo layout's keyed entries.
pub enum NemoFormat {
    LossMask(Vec<LossMask>),
    Tokens(Vec<Sequence>),
}

/// The composer layout: per pack, the packed tokens and their position
/// ids, as two parallel lists indexed by pack.
pub struct ComposerOutput {
    pub tokens: Vec<Sequence>,
    pub positions_ids: Vec<Sequence>,
}

/// The Nemo layout: per pack, the packed tokens, the per-token loss mask,
/// and the offsets at which sub-sequences after the first begin.
pub struct NemoOutput {
    pub input_ids: Vec<Sequence>,
    pub loss_mask: Vec<LossMask>,
    pub seq_start_id: Vec<Sequence>,
}

impl NemoOutput {
    /// The layout's keyed entries, in a fixed order: `input_ids`,
    /// `loss_mask`, `seq_start_id`.
    pub fn entries(self) -> (r: Vec<(String, NemoFormat)>)
        ensures
            r@.len() == 3,
            r@[0].0@ == "input_ids"@,
            r@[1].0@ == "loss_mask"@,
            r@[2].0@ == "seq_start_id"@,
            r@[0].1 == NemoFormat::Tokens(self.input_ids),
            r@[1].1 == NemoFormat::LossMask(self.loss_mask),
            r@[2].1 == NemoFormat::Tokens(self.seq_start_id),
    {
        let mut r: Vec<(String, NemoFormat)> = Vec::new();
        r.push(("input_ids".to_owned(), NemoFormat::Tokens(self.input_ids)));
        r.push(("loss_mask".to_owned(), NemoFormat::LossMask(self.loss_mask)));
        r.push(("seq_start_id".to_owned(), NemoFormat::Tokens(self.seq_start_id)));
        r
    }
}

impl ReturnFormat {
    /// Parse the format selector, one of `nemo`, `composer`, `iterator`,
    /// ignoring ASCII case; the payload starts empty.
    pub fn from_str(s: &str) -> (r: Result<ReturnFormat, PackError>)
        ensures
            ascii_lower(s@) == "nemo"@ ==> (r matches Ok(f) && f matches ReturnFormat::Nemo(out)
                && out.input_ids@.len() == 0 && out.loss_mask@.len() == 0
                && out.seq_start_id@.len() == 0),
            ascii_lower(s@) == "composer"@ ==> (r matches Ok(f) && f matches
                ReturnFormat::Composer(out) && out.tokens@.len() == 0 && out.positions_ids@.len()
                == 0),
            ascii_lower(s@) == "iterator"@ ==> (r matches Ok(f) && f matches
                ReturnFormat::Iterator(it) && it.records@.len() == 0 && it.cursor == 0),
            (ascii_lower(s@) != "nemo"@ && ascii_lower(s@) != "composer"@ && ascii_lower(s@)
                != "iterator"@) ==> r == Err::<ReturnFormat, PackError>(PackError::InvalidFormat),
    {
        proof {
            broadcast use vstd::string::group_string_axioms;

            reveal_strlit("nemo");
            reveal_strlit("composer");
            reveal_strlit("iterator");
            assert("nemo"@.len() == 4);
            assert("composer"@.len() == 8);
            assert("iterator"@.len() == 8);
            assert("composer"@[0] == 'c');
            assert("iterator"@[0] == 'i');
        }
        if eq_lower(s, "nemo") {
            Ok(ReturnFormat::Nemo(NemoOutput {
                input_ids: Vec::new(),
                loss_mask: Vec::new(),
                seq_start_id: Vec::new(),
            }))
        } else if eq_lower(s, "composer") {
            Ok(ReturnFormat::Composer(ComposerOutput {
                tokens: Vec::new(),
                positions_ids: Vec::new(),
            }))
        } else if eq_lower(s, "iterator") {
            Ok(ReturnFormat::Iterator(ReturnIter { records: Vec::new(), cursor: 0 }))
        } else {
            Err(PackError::InvalidFormat)
        }
    }
}

/// All sequences of the dataset, in field order and, within a field, list
/// order.
pub open spec fn dataset_seqs(d: Seq<(String, Vec<Sequence>)>) -> Seq<Seq<u32>>
    decreases d.len(),
{
    if d.len() == 0 {
        Seq::empty()
    } else {
        dataset_seqs(d.drop_last()) + d.last().1.deep_view()
    }
}

/// Group the sequences by length, keeping input order inside each bucket;
/// a sequence longer than the capacity is left out (the builder rejects
/// the whole call before that can matter).
pub open spec fn bucketize(seqs: Seq<Seq<u32>>, cap: int) -> Seq<Seq<Seq<u32>>>
    decreases seqs.len(),
{
    if seqs.len() == 0 {
        Seq::new((cap + 1) as nat, |l: int| Seq::<Seq<u32>>::empty())
    } else {
        let prev = bucketize(seqs.drop_last(), cap);
        let s = seqs.last();
        if s.len() <= cap {
            prev.update(s.len() as int, prev[s.len() as int].push(s))
        } else {
            prev
        }
    }
}

/// The failure one field contributes: a nonempty field not named
/// `input_ids` lacks the primary field in every one of its records, and a
/// sequence longer than the capacity must be rejected rather than
/// silently truncated.
pub open spec fn pair_err(p: (String, Vec<Sequence>), cap: int) -> Option<PackError> {
    if p.1@.len() == 0 {
        None
    } else if p.0@ != "input_ids"@ {
        Some(PackError::MissingRequiredField)
    } else if exists|k: int| 0 <= k < p.1@.len() && (#[trigger] p.1@[k])@.len() > cap {
        Some(PackError::LengthExceeded)
    } else {
        None
    }
}

/// The first failure a scan of the dataset meets, field by field.
pub open spec fn hist_err(d: Seq<(String, Vec<Sequence>)>, cap: int) -> Option<PackError>
    decreases d.len(),
{
    if d.len() == 0 {
        None
    } else {
        match pair_err(d.first(), cap) {
            Some(e) => Some(e),
            None => hist_err(d.drop_first(), cap),
        }
    }
}

proof fn lemma_hist_err_skip(d: Seq<(String, Vec<Sequence>)>, i: int, cap: int)
    requires
        0 <= i <= d.len(),
        forall|k: int| 0 <= k < i ==> pair_err(#[trigger] d[k], cap) is None,
    ensures
        hist_err(d, cap) == hist_err(d.skip(i), cap),
    decreases i,
{
    if i > 0 {
        lemma_hist_err_skip(d, i - 1, cap);
        let t = d.skip(i - 1);
        assert(t.first() == d[i - 1]);
        assert(t.drop_first() =~= d.skip(i));
    } else {
        assert(d.skip(0) =~= d);
    }
}

/// Facts about the shape of `bucketize`: one bucket per length, each
/// holding only sequences of its own length.
pub proof fn lemma_bucketize_shape(seqs: Seq<Seq<u32>>, cap: int)
    requires
        cap >= 0,
    ensures
        bucketize(seqs, cap).len() == cap + 1,
        forall|l: int, k: int|
            0 <= l <= cap && 0 <= k < bucketize(seqs, cap)[l].len() ==> (#[trigger] bucketize(
                seqs,
                cap,
            )[l][k]).len() == l,
    decreases seqs.len(),
{
    if seqs.len() > 0 {
        lemma_bucketize_shape(seqs.drop_last(), cap);
    }
}

/// A length no sequence has leaves its bucket empty.
pub proof fn lemma_bucketize_absent(seqs: Seq<Seq<u32>>, cap: int, l: int)
    requires
        0 <= l <= cap,
        forall|k: int| 0 <= k < seqs.len() ==> (#[trigger] seqs[k]).len() != l,
    ensures
        bucketize(seqs, cap)[l].len() == 0,
    decreases seqs.len(),
{
    if seqs.len() > 0 {
        assert(seqs.last() == seqs[seqs.len() - 1]);
        assert(forall|k: int|
            0 <= k < seqs.drop_last().len() ==> (#[trigger] seqs.drop_last()[k]).len() != l);
        lemma_bucketize_shape(seqs.drop_last(), cap);
        lemma_bucketize_absent(seqs.drop_last(), cap, l);
    }
}

/// Build the length histogram: group the dataset's sequences by length
/// and count them per length. Rejects the call with `LengthExceeded` when
/// any sequence is longer than the capacity, and with
/// `MissingRequiredField` when a record lacks the primary `input_ids`
/// field.
pub fn create_hist(dataset: &Vec<(String, Vec<Sequence>)>, truncate_seq_len: usize) -> (r: Result<
    (Histogram, Vec<usize>),
    PackError,
>)
    requires
        truncate_seq_len < usize::MAX,
    ensures
        match r {
            Ok(hc) => {
                &&& hist_err(dataset@, truncate_seq_len as int) is None
                &&& hc.0.wf(truncate_seq_len as int)
                &&& hc.0.buckets.deep_view() == bucketize(
                    dataset_seqs(dataset@),
                    truncate_seq_len as int,
                )
                &&& hc.1@.len() == truncate_seq_len + 1
                &&& forall|l: int|
                    0 <= l <= truncate_seq_len ==> hc.1@[l] == hc.0.buckets@[l]@.len()
            },
            Err(e) => hist_err(dataset@, truncate_seq_len as int) == Some(e),
        },
{
    let ghost cap = truncate_seq_len as int;
    let mut buckets: Vec<Vec<Sequence>> = Vec::new();
    let mut ci: usize = 0;
    while ci <= truncate_seq_len
        invariant
            truncate_seq_len < usize::MAX,
            ci <= truncate_seq_len + 1,
            buckets@.len() == ci,
            forall|l: int| 0 <= l < ci ==> buckets@[l]@.len() == 0,
        decreases truncate_seq_len + 1 - ci,
    {
        buckets.push(Vec::new());
        ci = ci + 1;
    }
    proof {
        assert(dataset@.take(0) =~= Seq::<(String, Vec<Sequence>)>::empty());
        assert(buckets.deep_view() =~~= bucketize(dataset_seqs(dataset@.take(0)), cap));
    }
    let n = dataset.len();
    let mut i: usize = 0;
    while i < n
        invariant
            i <= n,
            n == dataset@.len(),
            cap == truncate_seq_len as int,
            truncate_seq_len < usize::MAX,
            buckets@.len() == cap + 1,
            forall|k: int| 0 <= k < i ==> pair_err(#[trigger] dataset@[k], cap) is None,
            buckets.deep_view() == bucketize(dataset_seqs(dataset@.take(i as int)), cap),
            forall|l: int, k: int|
                0 <= l <= cap && 0 <= k < buckets@[l]@.len() ==> (#[trigger] buckets@[l]@[k])@.len()
                    == l,
        decreases n - i,
    {
        let pair = &dataset[i];
        let m = pair.1.len();
        if m > 0 {
            if !common::str_eq(pair.0.as_str(), "input_ids") {
                proof {
                    lemma_hist_err_skip(dataset@, i as int, cap);
                    assert(dataset@.skip(i as int).first() == dataset@[i as int]);
                    assert(pair_err(dataset@[i as int], cap) == Some(
                        PackError::MissingRequiredField,
                    ));
                }
                return Err(PackError::MissingRequiredField);
            }
        }
        let ghost seqs_i = dataset_seqs(dataset@.take(i as int));
        let mut j: usize = 0;
        while j < m
            invariant
                j <= m,
                m == pair.1@.len(),
                pair == dataset@[i as int],
                (i as int) < dataset@.len(),
                cap == truncate_seq_len as int,
                seqs_i == dataset_seqs(dataset@.take(i as int)),
                buckets@.len() == cap + 1,
                forall|k: int| 0 <= k < i ==> pair_err(#[trigger] dataset@[k], cap) is None,
                m > 0 ==> pair.0@ == "input_ids"@,
                forall|k: int| 0 <= k < j ==> (#[trigger] pair.1@[k])@.len() <= cap,
                buckets.deep_view() == bucketize(seqs_i + pair.1.deep_view().take(j as int), cap),
                forall|l: int, k: int|
                    0 <= l <= cap && 0 <= k < buckets@[l]@.len()
                        ==> (#[trigger] buckets@[l]@[k])@.len() == l,
            decreases m - j,
        {
            let seq = &pair.1[j];
            let sl = seq.len();
            if sl > truncate_seq_len {
                proof {
                    lemma_hist_err_skip(dataset@, i as int, cap);
                    assert(dataset@.skip(i as int).first() == dataset@[i as int]);
                    assert(dataset@[i as int].1@[j as int]@.len() > cap);
                    assert(pair_err(dataset@[i as int], cap) == Some(PackError::LengthExceeded));
                }
                return Err(PackError::LengthExceeded);
            }
            let ghost b0 = buckets.deep_view();
            let ghost prefix = seqs_i + pair.1.deep_view().take(j as int);
            buckets[sl].push(seq.clone());
            proof {
                let sv = dataset@[i as int].1@[j as int].deep_view();
                assert(sv =~= seq@);
                let prefix1 = seqs_i + pair.1.deep_view().take(j as int + 1);
                assert(prefix1.drop_last() =~= prefix);
                assert(prefix1.last() == sv);
                assert(buckets.deep_view() =~~= bucketize(prefix1, cap));
            }
            j = j + 1;
        }
        proof {
            assert(pair.1.deep_view().take(m as int) =~= pair.1.deep_view());
            assert(pair_err(dataset@[i as int], cap) is None);
            assert(dataset@.take(i as int + 1).drop_last() =~= dataset@.take(i as int));
            assert(dataset@.take(i as int + 1).last() == dataset@[i as int]);
            assert(dataset_seqs(dataset@.take(i as int + 1)) == seqs_i + pair.1.deep_view());
        }
        i = i + 1;
    }
    let mut seq_lens: Vec<usize> = Vec::new();
    let mut l: usize = 0;
    while l <= truncate_seq_len
        invariant
            truncate_seq_len < usize::MAX,
            l <= truncate_seq_len + 1,
            buckets@.len() == truncate_seq_len + 1,
            seq_lens@.len() == l,
            forall|l2: int| 0 <= l2 < l ==> seq_lens@[l2] == buckets@[l2]@.len(),
        decreases truncate_seq_len + 1 - l,
    {
        seq_lens.push(buckets[l].len());
        l = l + 1;
    }
    proof {
        assert(dataset@.take(n as int) =~= dataset@);
        assert(dataset@.skip(n as int) =~= Seq::<(String, Vec<Sequence>)>::empty());
        lemma_hist_err_skip(dataset@, n as int, cap);
    }
    Ok((Histogram { buckets }, seq_lens))
}

/// The length multiset as a flat list: length `l` appears `counts[l]`
/// times, lengths in ascending order.
pub open spec fn expand_counts(counts: Seq<usize>) -> Seq<usize>
    decreases counts.len(),
{
    if counts.len() == 0 {
        Seq::empty()
    } else {
        expand_counts(counts.drop_last()) + Seq::new(
            counts.last() as nat,
            |k: int| (counts.len() - 1) as usize,
        )
    }
}

proof fn lemma_count_eq_const(c: nat, v: usize, x: usize)
    ensures
        common::count_eq(Seq::new(c, |k: int| v), x) == if v == x {
            c
        } else {
            0nat
        },
    decreases c,
{
    if c > 0 {
        lemma_count_eq_const((c - 1) as nat, v, x);
        assert(Seq::new(c, |k: int| v).drop_last() =~= Seq::new((c - 1) as nat, |k: int| v));
    }
}

/// Expansion is faithful to the counts: each length occurs exactly its
/// count many times, and nothing else occurs.
pub proof fn lemma_expand_counts_count(counts: Seq<usize>, x: usize)
    requires
        counts.len() <= usize::MAX,
    ensures
        common::count_eq(expand_counts(counts), x) == if (x as int) < counts.len() {
            counts[x as int] as nat
        } else {
            0nat
        },
    decreases counts.len(),
{
    if counts.len() > 0 {
        assert(((counts.len() - 1) as usize) as int == counts.len() - 1);
        lemma_expand_counts_count(counts.drop_last(), x);
        common::lemma_count_eq_add(
            expand_counts(counts.drop_last()),
            Seq::new(counts.last() as nat, |k: int| (counts.len() - 1) as usize),
            x,
        );
        lemma_count_eq_const(counts.last() as nat, (counts.len() - 1) as usize, x);
    }
}

proof fn lemma_expand_counts_bounded(counts: Seq<usize>, bound: usize)
    requires
        counts.len() <= bound + 1,
    ensures
        forall|k: int|
            0 <= k < expand_counts(counts).len() ==> (#[trigger] expand_counts(counts)[k]) <= bound,
    decreases counts.len(),
{
    if counts.len() > 0 {
        assert(((counts.len() - 1) as usize) as int == counts.len() - 1);
        lemma_expand_counts_bounded(counts.drop_last(), bound);
        let a = expand_counts(counts.drop_last());
        let b = Seq::new(counts.last() as nat, |j: int| (counts.len() - 1) as usize);
        assert(expand_counts(counts) == a + b);
        assert forall|k: int|
            0 <= k < expand_counts(counts).len() implies (#[trigger] expand_counts(counts)[k])
                <= bound by {
            if k < a.len() {
                assert(expand_counts(counts)[k] == a[k]);
            } else {
                assert(expand_counts(counts)[k] == b[k - a.len()]);
            }
        }
    }
}

/// Flatten the per-length counts into the length multiset and run the
/// selected packing algorithm on it.
pub fn create_packing_strategy(
    histogram: Vec<usize>,
    pack_size: usize,
    packing_algorithm: packing::PackingAlgo,
) -> (r: Vec<Vec<usize>>)
    requires
        pack_size < usize::MAX,
        histogram@.len() == pack_size + 1,
    ensures
        packing_algorithm is FirstFit ==> r.deep_view() == packing::ff_bins(
            expand_counts(histogram@),
            pack_size as int,
        ),
        packing_algorithm is FirstFitDecreasing ==> exists|p: Seq<usize>|
            {
                &&& p.to_multiset() == expand_counts(histogram@).to_multiset()
                &&& packing::sorted_desc(p)
                &&& r.deep_view() == packing::ff_bins(p, pack_size as int)
            },
        packing_algorithm is FirstFitShuffle ==> exists|p: Seq<usize>|
            {
                &&& p.to_multiset() == expand_counts(histogram@).to_multiset()
                &&& r.deep_view() == packing::ff_bins(p, pack_size as int)
            },
        packing::pack_result_ok(r.deep_view(), expand_counts(histogram@), pack_size as int),
{
    let mut all_seq_lens: Vec<usize> = Vec::new();
    let hn = histogram.len();
    let mut l: usize = 0;
    proof {
        assert(histogram@.take(0) =~= Seq::<usize>::empty());
        assert(all_seq_lens@ =~= expand_counts(histogram@.take(0)));
    }
    while l < hn
        invariant
            l <= hn,
            hn == histogram@.len(),
            hn == pack_size + 1,
            all_seq_lens@ == expand_counts(histogram@.take(l as int)),
            forall|k: int|
                0 <= k < all_seq_lens@.len() ==> (#[trigger] all_seq_lens@[k]) <= pack_size,
        decreases hn - l,
    {
        let count = histogram[l];
        let mut c: usize = 0;
        let ghost base = all_seq_lens@;
        while c < count
            invariant
                c <= count,
                (l as int) < histogram@.len(),
                l <= pack_size,
                count == histogram@[l as int],
                all_seq_lens@ == base + Seq::new(c as nat, |k: int| l),
                forall|k: int|
                    0 <= k < base.len() ==> (#[trigger] base[k]) <= pack_size,
            decreases count - c,
        {
            all_seq_lens.push(l);
            proof {
                assert(all_seq_lens@ =~= base + Seq::new(c as nat + 1, |k: int| l));
            }
            c = c + 1;
        }
        proof {
            assert(histogram@.take(l as int + 1).drop_last() =~= histogram@.take(l as int));
            assert(histogram@.take(l as int + 1).last() == histogram@[l as int]);
            assert(all_seq_lens@ == expand_counts(histogram@.take(l as int + 1)));
        }
        l = l + 1;
    }
    proof {
        assert(histogram@.take(hn as int) =~= histogram@);
    }
    packing_algorithm.pack(all_seq_lens, pack_size)
}

/// The per-length counts of the dataset's histogram.
pub open spec fn hist_counts(d: Seq<(String, Vec<Sequence>)>, cap: int) -> Seq<usize> {
    Seq::new((cap + 1) as nat, |l: int| bucketize(dataset_seqs(d), cap)[l].len() as usize)
}

/// The assignment the selected algorithm produces on the dataset's
/// length multiset.
pub open spec fn assignment_ok(
    bins: Seq<Seq<usize>>,
    d: Seq<(String, Vec<Sequence>)>,
    cap: int,
    algo: packing::PackingAlgo,
) -> bool {
    let lens = expand_counts(hist_counts(d, cap));
    match algo {
        packing::PackingAlgo::FirstFit => bins == packing::ff_bins(lens, cap),
        packing::PackingAlgo::FirstFitDecreasing => exists|p: Seq<usize>|
            {
                &&& p.to_multiset() == lens.to_multiset()
                &&& packing::sorted_desc(p)
                &&& bins == packing::ff_bins(p, cap)
            },
        packing::PackingAlgo::FirstFitShuffle => exists|p: Seq<usize>|
            {
                &&& p.to_multiset() == lens.to_multiset()
                &&& bins == packing::ff_bins(p, cap)
            },
    }
}

/// Everything `fast_pack` promises of a successful result: an output in
/// the returned layout, computed from some assignment the selected
/// algorithm could produce and some pool holding exactly the histogram's
/// sequences.
pub open spec fn packed_result_ok(
    f: ReturnFormat,
    d: Seq<(String, Vec<Sequence>)>,
    cap: int,
    algo: packing::PackingAlgo,
    pad_id: Option<u32>,
    opts: NemoOptions,
) -> bool {
    exists|bins: Seq<Seq<usize>>, pool: Seq<Seq<Seq<u32>>>|
        {
            &&& #[trigger] assignment_ok(bins, d, cap, algo)
            &&& #[trigger] strategy::common::pool_matches_buckets(
                pool,
                bucketize(dataset_seqs(d), cap),
                cap,
            )
            &&& (f matches ReturnFormat::Composer(out)
                ==> strategy::composer::composer_output_ok(out, pool, bins, pad_id, cap))
            &&& (f matches ReturnFormat::Nemo(out) ==> strategy::nemo::nemo_output_ok(
                out,
                pool,
                bins,
                opts,
                pad_id,
            ))
            &&& (f matches ReturnFormat::Iterator(it)
                ==> strategy::iterator::iterator_output_ok(it, pool, bins, pad_id, cap))
        }
}

proof fn lemma_bucketize_bucket_le(seqs: Seq<Seq<u32>>, cap: int, l: int)
    requires
        0 <= l <= cap,
    ensures
        bucketize(seqs, cap)[l].len() <= seqs.len(),
    decreases seqs.len(),
{
    if seqs.len() > 0 {
        lemma_bucketize_bucket_le(seqs.drop_last(), cap, l);
        lemma_bucketize_shape(seqs.drop_last(), cap);
    }
}

/// Bucketing conserves the sequences: the histogram's buckets hold, as a
/// multiset, exactly the dataset's sequences.
pub proof fn lemma_bucketize_ms(seqs: Seq<Seq<u32>>, cap: int)
    requires
        cap >= 0,
        forall|k: int| 0 <= k < seqs.len() ==> (#[trigger] seqs[k]).len() <= cap,
    ensures
        strategy::common::pool_ms(bucketize(seqs, cap)) =~= seqs.to_multiset(),
    decreases seqs.len(),
{
    broadcast use vstd::seq_lib::group_to_multiset_ensures;
    broadcast use vstd::multiset::group_multiset_axioms;

    if seqs.len() == 0 {
        strategy::common::lemma_pool_ms_all_empty(bucketize(seqs, cap));
        assert(seqs.to_multiset().len() == 0);
    } else {
        let dl = seqs.drop_last();
        let s = seqs.last();
        assert(s == seqs[seqs.len() - 1]);
        assert(forall|k: int| 0 <= k < dl.len() ==> (#[trigger] dl[k]).len() <= cap);
        lemma_bucketize_ms(dl, cap);
        lemma_bucketize_shape(dl, cap);
        let prev = bucketize(dl, cap);
        let idx = s.len() as int;
        let nb = prev[idx].push(s);
        assert(bucketize(seqs, cap) == prev.update(idx, nb));
        strategy::common::lemma_pool_ms_update(prev, idx, nb);
        assert(nb.to_multiset() =~= prev[idx].to_multiset().insert(s));
        assert(dl.push(s) =~= seqs);
        assert(seqs.to_multiset() =~= dl.to_multiset().insert(s));
        assert forall|e: Seq<u32>|
            strategy::common::pool_ms(bucketize(seqs, cap)).count(e) == seqs.to_multiset().count(
                e,
            ) by {
            assert(strategy::common::pool_ms(prev.update(idx, nb)).add(
                prev[idx].to_multiset(),
            ).count(e) == strategy::common::pool_ms(prev).add(nb.to_multiset()).count(e));
            assert(nb.to_multiset().count(e) == prev[idx].to_multiset().count(e)
                + vstd::multiset::Multiset::singleton(s).count(e));
            assert(seqs.to_multiset().count(e) == dl.to_multiset().count(e)
                + vstd::multiset::Multiset::singleton(s).count(e));
        }
    }
}

/// The round trip of the whole pipeline: for any assignment the selected
/// algorithm could produce on the dataset's length multiset, and any pool
/// holding exactly the histogram's sequences, the packs' pieces are, as a
/// multiset, exactly the dataset's sequences - every input sequence lands
/// in exactly one pack exactly once (before any truncation or padding of
/// the pack buffers).
pub proof fn lemma_round_trip(
    d: Seq<(String, Vec<Sequence>)>,
    cap: int,
    algo: packing::PackingAlgo,
    bins: Seq<Seq<usize>>,
    pool: Seq<Seq<Seq<u32>>>,
)
    requires
        0 <= cap < usize::MAX,
        dataset_seqs(d).len() <= usize::MAX,
        forall|k: int| 0 <= k < dataset_seqs(d).len() ==> (#[trigger] dataset_seqs(d)[k]).len()
            <= cap,
        assignment_ok(bins, d, cap, algo),
        strategy::common::pool_matches_buckets(pool, bucketize(dataset_seqs(d), cap), cap),
    ensures
        strategy::common::pieces_ms(strategy::common::all_bin_pieces(pool, bins))
            == dataset_seqs(d).to_multiset(),
{
    broadcast use vstd::seq_lib::group_to_multiset_ensures;

    let seqs = dataset_seqs(d);
    let counts = hist_counts(d, cap);
    let lens = expand_counts(counts);
    // the assignment is First-Fit of some permutation of the lengths
    let p = choose|p: Seq<usize>|
        {
            &&& p.to_multiset() == lens.to_multiset()
            &&& bins == packing::ff_bins(p, cap)
        };
    let pv = if algo is FirstFit {
        lens
    } else {
        p
    };
    assert(pv.to_multiset() == lens.to_multiset() && bins == packing::ff_bins(pv, cap)) by {
        if algo is FirstFit {
        } else if algo is FirstFitDecreasing {
            let q = choose|q: Seq<usize>|
                {
                    &&& q.to_multiset() == lens.to_multiset()
                    &&& packing::sorted_desc(q)
                    &&& bins == packing::ff_bins(q, cap)
                };
            assert(p.to_multiset() == lens.to_multiset() && bins == packing::ff_bins(p, cap));
        }
    }
    // each length is demanded exactly its bucket's count
    assert forall|x: usize|
        x <= cap implies packing::count_in_bins(bins, x) == (#[trigger] pool[x as int]).len() by {
        packing::lemma_ff_conserves(pv, cap, x);
        common::lemma_count_eq_congruent(pv, lens, x);
        lemma_expand_counts_count(counts, x);
        lemma_bucketize_bucket_le(seqs, cap, x as int);
        assert(counts[x as int] == bucketize(seqs, cap)[x as int].len());
        assert(pool[x as int].to_multiset() == bucketize(seqs, cap)[x as int].to_multiset());
        assert(pool[x as int].to_multiset().len() == pool[x as int].len());
        assert(bucketize(seqs, cap)[x as int].to_multiset().len() == bucketize(seqs, cap)[
            x as int
        ].len());
    }
    // no bin holds a length beyond the capacity
    assert forall|i: int, j: int|
        0 <= i < bins.len() && 0 <= j < bins[i].len() implies (#[trigger] bins[i][j]) <= cap by {
        packing::lemma_count_in_bins_pos(bins, i, j);
        packing::lemma_ff_conserves(pv, cap, bins[i][j]);
        common::lemma_count_eq_congruent(pv, lens, bins[i][j]);
        lemma_expand_counts_count(counts, bins[i][j]);
    }
    strategy::common::lemma_fill_round_trip(pool, bins, cap);
    lemma_bucketize_shape(seqs, cap);
    strategy::common::lemma_pool_ms_congruent(pool, bucketize(seqs, cap));
    lemma_bucketize_ms(seqs, cap);
}

/// Pack a dataset end to end: build the length histogram, run the
/// selected packing algorithm on the length multiset, and fill the packs
/// in the selected output layout. Data failures are reported first, then
/// an unrecognized algorithm, then, per layout, invalid options and an
/// unrecognized layout.
pub fn fast_pack(
    examples: Vec<(String, Vec<Sequence>)>,
    target_pack_size: usize,
    packing_algorithm: String,
    return_format: String,
    pad_id: Option<u32>,
    options: NemoOptionsBuilder,
) -> (r: Result<ReturnFormat, PackError>)
    requires
        target_pack_size < usize::MAX,
        target_pack_size <= u32::MAX,
        (return_format@ == "nemo"@ && !options.answer_loss_only) ==> forall|k: int|
            0 <= k < dataset_seqs(examples@).len()
                ==> (#[trigger] dataset_seqs(examples@)[k]).len() > 0,
    ensures
        ({
            let d = examples@;
            let cap = target_pack_size as int;
            match hist_err(d, cap) {
                Some(e) => r == Err::<ReturnFormat, PackError>(e),
                None => match packing::parse_algo(packing_algorithm@) {
                    Err(e) => r == Err::<ReturnFormat, PackError>(e),
                    Ok(algo) => if return_format@ == "composer"@ {
                        r matches Ok(f) && f is Composer && packed_result_ok(
                            f,
                            d,
                            cap,
                            algo,
                            pad_id,
                            (NemoOptions {
                                answer_start_id: None,
                                answer_end_id: None,
                                answer_loss_only: false,
                            }),
                        )
                    } else if return_format@ == "nemo"@ {
                        match strategy::nemo::build_opts(options) {
                            Err(e) => r == Err::<ReturnFormat, PackError>(e),
                            Ok(opts) => r matches Ok(f) && f is Nemo && packed_result_ok(
                                f,
                                d,
                                cap,
                                algo,
                                pad_id,
                                opts,
                            ),
                        }
                    } else if return_format@ == "iterator"@ {
                        match strategy::nemo::build_opts(options) {
                            Err(e) => r == Err::<ReturnFormat, PackError>(e),
                            Ok(opts) => r matches Ok(f) && f is Iterator && packed_result_ok(
                                f,
                                d,
                                cap,
                                algo,
                                pad_id,
                                opts,
                            ),
                        }
                    } else {
                        r == Err::<ReturnFormat, PackError>(PackError::InvalidFormat)
                    },
                },
            }
        }),
{
    let ghost d = examples@;
    let ghost cap = target_pack_size as int;
    let (sequences, seq_lens) = match create_hist(&examples, target_pack_size) {
        Ok(hc) => hc,
        Err(e) => {
            return Err(e);
        },
    };
    let algo = match packing::PackingAlgo::from_str(packing_algorithm.as_str()) {
        Ok(a) => a,
        Err(e) => {
            return Err(e);
        },
    };
    proof {
        assert forall|l: int| 0 <= l < seq_lens@.len() implies seq_lens@[l] == hist_counts(
            d,
            cap,
        )[l] by {
            assert(sequences.buckets.deep_view()[l] == sequences.buckets@[l].deep_view());
            assert(seq_lens@[l] == sequences.buckets@[l]@.len());
        }
        assert(seq_lens@ =~= hist_counts(d, cap));
    }
    let assignments = create_packing_strategy(seq_lens, target_pack_size, algo);
    let ghost bins = assignments.deep_view();
    proof {
        assert(assignment_ok(bins, d, cap, algo));
        // every entry of the assignment is a length the histogram counted
        assert forall|i: int, j: int|
            0 <= i < bins.len() && 0 <= j < bins[i].len() implies (#[trigger] bins[i][j])
                <= target_pack_size by {
            packing::lemma_count_in_bins_pos(bins, i, j);
            lemma_expand_counts_count(hist_counts(d, cap), bins[i][j]);
        }
        assert forall|x: usize|
            x <= target_pack_size implies packing::count_in_bins(bins, x)
                <= sequences.buckets@[x as int]@.len() by {
            lemma_expand_counts_count(hist_counts(d, cap), x);
        }
        if return_format@ == "nemo"@ && !options.answer_loss_only {
            lemma_bucketize_absent(dataset_seqs(d), cap, 0);
            assert forall|i: int, j: int|
                0 <= i < bins.len() && 0 <= j < bins[i].len() implies (#[trigger] bins[i][j])
                    > 0 by {
                if bins[i][j] == 0 {
                    packing::lemma_count_in_bins_pos(bins, i, j);
                    lemma_expand_counts_count(hist_counts(d, cap), 0);
                }
            }
        }
    }
    let ghost hist_v = sequences;
    if common::str_eq(return_format.as_str(), "composer") {
        let rf = ReturnFormat::Composer(
            ComposerOutput { tokens: Vec::new(), positions_ids: Vec::new() },
        );
        let ghost rfv = rf;
        let out = strategy::common::fill_packing_strategy(
            assignments,
            sequences,
            target_pack_size,
            pad_id,
            rf,
            None,
        );
        proof {
            let pool = choose|pool: Seq<Seq<Seq<u32>>>|
                strategy::common::fill_post(
                    out,
                    hist_v,
                    bins,
                    target_pack_size,
                    pad_id,
                    rfv,
                    None,
                    pool,
                );
            assert(strategy::common::pool_matches_buckets(
                pool,
                bucketize(dataset_seqs(d), cap),
                cap,
            ));
            assert(assignment_ok(bins, d, cap, algo));
        }
        Ok(out)
    } else if common::str_eq(return_format.as_str(), "nemo") {
        let opts = match options.build() {
            Ok(o) => o,
            Err(e) => {
                return Err(e);
            },
        };
        let rf = ReturnFormat::Nemo(
            NemoOutput { input_ids: Vec::new(), loss_mask: Vec::new(), seq_start_id: Vec::new() },
        );
        let ghost rfv = rf;
        let out = strategy::common::fill_packing_strategy(
            assignments,
            sequences,
            target_pack_size,
            pad_id,
            rf,
            Some(opts),
        );
        proof {
            let pool = choose|pool: Seq<Seq<Seq<u32>>>|
                strategy::common::fill_post(
                    out,
                    hist_v,
                    bins,
                    target_pack_size,
                    pad_id,
                    rfv,
                    Some(opts),
                    pool,
                );
            assert(strategy::common::pool_matches_buckets(
                pool,
                bucketize(dataset_seqs(d), cap),
                cap,
            ));
            assert(assignment_ok(bins, d, cap, algo));
        }
        Ok(out)
    } else if common::str_eq(return_format.as_str(), "iterator") {
        let opts = match options.build() {
            Ok(o) => o,
            Err(e) => {
                return Err(e);
            },
        };
        let rf = ReturnFormat::Iterator(ReturnIter { records: Vec::new(), cursor: 0 });
        let ghost rfv = rf;
        let out = strategy::common::fill_packing_strategy(
            assignments,
            sequences,
            target_pack_size,
            pad_id,
            rf,
            Some(opts),
        );
        proof {
            let pool = choose|pool: Seq<Seq<Seq<u32>>>|
                strategy::common::fill_post(
                    out,
                    hist_v,
                    bins,
                    target_pack_size,
                    pad_id,
                    rfv,
                    Some(opts),
                    pool,
                );
            assert(strategy::common::pool_matches_buckets(
                pool,
                bucketize(dataset_seqs(d), cap),
                cap,
            ));
            assert(assignment_ok(bins, d, cap, algo));
        }
        Ok(out)
    } else {
        Err(PackError::InvalidFormat)
    }
}

} // verus!
