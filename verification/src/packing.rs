//! The bin-packing algorithms. First-Fit processes lengths in input order
//! and puts each one into the open bin chosen by a capacity-indexed lookup:
//! among the bins whose remaining capacity is at least the length, the one
//! with the smallest remaining capacity, ties broken in favour of the bin
//! that reached that capacity first. First-Fit-Decreasing sorts the lengths
//! in descending order first; First-Fit-Shuffle applies a random
//! permutation first.

use vstd::prelude::*;
use crate::common::{ascii_lower, count_eq, eq_lower, seq_sum, shuffle_vec, PackError};

verus! {

/// One open bin of the packing state: the lengths placed in it so far, and
/// the index of the step that last changed it (its creation, or the latest
/// placement into it). The step index breaks ties among bins with equal
/// remaining capacity: the bin that reached the capacity first wins.
pub ghost struct GBin {
    pub items: Seq<usize>,
    pub time: nat,
}

/// Remaining capacity of a bin under pack capacity `cap`.
pub open spec fn g_rem(b: GBin, cap: int) -> int {
    cap - seq_sum(b.items)
}

/// Whether a length `s` fits into bin `b`.
pub open spec fn g_fits(b: GBin, s: usize, cap: int) -> bool {
    g_rem(b, cap) >= s
}

/// The capacity-indexed lookup order: `a` is served before `b` when it has
/// strictly smaller remaining capacity, or equal remaining capacity reached
/// at an earlier step.
pub open spec fn g_before(a: GBin, b: GBin, cap: int) -> bool {
    g_rem(a, cap) < g_rem(b, cap) || (g_rem(a, cap) == g_rem(b, cap) && a.time < b.time)
}

/// The index of the bin that receives a length `s`: among the bins where
/// `s` fits, the least in the `g_before` order; `-1` when none fits.
pub open spec fn best_idx(state: Seq<GBin>, s: usize, cap: int) -> int
    decreases state.len(),
{
    if state.len() == 0 {
        -1
    } else {
        let rest = best_idx(state.drop_last(), s, cap);
        let j = state.len() - 1;
        if !g_fits(state[j], s, cap) {
            rest
        } else if rest == -1 {
            j
        } else if g_before(state[rest], state[j], cap) {
            rest
        } else {
            j
        }
    }
}

pub proof fn lemma_best_idx(state: Seq<GBin>, s: usize, cap: int)
    ensures
        best_idx(state, s, cap) == -1 ==> forall|i: int|
            0 <= i < state.len() ==> !g_fits(state[i], s, cap),
        best_idx(state, s, cap) != -1 ==> {
            let b = best_idx(state, s, cap);
            &&& 0 <= b < state.len()
            &&& g_fits(state[b], s, cap)
            &&& forall|i: int|
                0 <= i < state.len() && g_fits(#[trigger] state[i], s, cap) && i != b ==> !g_before(
                    state[i],
                    state[b],
                    cap,
                )
        },
    decreases state.len(),
{
    if state.len() > 0 {
        lemma_best_idx(state.drop_last(), s, cap);
        assert(forall|i: int|
            0 <= i < state.len() - 1 ==> state.drop_last()[i] == state[i]);
    }
}

/// One step of First-Fit: place length `s` at step `t` into the state.
pub open spec fn ff_step(state: Seq<GBin>, s: usize, cap: int, t: nat) -> Seq<GBin> {
    let b = best_idx(state, s, cap);
    if b == -1 {
        state.push(GBin { items: seq![s], time: t })
    } else {
        state.update(b, GBin { items: state[b].items.push(s), time: t })
    }
}

/// The First-Fit state after processing all of `lens` in order.
pub open spec fn ff_state(lens: Seq<usize>, cap: int) -> Seq<GBin>
    decreases lens.len(),
{
    if lens.len() == 0 {
        Seq::empty()
    } else {
        ff_step(ff_state(lens.drop_last(), cap), lens.last(), cap, (lens.len() - 1) as nat)
    }
}

/// The bins First-Fit produces on `lens`, in bin-creation order.
pub open spec fn ff_bins(lens: Seq<usize>, cap: int) -> Seq<Seq<usize>> {
    Seq::new(ff_state(lens, cap).len(), |i: int| ff_state(lens, cap)[i].items)
}

/// Structural facts about the First-Fit state: every bin was last touched
/// by a distinct step that already happened, no bin is empty, and - the
/// packing invariant - no bin's contents exceed the capacity.
pub open spec fn ff_state_wf(state: Seq<GBin>, n: int, cap: int) -> bool {
    &&& forall|i: int| 0 <= i < state.len() ==> (#[trigger] state[i]).time < n
    &&& forall|i: int, j: int|
        0 <= i < state.len() && 0 <= j < state.len() && i != j ==> state[i].time != state[j].time
    &&& forall|i: int| 0 <= i < state.len() ==> (#[trigger] state[i]).items.len() > 0
    &&& forall|i: int| 0 <= i < state.len() ==> 0 <= g_rem(#[trigger] state[i], cap) <= cap
}

pub proof fn lemma_seq_sum_push(s: Seq<usize>, v: usize)
    ensures
        seq_sum(s.push(v)) == seq_sum(s) + v,
{
    assert(s.push(v).drop_last() =~= s);
}

pub proof fn lemma_seq_sum_singleton(v: usize)
    ensures
        seq_sum(seq![v]) == v,
{
    assert(seq![v] =~= Seq::<usize>::empty().push(v));
    lemma_seq_sum_push(Seq::<usize>::empty(), v);
}

pub proof fn lemma_count_eq_singleton(v: usize, x: usize)
    ensures
        count_eq(seq![v], x) == if v == x {
            1nat
        } else {
            0nat
        },
{
    assert(seq![v] =~= Seq::<usize>::empty().push(v));
    crate::common::lemma_count_eq_push(Seq::<usize>::empty(), v, x);
}

pub proof fn lemma_ff_state_wf(lens: Seq<usize>, cap: int)
    requires
        forall|i: int| 0 <= i < lens.len() ==> lens[i] <= cap,
    ensures
        ff_state_wf(ff_state(lens, cap), lens.len() as int, cap),
    decreases lens.len(),
{
    if lens.len() > 0 {
        let prev = ff_state(lens.drop_last(), cap);
        let s = lens.last();
        let t = (lens.len() - 1) as nat;
        lemma_ff_state_wf(lens.drop_last(), cap);
        lemma_best_idx(prev, s, cap);
        let b = best_idx(prev, s, cap);
        if b == -1 {
            lemma_seq_sum_singleton(s);
        } else {
            lemma_seq_sum_push(prev[b].items, s);
        }
    }
}

/// How many lengths equal to `x` are held across all bins.
pub open spec fn count_in_bins(bins: Seq<Seq<usize>>, x: usize) -> nat
    decreases bins.len(),
{
    if bins.len() == 0 {
        0
    } else {
        count_in_bins(bins.drop_last(), x) + count_eq(bins.last(), x)
    }
}

proof fn lemma_count_in_bins_update_push(bins: Seq<Seq<usize>>, i: int, v: usize, x: usize)
    requires
        0 <= i < bins.len(),
    ensures
        count_in_bins(bins.update(i, bins[i].push(v)), x) == count_in_bins(bins, x) + if v == x {
            1nat
        } else {
            0nat
        },
    decreases bins.len(),
{
    let upd = bins.update(i, bins[i].push(v));
    if i == bins.len() - 1 {
        assert(upd.drop_last() =~= bins.drop_last());
        assert(upd.last() == bins.last().push(v));
        crate::common::lemma_count_eq_push(bins.last(), v, x);
    } else {
        assert(upd.drop_last() =~= bins.drop_last().update(i, bins[i].push(v)));
        assert(bins.drop_last()[i] == bins[i]);
        lemma_count_in_bins_update_push(bins.drop_last(), i, v, x);
        assert(upd.last() == bins.last());
    }
}

pub proof fn lemma_count_eq_pos(s: Seq<usize>, j: int)
    requires
        0 <= j < s.len(),
    ensures
        count_eq(s, s[j]) >= 1,
    decreases s.len(),
{
    if j < s.len() - 1 {
        lemma_count_eq_pos(s.drop_last(), j);
    }
}

/// Any value held in some bin is counted at least once.
pub proof fn lemma_count_in_bins_pos(bins: Seq<Seq<usize>>, i: int, j: int)
    requires
        0 <= i < bins.len(),
        0 <= j < bins[i].len(),
    ensures
        count_in_bins(bins, bins[i][j]) >= 1,
    decreases bins.len(),
{
    if i == bins.len() - 1 {
        lemma_count_eq_pos(bins.last(), j);
    } else {
        lemma_count_in_bins_pos(bins.drop_last(), i, j);
    }
}

pub proof fn lemma_count_in_bins_concat(a: Seq<Seq<usize>>, b: Seq<Seq<usize>>, x: usize)
    ensures
        count_in_bins(a + b, x) == count_in_bins(a, x) + count_in_bins(b, x),
    decreases b.len(),
{
    if b.len() == 0 {
        assert(a + b =~= a);
    } else {
        lemma_count_in_bins_concat(a, b.drop_last(), x);
        assert((a + b).drop_last() =~= a + b.drop_last());
        assert((a + b).last() == b.last());
    }
}

proof fn lemma_count_in_bins_push(bins: Seq<Seq<usize>>, b: Seq<usize>, x: usize)
    ensures
        count_in_bins(bins.push(b), x) == count_in_bins(bins, x) + count_eq(b, x),
{
    assert(bins.push(b).drop_last() =~= bins);
}

/// First-Fit conserves the lengths: each value occurs in the bins exactly
/// as often as in the input.
pub proof fn lemma_ff_conserves(lens: Seq<usize>, cap: int, x: usize)
    ensures
        count_in_bins(ff_bins(lens, cap), x) == count_eq(lens, x),
    decreases lens.len(),
{
    if lens.len() == 0 {
    } else {
        let prev = ff_state(lens.drop_last(), cap);
        let s = lens.last();
        lemma_ff_conserves(lens.drop_last(), cap, x);
        lemma_best_idx(prev, s, cap);
        let b = best_idx(prev, s, cap);
        let prev_bins = ff_bins(lens.drop_last(), cap);
        let cur_bins = ff_bins(lens, cap);
        if b == -1 {
            assert(cur_bins =~= prev_bins.push(seq![s]));
            lemma_count_in_bins_push(prev_bins, seq![s], x);
            lemma_count_eq_singleton(s, x);
        } else {
            assert(cur_bins =~= prev_bins.update(b, prev_bins[b].push(s)));
            lemma_count_in_bins_update_push(prev_bins, b, s, x);
        }
    }
}

/// Whether bin index `i` sits in some capacity bucket.
spec fn in_buckets(bk: Seq<Vec<usize>>, i: int) -> bool {
    exists|c: int, k: int| 0 <= c < bk.len() && 0 <= k < bk[c]@.len() && bk[c]@[k] == i
}

/// The relation between the executable state of `first_fit` and the
/// abstract state: `resv` mirrors the bins, and `bk` is the capacity index,
/// bucket `c` listing - in the order the bins reached remaining capacity
/// `c` - exactly the bins whose remaining capacity is `c`.
spec fn ff_inv(resv: Seq<Vec<usize>>, bk: Seq<Vec<usize>>, st: Seq<GBin>, cap: int) -> bool {
    &&& resv.len() == st.len()
    &&& forall|i: int| 0 <= i < st.len() ==> (#[trigger] resv[i])@ == st[i].items
    &&& bk.len() == cap + 1
    &&& forall|c: int, k: int|
        0 <= c < bk.len() && 0 <= k < bk[c]@.len() ==> 0 <= #[trigger] bk[c]@[k] < st.len()
            && g_rem(st[bk[c]@[k] as int], cap) == c
    &&& forall|c: int, k1: int, k2: int|
        0 <= c < bk.len() && 0 <= k1 < k2 < bk[c]@.len() ==> st[#[trigger] bk[c]@[k1] as int].time
            < st[#[trigger] bk[c]@[k2] as int].time
    &&& forall|i: int| 0 <= i < st.len() ==> in_buckets(bk, i)
}

/// Scan the capacity index upward from `s`: the first non-empty bucket is
/// the smallest remaining capacity at least `s` held by any open bin.
fn find_bucket(buckets: &Vec<Vec<usize>>, s: usize, pack_size: usize) -> (r: Option<usize>)
    requires
        s <= pack_size < usize::MAX,
        buckets@.len() == pack_size + 1,
    ensures
        match r {
            Some(c) => s <= c <= pack_size && buckets@[c as int]@.len() > 0 && forall|c2: int|
                s <= c2 < c ==> buckets@[c2]@.len() == 0,
            None => forall|c2: int| s <= c2 <= pack_size ==> buckets@[c2]@.len() == 0,
        },
{
    let mut c: usize = s;
    while c <= pack_size
        invariant
            s <= c <= pack_size + 1,
            pack_size < usize::MAX,
            buckets@.len() == pack_size + 1,
            forall|c2: int| s <= c2 < c ==> buckets@[c2]@.len() == 0,
        decreases pack_size + 1 - c,
    {
        if buckets[c].len() > 0 {
            return Some(c);
        }
        c = c + 1;
    }
    None
}

/// First-Fit. Each length is placed into the qualifying open bin found by a
/// single range lookup on the capacity index; a new bin is opened only when
/// no open bin has enough remaining capacity. Bins are returned in creation
/// order.
pub fn first_fit(seqlens: Vec<usize>, pack_size: usize) -> (res: Vec<Vec<usize>>)
    requires
        pack_size < usize::MAX,
        forall|i: int| 0 <= i < seqlens@.len() ==> seqlens@[i] <= pack_size,
    ensures
        res.deep_view() == ff_bins(seqlens@, pack_size as int),
{
    let ghost cap = pack_size as int;
    let mut res: Vec<Vec<usize>> = Vec::new();
    let mut buckets: Vec<Vec<usize>> = Vec::new();
    let mut ci: usize = 0;
    while ci <= pack_size
        invariant
            pack_size < usize::MAX,
            ci <= pack_size + 1,
            buckets@.len() == ci,
            forall|c: int| 0 <= c < ci ==> buckets@[c]@.len() == 0,
        decreases pack_size + 1 - ci,
    {
        buckets.push(Vec::new());
        ci = ci + 1;
    }
    let n = seqlens.len();
    let mut t: usize = 0;
    while t < n
        invariant
            n == seqlens@.len(),
            t <= n,
            cap == pack_size as int,
            pack_size < usize::MAX,
            forall|i: int| 0 <= i < seqlens@.len() ==> seqlens@[i] <= pack_size,
            ff_inv(res@, buckets@, ff_state(seqlens@.take(t as int), pack_size as int),
                pack_size as int),
        decreases n - t,
    {
        let ghost st = ff_state(seqlens@.take(t as int), cap);
        let s = seqlens[t];
        proof {
            let pre = seqlens@.take(t as int);
            assert(pre.len() == t);
            assert forall|i: int| 0 <= i < pre.len() implies pre[i] <= cap by {
                assert(pre[i] == seqlens@[i]);
            }
            lemma_ff_state_wf(pre, cap);
            lemma_best_idx(st, s, cap);
        }
        let ghost b = best_idx(st, s, cap);
        match find_bucket(&buckets, s, pack_size) {
            Some(c) => {
                let bin_idx = buckets[c][0];
                proof {
                    // `bin_idx` heads the first non-empty bucket at or above
                    // `s`, which is exactly the bin `best_idx` denotes.
                    assert(buckets@[c as int]@[0] == bin_idx);
                    assert((bin_idx as int) < st.len() && g_rem(
                        st[buckets@[c as int]@[0] as int],
                        cap,
                    ) == c as int);
                    assert(g_rem(st[bin_idx as int], cap) == c);
                    assert(g_fits(st[bin_idx as int], s, cap));
                    assert(b != -1);
                    assert forall|j: int|
                        0 <= j < st.len() && g_fits(#[trigger] st[j], s, cap) && j != bin_idx
                            implies !g_before(st[j], st[bin_idx as int], cap) by {
                        assert(in_buckets(buckets@, j));
                        let (cj, kj): (int, int) = choose|cj: int, kj: int|
                            0 <= cj < buckets@.len() && 0 <= kj < buckets@[cj]@.len()
                                && buckets@[cj]@[kj] == j;
                        assert(g_rem(st[j], cap) == cj);
                        assert(cj >= s);
                        assert(cj >= c);
                        if cj == c {
                            assert(kj != 0);
                            assert(st[buckets@[c as int]@[0] as int].time < st[buckets@[c as
                                int]@[kj] as int].time);
                        }
                    }
                    if b != bin_idx {
                        assert(g_fits(st[b], s, cap));
                        assert(!g_before(st[b], st[bin_idx as int], cap));
                        assert(!g_before(st[bin_idx as int], st[b], cap));
                        assert(st[b].time != st[bin_idx as int].time);
                        assert(false);
                    }
                }
                let ghost st2 = ff_step(st, s, cap, t as nat);
                let ghost res0 = res@;
                let ghost bk0 = buckets@;
                proof {
                    // In the old index, `b` sits only at the head of bucket `c`.
                    assert forall|d: int, k: int|
                        0 <= d < bk0.len() && 0 <= k < bk0[d]@.len() && !(d == c && k == 0)
                            implies bk0[d]@[k] != b by {
                        if bk0[d]@[k] == b {
                            assert(g_rem(st[b], cap) == d);
                            assert(d == c);
                            assert(st[bk0[c as int]@[0] as int].time < st[bk0[c as
                                int]@[k] as int].time);
                        }
                    }
                }
                buckets[c].remove(0);
                res[bin_idx].push(s);
                let nc = c - s;
                buckets[nc].push(bin_idx);
                proof {
                    lemma_seq_sum_push(st[b].items, s);
                    assert(st2 == st.update(b, GBin { items: st[b].items.push(s), time: t as nat }));
                    assert(g_rem(st2[b], cap) == nc);
                    assert(bk0[c as int]@.remove(0) =~= bk0[c as int]@.subrange(
                        1,
                        bk0[c as int]@.len() as int,
                    ));
                    let bk2 = buckets@;
                    // Pointwise description of the two index mutations.
                    assert(bk2.len() == bk0.len());
                    assert(forall|d: int|
                        0 <= d < bk0.len() && d != c && d != nc ==> bk2[d] == bk0[d]);
                    if nc == c {
                        assert(bk2[c as int]@ == bk0[c as int]@.remove(0).push(bin_idx));
                    } else {
                        assert(bk2[c as int]@ == bk0[c as int]@.remove(0));
                        assert(bk2[nc as int]@ == bk0[nc as int]@.push(bin_idx));
                    }
                    // Each entry of the new index is either the appended `b`
                    // or an old entry other than the head of bucket `c`.
                    assert forall|d: int, k: int|
                        0 <= d < bk2.len() && 0 <= k < bk2[d]@.len()
                            implies 0 <= #[trigger] bk2[d]@[k] < st2.len() && g_rem(
                            st2[bk2[d]@[k] as int],
                            cap,
                        ) == d by {
                        let e = bk2[d]@[k] as int;
                        if d == nc && k == bk2[d]@.len() - 1 {
                            assert(e == b);
                        } else if d == c && (nc != c || k < bk2[d]@.len() - 1) {
                            assert(bk2[d]@[k] == bk0[c as int]@[k + 1]);
                            assert(bk0[c as int]@[k + 1] != b);
                            assert(st2[e] == st[e]);
                        } else {
                            assert(bk2[d]@[k] == bk0[d]@[k]);
                            assert(bk0[d]@[k] != b);
                            assert(st2[e] == st[e]);
                        }
                    }
                    // Time order within each bucket is preserved; the
                    // appended `b` carries the newest step index.
                    assert(st2[b].time == t as nat);
                    assert forall|i: int|
                        0 <= i < st2.len() && i != b implies st2[i].time < t as nat by {
                        assert(st2[i] == st[i]);
                    }
                    assert forall|d: int, k1: int, k2: int|
                        0 <= d < bk2.len() && 0 <= k1 < k2 < bk2[d]@.len()
                            implies st2[#[trigger] bk2[d]@[k1] as int].time
                            < st2[#[trigger] bk2[d]@[k2] as int].time by {
                        let e1 = bk2[d]@[k1] as int;
                        let e2 = bk2[d]@[k2] as int;
                        if d == nc && k2 == bk2[d]@.len() - 1 {
                            assert(e2 == b);
                            if nc == c {
                                assert(bk2[d]@[k1] == bk0[c as int]@[k1 + 1]);
                            } else {
                                assert(bk2[d]@[k1] == bk0[d]@[k1]);
                            }
                            assert(e1 != b);
                        } else if d == c && (nc != c || k2 < bk2[d]@.len() - 1) {
                            assert(bk2[d]@[k1] == bk0[c as int]@[k1 + 1]);
                            assert(bk2[d]@[k2] == bk0[c as int]@[k2 + 1]);
                            assert(e1 != b && e2 != b);
                        } else {
                            assert(bk2[d]@[k1] == bk0[d]@[k1]);
                            assert(bk2[d]@[k2] == bk0[d]@[k2]);
                            assert(e1 != b && e2 != b);
                        }
                    }
                    // Every bin is still indexed somewhere.
                    assert forall|i: int| 0 <= i < st2.len() implies in_buckets(bk2, i) by {
                        if i == b {
                            assert(bk2[nc as int]@[bk2[nc as int]@.len() - 1] == b);
                        } else {
                            assert(in_buckets(bk0, i));
                            let (d, k): (int, int) = choose|d: int, k: int|
                                0 <= d < bk0.len() && 0 <= k < bk0[d]@.len() && bk0[d]@[k] == i;
                            assert(!(d == c && k == 0));
                            if d == c {
                                assert(bk2[c as int]@[k - 1] == bk0[c as int]@[k]);
                            } else if d == nc {
                                assert(bk2[nc as int]@[k] == bk0[nc as int]@[k]);
                            } else {
                                assert(bk2[d]@[k] == bk0[d]@[k]);
                            }
                        }
                    }
                    assert(ff_inv(res@, buckets@, st2, cap));
                }
            },
            None => {
                proof {
                    if b != -1 {
                        assert(g_fits(st[b], s, cap));
                        assert(in_buckets(buckets@, b));
                        let (cb, kb): (int, int) = choose|cb: int, kb: int|
                            0 <= cb < buckets@.len() && 0 <= kb < buckets@[cb]@.len()
                                && buckets@[cb]@[kb] == b;
                        assert(g_rem(st[b], cap) == cb);
                        assert(buckets@[cb]@.len() == 0);
                        assert(false);
                    }
                }
                let ghost st2 = ff_step(st, s, cap, t as nat);
                let ghost bk0 = buckets@;
                let new_bin_idx = res.len();
                let mut nb: Vec<usize> = Vec::new();
                nb.push(s);
                res.push(nb);
                let remaining = pack_size - s;
                buckets[remaining].push(new_bin_idx);
                proof {
                    lemma_seq_sum_singleton(s);
                    assert(st2 == st.push(GBin { items: seq![s], time: t as nat }));
                    assert(g_rem(st2[st.len() as int], cap) == remaining);
                    let bk2 = buckets@;
                    assert(bk2[remaining as int]@ == bk0[remaining as int]@.push(new_bin_idx));
                    assert(forall|d: int|
                        0 <= d < bk0.len() && d != remaining ==> bk2[d] == bk0[d]);
                    assert forall|d: int, k: int|
                        0 <= d < bk2.len() && 0 <= k < bk2[d]@.len()
                            implies 0 <= #[trigger] bk2[d]@[k] < st2.len() && g_rem(
                            st2[bk2[d]@[k] as int],
                            cap,
                        ) == d by {
                        if d == remaining && k == bk2[d]@.len() - 1 {
                            assert(bk2[d]@[k] == new_bin_idx);
                        } else {
                            assert(bk2[d]@[k] == bk0[d]@[k]);
                            assert(st2[bk2[d]@[k] as int] == st[bk2[d]@[k] as int]);
                        }
                    }
                    assert forall|d: int, k1: int, k2: int|
                        0 <= d < bk2.len() && 0 <= k1 < k2 < bk2[d]@.len()
                            implies st2[#[trigger] bk2[d]@[k1] as int].time
                            < st2[#[trigger] bk2[d]@[k2] as int].time by {
                        let e1 = bk2[d]@[k1] as int;
                        if d == remaining && k2 == bk2[d]@.len() - 1 {
                            assert(bk2[d]@[k1] == bk0[d]@[k1]);
                            assert(e1 < st.len());
                            assert(st2[e1] == st[e1]);
                            assert(st[e1].time < t as nat);
                        } else {
                            assert(bk2[d]@[k1] == bk0[d]@[k1]);
                            assert(bk2[d]@[k2] == bk0[d]@[k2]);
                        }
                    }
                    assert forall|i: int| 0 <= i < st2.len() implies in_buckets(bk2, i) by {
                        if i == st.len() {
                            assert(bk2[remaining as int]@[bk2[remaining as int]@.len() - 1] == i);
                        } else {
                            assert(in_buckets(bk0, i));
                            let (d, k): (int, int) = choose|d: int, k: int|
                                0 <= d < bk0.len() && 0 <= k < bk0[d]@.len() && bk0[d]@[k] == i;
                            assert(bk2[d]@[k] == bk0[d]@[k]);
                        }
                    }
                    assert(ff_inv(res@, buckets@, st2, cap));
                }
            },
        }
        proof {
            assert(ff_inv(res@, buckets@, ff_step(st, s, cap, t as nat), cap));
            assert(seqlens@.take(t as int + 1).drop_last() =~= seqlens@.take(t as int));
            assert(seqlens@.take(t as int + 1).last() == s);
            assert(ff_state(seqlens@.take(t as int + 1), cap) == ff_step(st, s, cap, t as nat));
        }
        t = t + 1;
    }
    proof {
        assert(seqlens@.take(n as int) =~= seqlens@);
        assert(res.deep_view() =~~= ff_bins(seqlens@, cap));
    }
    res
}

/// Descending order: every earlier entry is at least every later one.
pub open spec fn sorted_desc(s: Seq<usize>) -> bool {
    forall|i: int, j: int| 0 <= i < j < s.len() ==> s[i] >= s[j]
}

/// Selection sort into descending order. Ties keep no particular order,
/// which matches the unspecified tie order of the sort the packing stage
/// is specified with.
fn sort_lengths_desc(v: Vec<usize>) -> (r: Vec<usize>)
    ensures
        r@.to_multiset() == v@.to_multiset(),
        sorted_desc(r@),
        r@.len() == v@.len(),
{
    broadcast use vstd::seq_lib::group_to_multiset_ensures;

    let mut rest = v;
    let mut out: Vec<usize> = Vec::new();
    proof {
        assert(out@.to_multiset().add(rest@.to_multiset()) =~= rest@.to_multiset());
    }
    let ghost orig = rest@;
    while rest.len() > 0
        invariant
            out@.to_multiset().add(rest@.to_multiset()) == orig.to_multiset(),
            out@.len() + rest@.len() == orig.len(),
            sorted_desc(out@),
            forall|i: int, j: int|
                0 <= i < out@.len() && 0 <= j < rest@.len() ==> out@[i] >= rest@[j],
        decreases rest@.len(),
    {
        let mut m: usize = 0;
        let mut k: usize = 1;
        while k < rest.len()
            invariant
                rest@.len() > 0,
                (m as int) < rest@.len(),
                k <= rest@.len(),
                forall|j: int| 0 <= j < k ==> rest@[m as int] >= rest@[j],
            decreases rest@.len() - k,
        {
            if rest[k] > rest[m] {
                m = k;
            }
            k = k + 1;
        }
        let ghost rest0 = rest@;
        let ghost out0 = out@;
        let x = rest.remove(m);
        out.push(x);
        proof {
            broadcast use vstd::seq_lib::group_to_multiset_ensures;

            assert(rest@.to_multiset() =~= rest0.to_multiset().remove(x));
            assert(out@.to_multiset() =~= out0.to_multiset().insert(x));
            assert(rest0.contains(x));
            assert(rest0.to_multiset().count(x) > 0);
            assert(out@.to_multiset().add(rest@.to_multiset()) =~= out0.to_multiset().add(
                rest0.to_multiset(),
            ));
            assert(forall|j: int| 0 <= j < rest@.len() ==> x >= rest@[j]);
        }
    }
    out
}

/// Everything a multiset-equal companion of a bounded sequence is: its
/// entries are bounded by the same bound.
pub proof fn lemma_multiset_bound_transfer(a: Seq<usize>, b: Seq<usize>, bound: usize)
    requires
        a.to_multiset() == b.to_multiset(),
        forall|i: int| 0 <= i < b.len() ==> b[i] <= bound,
    ensures
        forall|i: int| 0 <= i < a.len() ==> a[i] <= bound,
{
    broadcast use vstd::seq_lib::group_to_multiset_ensures;

    assert forall|i: int| 0 <= i < a.len() implies a[i] <= bound by {
        assert(a.contains(a[i]));
        assert(a.to_multiset().count(a[i]) > 0);
        assert(b.contains(a[i]));
        let j = choose|j: int| 0 <= j < b.len() && b[j] == a[i];
        assert(b[j] <= bound);
    }
}

/// Every bin that First-Fit produces keeps the packing invariant: the sum
/// of its lengths is at most the capacity.
pub proof fn lemma_ff_bins_capacity(lens: Seq<usize>, cap: int)
    requires
        forall|i: int| 0 <= i < lens.len() ==> lens[i] <= cap,
    ensures
        forall|i: int|
            0 <= i < ff_bins(lens, cap).len() ==> seq_sum(#[trigger] ff_bins(lens, cap)[i]) <= cap,
{
    lemma_ff_state_wf(lens, cap);
}

/// First-Fit is deterministic: identical input order gives an identical
/// assignment, with no dependence on anything but the lengths and the
/// capacity.
pub proof fn lemma_first_fit_deterministic(a: Seq<usize>, b: Seq<usize>, cap: int)
    requires
        a == b,
    ensures
        ff_bins(a, cap) == ff_bins(b, cap),
{
}

/// What every packing result guarantees, whatever the algorithm: each
/// length occurs across the bins exactly as often as in the input, and no
/// bin's contents exceed the capacity.
pub open spec fn pack_result_ok(bins: Seq<Seq<usize>>, lens: Seq<usize>, cap: int) -> bool {
    &&& forall|x: usize| #[trigger] count_in_bins(bins, x) == count_eq(lens, x)
    &&& forall|i: int| 0 <= i < bins.len() ==> seq_sum(#[trigger] bins[i]) <= cap
}

proof fn lemma_pack_result_ok(p: Seq<usize>, lens: Seq<usize>, cap: int)
    requires
        p.to_multiset() == lens.to_multiset(),
        forall|i: int| 0 <= i < p.len() ==> p[i] <= cap,
    ensures
        pack_result_ok(ff_bins(p, cap), lens, cap),
{
    assert forall|x: usize| #[trigger] count_in_bins(ff_bins(p, cap), x) == count_eq(lens, x) by {
        lemma_ff_conserves(p, cap, x);
        crate::common::lemma_count_eq_congruent(p, lens, x);
    }
    lemma_ff_bins_capacity(p, cap);
}

/// First-Fit-Decreasing: sort the lengths in descending order (tie order
/// unspecified), then run First-Fit. Large items are placed first, which
/// reliably produces fewer, fuller bins than plain First-Fit.
pub fn first_fit_decreasing(seqlens: Vec<usize>, pack_size: usize) -> (res: Vec<Vec<usize>>)
    requires
        pack_size < usize::MAX,
        forall|i: int| 0 <= i < seqlens@.len() ==> seqlens@[i] <= pack_size,
    ensures
        exists|p: Seq<usize>|
            {
                &&& p.to_multiset() == seqlens@.to_multiset()
                &&& sorted_desc(p)
                &&& res.deep_view() == ff_bins(p, pack_size as int)
            },
        pack_result_ok(res.deep_view(), seqlens@, pack_size as int),
{
    let ghost orig = seqlens@;
    let sorted = sort_lengths_desc(seqlens);
    proof {
        lemma_multiset_bound_transfer(sorted@, orig, pack_size);
    }
    let ghost sv = sorted@;
    let res = first_fit(sorted, pack_size);
    proof {
        lemma_pack_result_ok(sv, orig, pack_size as int);
        assert({
            &&& sv.to_multiset() == orig.to_multiset()
            &&& sorted_desc(sv)
            &&& res.deep_view() == ff_bins(sv, pack_size as int)
        });
    }
    res
}

/// First-Fit-Shuffle: apply a uniform random permutation to the lengths,
/// then run First-Fit. This trades optimality for reduced correlation
/// between pack composition and input ordering; the result is First-Fit of
/// some permutation of the input.
pub fn first_fit_shuffle(seqlens: Vec<usize>, pack_size: usize) -> (res: Vec<Vec<usize>>)
    requires
        pack_size < usize::MAX,
        forall|i: int| 0 <= i < seqlens@.len() ==> seqlens@[i] <= pack_size,
    ensures
        exists|p: Seq<usize>|
            {
                &&& p.to_multiset() == seqlens@.to_multiset()
                &&& res.deep_view() == ff_bins(p, pack_size as int)
            },
        pack_result_ok(res.deep_view(), seqlens@, pack_size as int),
{
    let ghost orig = seqlens@;
    let mut lens = seqlens;
    let ghost lens0 = lens;
    shuffle_vec(&mut lens);
    proof {
        assert(lens0.deep_view() =~= orig);
        assert(lens.deep_view() =~= lens@);
        assert(lens@.to_multiset() == orig.to_multiset());
        lemma_multiset_bound_transfer(lens@, orig, pack_size);
    }
    let ghost sv = lens@;
    let res = first_fit(lens, pack_size);
    proof {
        lemma_pack_result_ok(sv, orig, pack_size as int);
        assert({
            &&& sv.to_multiset() == orig.to_multiset()
            &&& res.deep_view() == ff_bins(sv, pack_size as int)
        });
    }
    res
}

/// The three packing algorithms.
#[derive(Clone, Copy, Debug, PartialEq, Eq, Structural)]
pub enum PackingAlgo {
    FirstFit,
    FirstFitShuffle,
    FirstFitDecreasing,
}

/// The algorithm a selector string names. Matching ignores ASCII case; an
/// unrecognized selector is `InvalidAlgorithm`.
pub open spec fn parse_algo(s: Seq<char>) -> Result<PackingAlgo, PackError> {
    if ascii_lower(s) == "first_fit"@ {
        Ok(PackingAlgo::FirstFit)
    } else if ascii_lower(s) == "first_fit_shuffle"@ {
        Ok(PackingAlgo::FirstFitShuffle)
    } else if ascii_lower(s) == "first_fit_decreasing"@ {
        Ok(PackingAlgo::FirstFitDecreasing)
    } else {
        Err(PackError::InvalidAlgorithm)
    }
}

impl PackingAlgo {
    /// Parse the algorithm selector, one of `first_fit`,
    /// `first_fit_shuffle`, `first_fit_decreasing`, ignoring ASCII case.
    pub fn from_str(s: &str) -> (r: Result<PackingAlgo, PackError>)
        ensures
            r == parse_algo(s@),
    {
        if eq_lower(s, "first_fit") {
            Ok(PackingAlgo::FirstFit)
        } else if eq_lower(s, "first_fit_shuffle") {
            Ok(PackingAlgo::FirstFitShuffle)
        } else if eq_lower(s, "first_fit_decreasing") {
            Ok(PackingAlgo::FirstFitDecreasing)
        } else {
            Err(PackError::InvalidAlgorithm)
        }
    }

    /// Pack the lengths into bins with the selected algorithm. Bins come
    /// out in creation order and each keeps its sum within `pack_size`.
    pub fn pack(&self, seqlens: Vec<usize>, pack_size: usize) -> (res: Vec<Vec<usize>>)
        requires
            pack_size < usize::MAX,
            forall|i: int| 0 <= i < seqlens@.len() ==> seqlens@[i] <= pack_size,
        ensures
            *self is FirstFit ==> res.deep_view() == ff_bins(seqlens@, pack_size as int),
            *self is FirstFitDecreasing ==> exists|p: Seq<usize>|
                {
                    &&& p.to_multiset() == seqlens@.to_multiset()
                    &&& sorted_desc(p)
                    &&& res.deep_view() == ff_bins(p, pack_size as int)
                },
            *self is FirstFitShuffle ==> exists|p: Seq<usize>|
                {
                    &&& p.to_multiset() == seqlens@.to_multiset()
                    &&& res.deep_view() == ff_bins(p, pack_size as int)
                },
            pack_result_ok(res.deep_view(), seqlens@, pack_size as int),
    {
        let ghost orig = seqlens@;
        match self {
            PackingAlgo::FirstFit => {
                let res = first_fit(seqlens, pack_size);
                proof {
                    lemma_pack_result_ok(orig, orig, pack_size as int);
                }
                res
            },
            PackingAlgo::FirstFitShuffle => first_fit_shuffle(seqlens, pack_size),
            PackingAlgo::FirstFitDecreasing => first_fit_decreasing(seqlens, pack_size),
        }
    }
}

} // verus!
