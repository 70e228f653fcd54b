//! Shared types of the packing library: token sequences, loss masks,
//! the error taxonomy, the length histogram, and small counting helpers
//! that the packing and fill stages state their contracts with.

use vstd::prelude::*;
use vstd::multiset::Multiset;
use vstd::string::StrSliceExecFns;
use rand::seq::SliceRandom;

verus! {

/// A token sequence: input ids, position ids, and the like.
pub type Sequence = Vec<u32>;

/// Per-token flags marking which positions contribute to the training loss.
pub type LossMask = Vec<bool>;

/// The typed failures this library reports.
#[derive(Clone, Copy, Debug, PartialEq, Eq, Structural)]
pub enum PackError {
    /// A sequence is longer than the pack capacity.
    LengthExceeded,
    /// A record lacks the primary field `input_ids`.
    MissingRequiredField,
    /// The packing-algorithm selector names none of the known algorithms.
    InvalidAlgorithm,
    /// The return-format selector names none of the known formats.
    InvalidFormat,
    /// `answer_loss_only` is set without both answer boundary ids.
    InvalidOptions,
}

/// Sequences grouped by length: bucket `l` holds, in input order, every
/// sequence of length `l`. A sequence longer than the capacity is rejected
/// before insertion, so there are exactly `capacity + 1` buckets.
pub struct Histogram {
    pub buckets: Vec<Vec<Sequence>>,
}

impl Histogram {
    /// Every bucket holds only sequences of its own length, and there is a
    /// bucket for each length up to the capacity.
    pub open spec fn wf(self, cap: int) -> bool {
        &&& self.buckets@.len() == cap + 1
        &&& forall|l: int, k: int|
            0 <= l < self.buckets@.len() && 0 <= k < self.buckets@[l]@.len()
                ==> (#[trigger] self.buckets@[l]@[k])@.len() == l
    }
}

/// How many entries of `s` equal `x`.
pub open spec fn count_eq(s: Seq<usize>, x: usize) -> nat
    decreases s.len(),
{
    if s.len() == 0 {
        0
    } else {
        count_eq(s.drop_last(), x) + if s.last() == x {
            1nat
        } else {
            0nat
        }
    }
}

/// The sum of the entries of `s`.
pub open spec fn seq_sum(s: Seq<usize>) -> int
    decreases s.len(),
{
    if s.len() == 0 {
        0
    } else {
        seq_sum(s.drop_last()) + s.last()
    }
}

pub proof fn lemma_count_eq_push(s: Seq<usize>, v: usize, x: usize)
    ensures
        count_eq(s.push(v), x) == count_eq(s, x) + if v == x {
            1nat
        } else {
            0nat
        },
{
    assert(s.push(v).drop_last() =~= s);
}

pub proof fn lemma_count_eq_add(s: Seq<usize>, t: Seq<usize>, x: usize)
    ensures
        count_eq(s + t, x) == count_eq(s, x) + count_eq(t, x),
    decreases t.len(),
{
    if t.len() == 0 {
        assert(s + t =~= s);
    } else {
        lemma_count_eq_add(s, t.drop_last(), x);
        assert((s + t).drop_last() =~= s + t.drop_last());
    }
}

/// `count_eq` agrees with the multiset count.
pub proof fn lemma_count_eq_multiset(s: Seq<usize>, x: usize)
    ensures
        count_eq(s, x) == s.to_multiset().count(x),
    decreases s.len(),
{
    broadcast use vstd::seq_lib::group_to_multiset_ensures;

    if s.len() == 0 {
        assert(s.to_multiset() =~= Multiset::empty());
    } else {
        lemma_count_eq_multiset(s.drop_last(), x);
        assert(s.drop_last().push(s.last()) =~= s);
    }
}

/// Sequences with equal multisets agree on every `count_eq`.
pub proof fn lemma_count_eq_congruent(s: Seq<usize>, t: Seq<usize>, x: usize)
    requires
        s.to_multiset() == t.to_multiset(),
    ensures
        count_eq(s, x) == count_eq(t, x),
{
    lemma_count_eq_multiset(s, x);
    lemma_count_eq_multiset(t, x);
}

/// ASCII lowercase of one character: 'A'..'Z' map to 'a'..'z', everything
/// else is unchanged.
pub open spec fn ascii_lower_char(c: char) -> char {
    if 65 <= c as u32 && c as u32 <= 90 {
        (((c as u32) + 32) as u8) as char
    } else {
        c
    }
}

/// Character-wise ASCII lowercase of a character sequence.
pub open spec fn ascii_lower(s: Seq<char>) -> Seq<char> {
    Seq::new(s.len(), |i: int| ascii_lower_char(s[i]))
}

fn lower_char(c: char) -> (d: char)
    ensures
        d == ascii_lower_char(c),
{
    let u = c as u32;
    if 65 <= u && u <= 90 {
        ((u + 32) as u8) as char
    } else {
        c
    }
}

/// Character-wise string equality.
pub(crate) fn str_eq(a: &str, b: &str) -> (r: bool)
    ensures
        r == (a@ == b@),
{
    let n = a.unicode_len();
    let m = b.unicode_len();
    if n != m {
        return false;
    }
    let mut i: usize = 0;
    while i < n
        invariant
            i <= n,
            n == a@.len(),
            n == b@.len(),
            forall|j: int| 0 <= j < i ==> a@[j] == b@[j],
        decreases n - i,
    {
        if a.get_char(i) != b.get_char(i) {
            return false;
        }
        i = i + 1;
    }
    proof {
        assert(a@ =~= b@);
    }
    true
}

/// Whether `s`, taken to ASCII lowercase, equals `pat`.
pub(crate) fn eq_lower(s: &str, pat: &str) -> (r: bool)
    ensures
        r == (ascii_lower(s@) == pat@),
{
    let n = s.unicode_len();
    let m = pat.unicode_len();
    if n != m {
        return false;
    }
    let mut i: usize = 0;
    while i < n
        invariant
            i <= n,
            n == s@.len(),
            n == pat@.len(),
            forall|j: int| 0 <= j < i ==> ascii_lower_char(s@[j]) == pat@[j],
        decreases n - i,
    {
        if lower_char(s.get_char(i)) != pat.get_char(i) {
            proof {
                assert(ascii_lower(s@)[i as int] != pat@[i as int]);
            }
            return false;
        }
        i = i + 1;
    }
    proof {
        assert(ascii_lower(s@) =~= pat@);
    }
    true
}

/// Relies on `rand::seq::SliceRandom::shuffle` (with a generator from
/// `rand::rng`): an in-place Fisher-Yates permutation of the elements, so
/// the contents are unchanged as a multiset and the length is kept.
#[verifier::external_body]
pub(crate) fn shuffle_vec<T: DeepView>(v: &mut Vec<T>)
    ensures
        final(v).deep_view().to_multiset() == old(v).deep_view().to_multiset(),
        final(v)@.len() == old(v)@.len(),
{
    let mut rng = rand::rng();
    v.shuffle(&mut rng);
}

} // verus!
