//! The iterator layout: the same fill logic as the composer layout, but
//! produced as a finite, single-pass sequence of per-pack records instead
//! of two eagerly materialized parallel lists.

use vstd::prelude::*;
use crate::common::Sequence;
use crate::strategy::common::{
    all_bin_pieces, fill_packs, finalize_positions, finalize_tokens, lemma_all_bin_pieces_len,
    pack_positions_of, pool_after_bins, pool_covers, SequencePool,
};
use crate::ReturnFormat;

verus! {

/// One pack of the iterator layout.
pub struct PackRecord {
    pub tokens: Sequence,
    pub position_ids: Sequence,
}

/// A finite, single-pass sequence of per-pack records: records before the
/// cursor have been yielded and cannot be revisited.
pub struct ReturnIter {
    pub records: Vec<PackRecord>,
    pub cursor: usize,
}

impl ReturnIter {
    pub open spec fn wf(self) -> bool {
        self.cursor <= self.records@.len()
    }

    /// The records not yet yielded.
    pub open spec fn remaining(self) -> Seq<PackRecord> {
        self.records@.skip(self.cursor as int)
    }

    /// How many records are left, without consuming any.
    pub fn len(&self) -> (n: usize)
        requires
            self.wf(),
        ensures
            n == self.remaining().len(),
    {
        self.records.len() - self.cursor
    }

    /// Yield the next record, or `None` once the iterator is exhausted.
    pub fn next(&mut self) -> (r: Option<PackRecord>)
        requires
            old(self).wf(),
        ensures
            final(self).wf(),
            final(self).records == old(self).records,
            old(self).remaining().len() == 0 ==> r is None && final(self).cursor == old(
                self,
            ).cursor,
            old(self).remaining().len() > 0 ==> {
                &&& final(self).cursor == old(self).cursor + 1
                &&& r matches Some(rec) && rec.tokens@ == old(self).records@[old(
                    self,
                ).cursor as int].tokens@ && rec.position_ids@ == old(self).records@[old(
                    self,
                ).cursor as int].position_ids@
            },
    {
        if self.cursor < self.records.len() {
            let rec = &self.records[self.cursor];
            let out = PackRecord { tokens: rec.tokens.clone(), position_ids: rec.position_ids.clone() };
            self.cursor = self.cursor + 1;
            Some(out)
        } else {
            None
        }
    }
}

/// What the iterator layout holds: the same packs as the composer layout,
/// one record per pack, none yielded yet.
pub open spec fn iterator_output_ok(
    it: ReturnIter,
    pool: Seq<Seq<Seq<u32>>>,
    bins: Seq<Seq<usize>>,
    pad: Option<u32>,
    cap: int,
) -> bool {
    let pieces = all_bin_pieces(pool, bins);
    &&& it.cursor == 0
    &&& it.records@.len() == bins.len()
    &&& forall|i: int|
        0 <= i < bins.len() ==> (#[trigger] it.records@[i]).tokens@ == finalize_tokens(
            pieces[i].flatten(),
            pad,
            cap,
        )
    &&& forall|i: int|
        0 <= i < bins.len() ==> (#[trigger] it.records@[i]).position_ids@ == finalize_positions(
            pack_positions_of(pieces[i]),
            pad,
            cap,
        )
}

/// Fill every pack and produce the single-pass record sequence, in pack
/// order.
pub(crate) fn iterator_packing_strategy(
    ifile_handles: &mut SequencePool,
    assignments: Vec<Vec<usize>>,
    pack_size: usize,
    pad_id: Option<u32>,
) -> (r: ReturnFormat)
    requires
        old(ifile_handles).wf(pack_size as int),
        pool_covers(old(ifile_handles).tokens(), assignments.deep_view(), pack_size as int),
        pack_size <= u32::MAX,
    ensures
        final(ifile_handles).wf(pack_size as int),
        final(ifile_handles).tokens() == pool_after_bins(
            old(ifile_handles).tokens(),
            assignments.deep_view(),
        ),
        r matches ReturnFormat::Iterator(it) && iterator_output_ok(
            it,
            old(ifile_handles).tokens(),
            assignments.deep_view(),
            pad_id,
            pack_size as int,
        ),
{
    let ghost pool0 = ifile_handles.tokens();
    let ghost bins = assignments.deep_view();
    let (mut tokens, mut positions) = fill_packs(ifile_handles, &assignments, pack_size, pad_id);
    proof {
        lemma_all_bin_pieces_len(pool0, bins);
    }
    let n = tokens.len();
    let mut records: Vec<PackRecord> = Vec::new();
    let mut i: usize = 0;
    while i < n
        invariant
            i <= n,
            n == tokens@.len(),
            n == positions@.len(),
            records@.len() == i,
            forall|k: int|
                0 <= k < i ==> (#[trigger] records@[k]).tokens@ == tokens@[k]@
                    && records@[k].position_ids@ == positions@[k]@,
        decreases n - i,
    {
        let rec = PackRecord {
            tokens: tokens[i].clone(),
            position_ids: positions[i].clone(),
        };
        records.push(rec);
        i = i + 1;
    }
    ReturnFormat::Iterator(ReturnIter { records, cursor: 0 })
}

} // verus!
