//! The composer layout: per pack, the packed tokens and their position
//! ids, collected eagerly into two parallel lists indexed by pack.

use vstd::prelude::*;
use crate::strategy::common::{
    all_bin_pieces, fill_packs, finalize_positions, finalize_tokens, lemma_all_bin_pieces_len,
    pack_positions_of, pool_after_bins, pool_covers, SequencePool,
};
use crate::{ComposerOutput, ReturnFormat};

verus! {

/// What the composer layout holds for a given starting pool and
/// assignment: pack `i` carries the finalized concatenation of bin `i`'s
/// pieces, and the matching position counters.
pub open spec fn composer_output_ok(
    out: ComposerOutput,
    pool: Seq<Seq<Seq<u32>>>,
    bins: Seq<Seq<usize>>,
    pad: Option<u32>,
    cap: int,
) -> bool {
    let pieces = all_bin_pieces(pool, bins);
    &&& out.tokens@.len() == bins.len()
    &&& out.positions_ids@.len() == bins.len()
    &&& forall|i: int|
        0 <= i < bins.len() ==> (#[trigger] out.tokens@[i])@ == finalize_tokens(
            pieces[i].flatten(),
            pad,
            cap,
        )
    &&& forall|i: int|
        0 <= i < bins.len() ==> (#[trigger] out.positions_ids@[i])@ == finalize_positions(
            pack_positions_of(pieces[i]),
            pad,
            cap,
        )
}

/// Fill every pack and collect the two parallel lists of the composer
/// layout, in pack order.
pub(crate) fn composer_packing_strategy(
    ifile_handles: &mut SequencePool,
    assignments: Vec<Vec<usize>>,
    pack_size: usize,
    pad_id: Option<u32>,
) -> (r: ReturnFormat)
    requires
        old(ifile_handles).wf(pack_size as int),
        pool_covers(old(ifile_handles).tokens(), assignments.deep_view(), pack_size as int),
        pack_size <= u32::MAX,
    ensures
        final(ifile_handles).wf(pack_size as int),
        final(ifile_handles).tokens() == pool_after_bins(
            old(ifile_handles).tokens(),
            assignments.deep_view(),
        ),
        r matches ReturnFormat::Composer(out) && composer_output_ok(
            out,
            old(ifile_handles).tokens(),
            assignments.deep_view(),
            pad_id,
            pack_size as int,
        ),
{
    let ghost pool0 = ifile_handles.tokens();
    let (tokens, positions_ids) = fill_packs(ifile_handles, &assignments, pack_size, pad_id);
    proof {
        lemma_all_bin_pieces_len(pool0, assignments.deep_view());
    }
    ReturnFormat::Composer(ComposerOutput { tokens, positions_ids })
}

} // verus!
