//! What a caller may conclude from an outcome of [`bin_pack`](crate::pack::bin_pack).
//!
//! The bins hold clones of the items.  What can be said of the clones depends
//! on what cloning does to an item, so where a statement speaks of the items
//! in the bins themselves, it names what it needs of `Clone`.

use vstd::prelude::*;
use crate::assignment::{
    distribution, lemma_distribution_keeps_items, lemma_positions, load, positions, selected, total,
};
use crate::item::{sizes, Item};
use crate::pack::{clones_of, contents, packed, NotPossible};
use crate::search::{lemma_packing_fits, packing};

verus! {

/// A clone of an item has the size of the item.
pub open spec fn clone_keeps_size<I: Item + Clone>() -> bool {
    forall|item: I, copy: I| #[trigger] cloned(item, copy) ==> copy.spec_size() == item.spec_size()
}

/// A clone of an item equals the item.
pub open spec fn clone_is_exact<I: Clone>() -> bool {
    forall|item: I, copy: I| #[trigger] cloned(item, copy) ==> copy == item
}

/// Bare sizes are cloned exactly.
pub proof fn lemma_bare_sizes_clone_exactly()
    ensures
        clone_is_exact::<usize>(),
        clone_keeps_size::<usize>(),
{
}

/// No bin of a successful outcome holds more than its capacity.
pub proof fn lemma_bins_within_capacity<I: Item + Clone>(
    items: Seq<I>,
    caps: Seq<nat>,
    bins: Vec<Vec<I>>,
)
    requires
        packed(items, caps, Ok(bins)),
        clone_keeps_size::<I>(),
    ensures
        forall|bin: int|
            0 <= bin < caps.len() ==> total(sizes((#[trigger] bins@[bin])@)) <= caps[bin],
{
    let assign = packing(sizes(items), caps);
    lemma_packing_fits(sizes(items), caps);
    assert forall|bin: int| 0 <= bin < caps.len() implies total(sizes((#[trigger] bins@[bin])@))
        <= caps[bin] by {
        lemma_positions(assign, bin);
        assert(clones_of(selected(items, assign, bin), bins@[bin]@));
        assert(sizes(bins@[bin]@) == selected(sizes(items), assign, bin));
        assert(load(sizes(items), assign, bin) <= caps[bin]);
    }
}

/// Between them the bins of a successful outcome hold every item exactly as
/// often as the input does: none is left out and none is placed twice.
pub proof fn lemma_bins_hold_every_item<I: Item + Clone>(
    items: Seq<I>,
    caps: Seq<nat>,
    bins: Vec<Vec<I>>,
)
    requires
        packed(items, caps, Ok(bins)),
        clone_is_exact::<I>(),
    ensures
        contents(bins).flatten().to_multiset() == items.to_multiset(),
{
    let assign = packing(sizes(items), caps);
    lemma_packing_fits(sizes(items), caps);
    assert forall|bin: int| 0 <= bin < caps.len() implies #[trigger] contents(bins)[bin]
        == distribution(items, assign, caps.len())[bin] by {
        assert(clones_of(selected(items, assign, bin), bins@[bin]@));
    }
    assert(contents(bins) == distribution(items, assign, caps.len()));
    lemma_distribution_keeps_items(items, assign, caps.len());
}

/// Within a bin of a successful outcome the items stand in the order of the
/// input: of two items of one bin, the earlier was cloned from an earlier
/// position of the input than the later.  The two positions, both of which
/// the packing sends to that bin, are returned.
pub proof fn lemma_bins_keep_order<I: Item + Clone>(
    items: Seq<I>,
    caps: Seq<nat>,
    bins: Vec<Vec<I>>,
    bin: int,
    earlier: int,
    later: int,
) -> (from: (int, int))
    requires
        packed(items, caps, Ok(bins)),
        0 <= bin < caps.len(),
        0 <= earlier < later < bins@[bin]@.len(),
    ensures
        0 <= from.0 < from.1 < items.len(),
        packing(sizes(items), caps)[from.0] == bin,
        packing(sizes(items), caps)[from.1] == bin,
        cloned(items[from.0], bins@[bin]@[earlier]),
        cloned(items[from.1], bins@[bin]@[later]),
{
    let assign = packing(sizes(items), caps);
    lemma_packing_fits(sizes(items), caps);
    lemma_positions(assign, bin);
    assert(clones_of(selected(items, assign, bin), bins@[bin]@));
    let taken = positions(assign, bin);
    (taken[earlier], taken[later])
}

/// Two outcomes for the same items and capacities agree: both fail or both
/// succeed, with bins of the same lengths; and where cloning is exact, with
/// the same items in the same places.
pub proof fn lemma_outcome_determined<I: Item + Clone>(
    items: Seq<I>,
    caps: Seq<nat>,
    first: Result<Vec<Vec<I>>, NotPossible>,
    second: Result<Vec<Vec<I>>, NotPossible>,
)
    requires
        packed(items, caps, first),
        packed(items, caps, second),
    ensures
        first is Err <==> second is Err,
        first is Ok ==> {
            let ours = contents(first->Ok_0);
            let theirs = contents(second->Ok_0);
            &&& ours.len() == theirs.len()
            &&& forall|bin: int|
                0 <= bin < ours.len() ==> (#[trigger] ours[bin]).len() == theirs[bin].len()
            &&& clone_is_exact::<I>() ==> ours == theirs
        },
{
    if first is Ok {
        let assign = packing(sizes(items), caps);
        let ours = contents(first->Ok_0);
        let theirs = contents(second->Ok_0);
        assert forall|bin: int| 0 <= bin < ours.len() implies (#[trigger] ours[bin]).len()
            == theirs[bin].len() && (clone_is_exact::<I>() ==> ours[bin] == theirs[bin]) by {
            assert(clones_of(selected(items, assign, bin), (first->Ok_0)@[bin]@));
            assert(clones_of(selected(items, assign, bin), (second->Ok_0)@[bin]@));
        }
    }
}

} // verus!
