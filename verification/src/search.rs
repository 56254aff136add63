//! Which assignment the packer settles on.
//!
//! The last item goes to the highest-numbered bin from which the items before
//! it can still be packed; those are then packed in the same way into what is
//! left.

use vstd::prelude::*;
use crate::assignment::{fits, lemma_load_step, load};

verus! {

/// Some assignment of `sizes` to bins of capacities `caps` fits.
pub open spec fn packable(sizes: Seq<nat>, caps: Seq<nat>) -> bool {
    exists|assign: Seq<int>| fits(sizes, caps, assign)
}

/// The capacities left once an item of `size` has been put into `bin`.
pub open spec fn reduced(caps: Seq<nat>, bin: int, size: nat) -> Seq<nat> {
    caps.update(bin, (caps[bin] - size) as nat)
}

/// `bin` has room for the last item, and the items before it can be packed
/// into what is then left.
pub open spec fn admits(sizes: Seq<nat>, caps: Seq<nat>, bin: int) -> bool {
    &&& 0 <= bin < caps.len()
    &&& sizes.last() <= caps[bin]
    &&& packable(sizes.drop_last(), reduced(caps, bin, sizes.last()))
}

/// The highest bin below `limit` that admits the last item, or -1 if none does.
pub open spec fn highest_admitting(sizes: Seq<nat>, caps: Seq<nat>, limit: int) -> int
    decreases limit,
{
    if limit <= 0 {
        -1
    } else if admits(sizes, caps, limit - 1) {
        limit - 1
    } else {
        highest_admitting(sizes, caps, limit - 1)
    }
}

/// The assignment the packer settles on where `sizes` can be packed into
/// `caps`.
pub open spec fn packing(sizes: Seq<nat>, caps: Seq<nat>) -> Seq<int>
    decreases sizes.len(),
{
    if sizes.len() == 0 {
        Seq::empty()
    } else {
        let bin = highest_admitting(sizes, caps, caps.len() as int);
        if bin < 0 {
            Seq::empty()
        } else {
            packing(sizes.drop_last(), reduced(caps, bin, sizes.last())).push(bin)
        }
    }
}

/// An assignment fits exactly when the bin of the last item has room for it
/// and the rest of the assignment fits into what is then left.
pub proof fn lemma_fits_step(sizes: Seq<nat>, caps: Seq<nat>, assign: Seq<int>)
    requires
        sizes.len() > 0,
        assign.len() == sizes.len(),
        0 <= assign.last() < caps.len(),
    ensures
        fits(sizes, caps, assign) <==> {
            &&& sizes.last() <= caps[assign.last()]
            &&& fits(
                sizes.drop_last(),
                reduced(caps, assign.last(), sizes.last()),
                assign.drop_last(),
            )
        },
{
    let bin = assign.last();
    let fewer = sizes.drop_last();
    let shorter = assign.drop_last();
    let left = reduced(caps, bin, sizes.last());
    assert forall|other: int| 0 <= other < caps.len() implies load(sizes, assign, other) == load(
        fewer,
        shorter,
        other,
    ) + if other == bin {
        sizes.last()
    } else {
        0
    } by {
        lemma_load_step(sizes, assign, other);
    }
    if fits(sizes, caps, assign) {
        assert(load(sizes, assign, bin) <= caps[bin]);
        assert forall|other: int| 0 <= other < left.len() implies #[trigger] load(
            fewer,
            shorter,
            other,
        ) <= left[other] by {
            assert(load(sizes, assign, other) <= caps[other]);
        }
        assert forall|i: int| 0 <= i < shorter.len() implies 0 <= #[trigger] shorter[i]
            < left.len() by {
            assert(shorter[i] == assign[i]);
        }
    }
    if sizes.last() <= caps[bin] && fits(fewer, left, shorter) {
        assert forall|other: int| 0 <= other < caps.len() implies #[trigger] load(
            sizes,
            assign,
            other,
        ) <= caps[other] by {
            assert(load(fewer, shorter, other) <= left[other]);
        }
        assert forall|i: int| 0 <= i < assign.len() implies 0 <= #[trigger] assign[i]
            < caps.len() by {
            if i < shorter.len() {
                assert(shorter[i] == assign[i]);
            }
        }
    }
}

/// A non-empty sequence of items can be packed exactly when some bin admits
/// the last of them.
pub proof fn lemma_packable_step(sizes: Seq<nat>, caps: Seq<nat>)
    requires
        sizes.len() > 0,
    ensures
        packable(sizes, caps) <==> exists|bin: int| admits(sizes, caps, bin),
{
    if packable(sizes, caps) {
        let assign = choose|assign: Seq<int>| fits(sizes, caps, assign);
        assert(0 <= assign[assign.len() - 1] < caps.len());
        lemma_fits_step(sizes, caps, assign);
        assert(admits(sizes, caps, assign.last()));
    }
    if exists|bin: int| admits(sizes, caps, bin) {
        let bin = choose|bin: int| admits(sizes, caps, bin);
        let left = reduced(caps, bin, sizes.last());
        let shorter = choose|shorter: Seq<int>| fits(sizes.drop_last(), left, shorter);
        let assign = shorter.push(bin);
        assert(assign.drop_last() == shorter);
        lemma_fits_step(sizes, caps, assign);
        assert(fits(sizes, caps, assign));
    }
}

/// What `highest_admitting` finds admits the last item, lies below the
/// limit, and no bin between it and the limit admits the last item.
pub proof fn lemma_highest_admitting(sizes: Seq<nat>, caps: Seq<nat>, limit: int)
    ensures
        -1 <= highest_admitting(sizes, caps, limit),
        highest_admitting(sizes, caps, limit) >= 0 ==> {
            &&& highest_admitting(sizes, caps, limit) < limit
            &&& admits(sizes, caps, highest_admitting(sizes, caps, limit))
        },
        forall|bin: int|
            0 <= bin < limit && highest_admitting(sizes, caps, limit) < bin ==> !admits(
                sizes,
                caps,
                bin,
            ),
    decreases limit,
{
    if limit > 0 {
        lemma_highest_admitting(sizes, caps, limit - 1);
    }
}

/// The packing fits wherever anything fits.
pub proof fn lemma_packing_fits(sizes: Seq<nat>, caps: Seq<nat>)
    requires
        packable(sizes, caps),
    ensures
        fits(sizes, caps, packing(sizes, caps)),
    decreases sizes.len(),
{
    if sizes.len() == 0 {
        let assign = choose|assign: Seq<int>| fits(sizes, caps, assign);
        assert(assign == packing(sizes, caps));
    } else {
        lemma_packable_step(sizes, caps);
        lemma_highest_admitting(sizes, caps, caps.len() as int);
        let bin = highest_admitting(sizes, caps, caps.len() as int);
        let left = reduced(caps, bin, sizes.last());
        let shorter = packing(sizes.drop_last(), left);
        lemma_packing_fits(sizes.drop_last(), left);
        assert(shorter.push(bin).drop_last() == shorter);
        lemma_fits_step(sizes, caps, shorter.push(bin));
    }
}

/// `ours` and `theirs` agree after position `at`, where `ours` names the
/// higher bin.
pub open spec fn parts_above(ours: Seq<int>, theirs: Seq<int>, at: int) -> bool {
    &&& 0 <= at < ours.len()
    &&& theirs[at] < ours[at]
    &&& forall|later: int| at < later < ours.len() ==> #[trigger] ours[later] == theirs[later]
}

/// Where `ours` and `theirs` last differ, `ours` names the higher bin.
pub open spec fn outranks(ours: Seq<int>, theirs: Seq<int>) -> bool {
    exists|at: int| parts_above(ours, theirs, at)
}

/// The packing outranks every other assignment that fits: it is the first
/// that a search from the last item to the first, and from the highest bin to
/// the lowest, comes upon.
pub proof fn lemma_packing_outranks(sizes: Seq<nat>, caps: Seq<nat>, other: Seq<int>)
    requires
        fits(sizes, caps, other),
        other != packing(sizes, caps),
    ensures
        outranks(packing(sizes, caps), other),
    decreases sizes.len(),
{
    let ours = packing(sizes, caps);
    lemma_packing_fits(sizes, caps);
    if sizes.len() > 0 {
        let last = sizes.len() - 1;
        let bin = highest_admitting(sizes, caps, caps.len() as int);
        assert(0 <= other[last] < caps.len());
        lemma_fits_step(sizes, caps, other);
        assert(admits(sizes, caps, other[last]));
        lemma_highest_admitting(sizes, caps, caps.len() as int);
        let left = reduced(caps, bin, sizes.last());
        let shorter = packing(sizes.drop_last(), left);
        assert(ours == shorter.push(bin));
        if other[last] < bin {
            assert(parts_above(ours, other, last));
        } else {
            if other.drop_last() == shorter {
                assert(other == ours);
            }
            lemma_packing_outranks(sizes.drop_last(), left, other.drop_last());
            let at = choose|at: int| parts_above(shorter, other.drop_last(), at);
            assert forall|later: int| at < later < ours.len() implies #[trigger] ours[later]
                == other[later] by {
                if later < last {
                    assert(shorter[later] == other.drop_last()[later]);
                }
            }
            assert(parts_above(ours, other, at));
        }
    } else {
        assert(other == ours);
    }
}

} // verus!
