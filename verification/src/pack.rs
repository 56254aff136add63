//! The packer.

use vstd::prelude::*;
use crate::assignment::{fits, lemma_selected_push, selected};
use crate::item::{sizes, Item};
use crate::search::{
    admits, highest_admitting, lemma_highest_admitting, lemma_packable_step, lemma_packing_fits,
    packable, packing, reduced,
};

verus! {

/// The items cannot be distributed over the bins.
#[derive(Debug, PartialEq, Eq)]
pub struct NotPossible;

/// Free space as natural numbers, bin by bin.
pub open spec fn capacities(free_space: Seq<usize>) -> Seq<nat> {
    Seq::new(free_space.len(), |bin: int| free_space[bin] as nat)
}

/// What each bin holds, bin by bin.
pub open spec fn contents<I>(bins: Vec<Vec<I>>) -> Seq<Seq<I>> {
    Seq::new(bins@.len(), |bin: int| bins@[bin]@)
}

/// `copies` holds a clone of each of `items`, in the same order.
pub open spec fn clones_of<I: Clone>(items: Seq<I>, copies: Seq<I>) -> bool {
    &&& copies.len() == items.len()
    &&& forall|j: int| 0 <= j < copies.len() ==> cloned(items[j], #[trigger] copies[j])
}

/// Each of `bins` holds clones of the items that `assign` sends to it, in
/// the order in which they stand in `items`.
pub open spec fn arranged<I: Clone>(items: Seq<I>, assign: Seq<int>, bins: Seq<Vec<I>>) -> bool {
    forall|bin: int|
        0 <= bin < bins.len() ==> clones_of(selected(items, assign, bin), (#[trigger] bins[bin])@)
}

/// `bins` is `count` bins with nothing in them.
pub open spec fn empty_bins<I>(bins: Seq<Vec<I>>, count: nat) -> bool {
    &&& bins.len() == count
    &&& forall|bin: int| 0 <= bin < bins.len() ==> (#[trigger] bins[bin])@.len() == 0
}

/// `outcome` is the answer to packing `items` into bins of capacities `caps`:
/// a failure where no assignment fits, and otherwise one bin per capacity,
/// filled as the packing says.
pub open spec fn packed<I: Item + Clone>(
    items: Seq<I>,
    caps: Seq<nat>,
    outcome: Result<Vec<Vec<I>>, NotPossible>,
) -> bool {
    match outcome {
        Ok(bins) => {
            &&& packable(sizes(items), caps)
            &&& bins@.len() == caps.len()
            &&& arranged(items, packing(sizes(items), caps), bins@)
        },
        Err(_) => !packable(sizes(items), caps),
    }
}

/// Distributes `values` over bins with the given free space so that no bin
/// is overfilled, or answers [`NotPossible`] where that cannot be done.
///
/// The last item goes to the highest-numbered bin from which the search for
/// the items before it succeeds.  Each bin of the result holds clones of its
/// items in the order of `values`.  The free space serves as scratch space
/// during the search and is back at its initial values on return, whatever
/// the outcome.
pub fn bin_pack<I: Item + Clone>(values: &[I], free_space: &mut [usize]) -> (outcome: Result<
    Vec<Vec<I>>,
    NotPossible,
>)
    ensures
        final(free_space)@ == old(free_space)@,
        packed(values@, capacities(old(free_space)@), outcome),
        values@.len() == 0 ==> (outcome matches Ok(bins) && empty_bins(
            bins@,
            old(free_space)@.len(),
        )),
    decreases values@.len(),
{
    let ghost caps = capacities(free_space@);
    let ghost all = sizes(values@);
    let count = values.len();
    if count == 0 {
        let empty = vec![Vec::new(); free_space.len()];
        proof {
            assert(fits(all, caps, Seq::<int>::empty()));
        }
        return Ok(empty);
    }
    let to_fit = &values[count - 1];
    let rest = &values[0..count - 1];
    let size = to_fit.size();
    proof {
        assert(sizes(rest@) == all.drop_last());
        assert(rest@.push(*to_fit) == values@);
    }
    let mut bin = free_space.len();
    while bin > 0
        invariant
            bin <= free_space@.len(),
            free_space@ == old(free_space)@,
            caps == capacities(old(free_space)@),
            all == sizes(values@),
            all.len() > 0,
            all.last() == size,
            sizes(rest@) == all.drop_last(),
            rest@.push(*to_fit) == values@,
            forall|other: int| bin <= other < caps.len() ==> !admits(all, caps, other),
        decreases bin,
    {
        bin -= 1;
        if size <= free_space[bin] {
            free_space[bin] -= size;
            let ghost left = reduced(caps, bin as int, size as nat);
            assert(capacities(free_space@) == left);
            let found = bin_pack(rest, free_space);
            free_space[bin] += size;
            assert(free_space@ == old(free_space)@);
            if let Ok(mut assignment) = found {
                let ghost before = assignment@;
                let ghost shorter = packing(all.drop_last(), left);
                assignment[bin].push(to_fit.clone());
                proof {
                    assert(admits(all, caps, bin as int));
                    lemma_packable_step(all, caps);
                    lemma_highest_admitting(all, caps, caps.len() as int);
                    assert(highest_admitting(all, caps, caps.len() as int) == bin);
                    assert(packing(all, caps) == shorter.push(bin as int));
                    lemma_packing_fits(all.drop_last(), left);
                    assert forall|other: int| 0 <= other < caps.len() implies clones_of(
                        selected(values@, packing(all, caps), other),
                        (#[trigger] assignment@[other])@,
                    ) by {
                        lemma_selected_push(rest@, shorter, *to_fit, bin as int, other);
                        assert(clones_of(selected(rest@, shorter, other), before[other]@));
                    }
                }
                return Ok(assignment);
            }
        }
    }
    proof {
        lemma_packable_step(all, caps);
    }
    Err(NotPossible)
}

} // verus!
