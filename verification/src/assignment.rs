//! Assignments of items to bins, and what it means for one to fit.
//!
//! An assignment is a sequence of bin indices, one per item: item `i` goes to
//! bin `assign[i]`.  Sizes and capacities are plain natural numbers here.

use vstd::prelude::*;
use vstd::seq_lib::{lemma_multiset_commutative, to_multiset_build};

verus! {

/// The positions that `assign` sends to `bin`, in ascending order.
pub open spec fn positions(assign: Seq<int>, bin: int) -> Seq<int>
    decreases assign.len(),
{
    if assign.len() == 0 {
        Seq::empty()
    } else {
        let earlier = positions(assign.drop_last(), bin);
        if assign.last() == bin {
            earlier.push(assign.len() - 1)
        } else {
            earlier
        }
    }
}

/// The elements of `items` that `assign` sends to `bin`, in the order in which
/// they stand in `items`.
pub open spec fn selected<T>(items: Seq<T>, assign: Seq<int>, bin: int) -> Seq<T> {
    let from = positions(assign, bin);
    Seq::new(from.len(), |j: int| items[from[j]])
}

/// The bins that `assign` makes of `items`: one sequence per bin.
pub open spec fn distribution<T>(items: Seq<T>, assign: Seq<int>, bins: nat) -> Seq<Seq<T>> {
    Seq::new(bins, |bin: int| selected(items, assign, bin))
}

/// The sum of `sizes`.
pub open spec fn total(sizes: Seq<nat>) -> nat
    decreases sizes.len(),
{
    if sizes.len() == 0 {
        0
    } else {
        total(sizes.drop_last()) + sizes.last()
    }
}

/// The space that `assign` takes up in `bin`.
pub open spec fn load(sizes: Seq<nat>, assign: Seq<int>, bin: int) -> nat {
    total(selected(sizes, assign, bin))
}

/// `assign` places every item in an existing bin and overfills none.
pub open spec fn fits(sizes: Seq<nat>, caps: Seq<nat>, assign: Seq<int>) -> bool {
    &&& assign.len() == sizes.len()
    &&& forall|i: int| 0 <= i < assign.len() ==> 0 <= #[trigger] assign[i] < caps.len()
    &&& forall|bin: int| 0 <= bin < caps.len() ==> #[trigger] load(sizes, assign, bin) <= caps[bin]
}

/// The positions sent to a bin are positions of the assignment, each is sent
/// to that bin, they ascend, and none is missing.
pub proof fn lemma_positions(assign: Seq<int>, bin: int)
    ensures
        forall|j: int|
            0 <= j < positions(assign, bin).len() ==> {
                &&& 0 <= #[trigger] positions(assign, bin)[j] < assign.len()
                &&& assign[positions(assign, bin)[j]] == bin
            },
        forall|j: int, k: int|
            0 <= j < k < positions(assign, bin).len() ==> #[trigger] positions(assign, bin)[j]
                < #[trigger] positions(assign, bin)[k],
        forall|i: int|
            0 <= i < assign.len() && #[trigger] assign[i] == bin ==> positions(
                assign,
                bin,
            ).contains(i),
    decreases assign.len(),
{
    if assign.len() > 0 {
        let shorter = assign.drop_last();
        lemma_positions(shorter, bin);
        let earlier = positions(shorter, bin);
        let all = positions(assign, bin);
        assert forall|i: int|
            0 <= i < assign.len() && #[trigger] assign[i] == bin implies all.contains(i) by {
            if i < shorter.len() {
                assert(shorter[i] == bin);
                let j = choose|j: int| 0 <= j < earlier.len() && earlier[j] == i;
                assert(all[j] == i);
            } else {
                assert(all[all.len() - 1] == i);
            }
        }
    }
}

/// Appending an item and its bin appends the item to that bin's selection and
/// leaves the other selections as they were.
pub proof fn lemma_selected_push<T>(items: Seq<T>, assign: Seq<int>, item: T, to: int, bin: int)
    requires
        assign.len() == items.len(),
    ensures
        selected(items.push(item), assign.push(to), bin) == if to == bin {
            selected(items, assign, bin).push(item)
        } else {
            selected(items, assign, bin)
        },
{
    lemma_positions(assign, bin);
    assert(assign.push(to).drop_last() == assign);
    let longer = selected(items.push(item), assign.push(to), bin);
    if to == bin {
        assert(longer == selected(items, assign, bin).push(item));
    } else {
        assert(longer == selected(items, assign, bin));
    }
}

/// With the last item taken out of its bin, that bin's load drops by the
/// item's size and the other loads stay.
pub proof fn lemma_load_step(sizes: Seq<nat>, assign: Seq<int>, bin: int)
    requires
        sizes.len() > 0,
        assign.len() == sizes.len(),
    ensures
        load(sizes, assign, bin) == load(sizes.drop_last(), assign.drop_last(), bin) + if bin
            == assign.last() {
            sizes.last()
        } else {
            0
        },
{
    let fewer = sizes.drop_last();
    let shorter = assign.drop_last();
    lemma_selected_push(fewer, shorter, sizes.last(), assign.last(), bin);
    assert(fewer.push(sizes.last()) == sizes);
    assert(shorter.push(assign.last()) == assign);
    if assign.last() == bin {
        let chosen = selected(fewer, shorter, bin);
        assert(chosen.push(sizes.last()).drop_last() == chosen);
    }
}

/// Bins that are all empty hold nothing between them.
proof fn lemma_flatten_empty_bins<T>(bins: Seq<Seq<T>>)
    requires
        forall|bin: int| 0 <= bin < bins.len() ==> (#[trigger] bins[bin]).len() == 0,
    ensures
        bins.flatten() == Seq::<T>::empty(),
    decreases bins.len(),
{
    if bins.len() > 0 {
        lemma_flatten_empty_bins(bins.drop_first());
    }
}

/// Putting one more item into one of the bins adds that item, once, to what
/// the bins hold between them.
proof fn lemma_flatten_one_more<T>(bins: Seq<Seq<T>>, to: int, item: T)
    requires
        0 <= to < bins.len(),
    ensures
        bins.update(to, bins[to].push(item)).flatten().to_multiset()
            == bins.flatten().to_multiset().insert(item),
    decreases bins.len(),
{
    let grown = bins.update(to, bins[to].push(item));
    let others = bins.drop_first();
    lemma_multiset_commutative(bins.first(), others.flatten());
    lemma_multiset_commutative(grown.first(), grown.drop_first().flatten());
    if to == 0 {
        assert(grown.drop_first() == others);
        to_multiset_build(bins.first(), item);
    } else {
        assert(grown.drop_first() == others.update(to - 1, others[to - 1].push(item)));
        lemma_flatten_one_more(others, to - 1, item);
    }
}

/// Between them the bins hold every item exactly as often as `items` does.
pub proof fn lemma_distribution_keeps_items<T>(items: Seq<T>, assign: Seq<int>, bins: nat)
    requires
        assign.len() == items.len(),
        forall|i: int| 0 <= i < assign.len() ==> 0 <= #[trigger] assign[i] < bins,
    ensures
        distribution(items, assign, bins).flatten().to_multiset() == items.to_multiset(),
    decreases items.len(),
{
    let all = distribution(items, assign, bins);
    if items.len() == 0 {
        lemma_flatten_empty_bins(all);
        assert(items == Seq::<T>::empty());
    } else {
        let fewer = items.drop_last();
        let shorter = assign.drop_last();
        let to = assign.last();
        let earlier = distribution(fewer, shorter, bins);
        lemma_distribution_keeps_items(fewer, shorter, bins);
        assert(fewer.push(items.last()) == items);
        assert(shorter.push(to) == assign);
        assert forall|bin: int| 0 <= bin < bins implies #[trigger] all[bin] == earlier.update(
            to,
            earlier[to].push(items.last()),
        )[bin] by {
            lemma_selected_push(fewer, shorter, items.last(), to, bin);
        }
        assert(all == earlier.update(to, earlier[to].push(items.last())));
        lemma_flatten_one_more(earlier, to, items.last());
        to_multiset_build(fewer, items.last());
    }
}

} // verus!
