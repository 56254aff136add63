//! What the packer needs to know about an item: its size.

use vstd::prelude::*;

verus! {

/// Anything that occupies a fixed amount of space in a bin.
pub trait Item {
    /// The space the item occupies.
    spec fn spec_size(&self) -> nat;

    /// The space the item occupies.
    fn size(&self) -> (size: usize)
        ensures
            size == self.spec_size(),
    ;
}

/// A bare size is an item of that size.
impl Item for usize {
    open spec fn spec_size(&self) -> nat {
        *self as nat
    }

    fn size(&self) -> (size: usize) {
        *self
    }
}

/// A size paired with a payload; the payload is carried along untouched.
impl<T> Item for (usize, T) {
    open spec fn spec_size(&self) -> nat {
        self.0 as nat
    }

    fn size(&self) -> (size: usize) {
        self.0
    }
}

/// The sizes of `items`, position by position.
pub open spec fn sizes<I: Item>(items: Seq<I>) -> Seq<nat> {
    Seq::new(items.len(), |i: int| items[i].spec_size())
}

} // verus!
