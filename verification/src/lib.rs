//! Exact bin packing by exhaustive backtracking.
//!
//! [`bin_pack`] decides whether a sequence of sized items can be distributed
//! over bins of given free capacities, and builds the distribution when one
//! exists.  It answers [`NotPossible`] exactly when no distribution exists.
//!
//! - [`item`]: what can be packed, anything with a size.
//! - [`assignment`]: assignments of items to bins, and when one fits.
//! - [`search`]: which of the fitting assignments the packer settles on.
//! - [`pack`]: the packer and its contract.
//! - [`guarantees`]: what follows from the contract for the bins handed back.

pub mod assignment;
pub mod guarantees;
pub mod item;
pub mod pack;
pub mod search;

pub use item::Item;
pub use pack::{bin_pack, NotPossible};
