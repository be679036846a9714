//! The conditions under which a tree operation gives up.

use vstd::prelude::*;

verus! {

/// Why an operation on a tree could not be carried out.
#[derive(Debug, Clone, Copy, PartialEq, Eq)]
pub enum TreeError {
    /// A root was offered to a tree that already holds nodes.
    RootErr,
    /// The index names no occupied slot.
    IndexError,
    /// The region is too small to be divided.
    SubDungeonSplitError,
    /// The operation needs a leaf, or a pair of sibling leaves, and found none.
    NoLeavesError,
    /// A room was expected where there is none.
    RoomIsNoneError,
}

} // verus!
