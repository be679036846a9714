//! One region of the partition.

use vstd::prelude::*;

verus! {

/// A rectangle `(x1, y1, x2, y2)`: its near corner, then its far corner.
pub type Rect = (i32, i32, i32, i32);

/// One region of the partition, as it is stored in a tree.
#[derive(Clone, Debug, Copy, PartialEq)]
pub struct DungeonNode {
    /// The region this node owns; absent only while the node is blank.
    pub coords: Option<Rect>,
    /// The index of the slot that holds this node.
    pub node_id: usize,
    /// The slot of the first child.
    pub left: Option<usize>,
    /// The slot of the second child.
    pub right: Option<usize>,
    /// The room carved inside the region, if it has one.
    pub room: Option<Rect>,
}

impl DungeonNode {
    /// A node is a leaf when it names no child.
    pub open spec fn is_leaf(self) -> bool {
        self.left is None && self.right is None
    }

    /// A blank node: no region, no room, no children, identifier 0.
    pub fn new() -> (node: DungeonNode)
        ensures
            node == (DungeonNode { coords: None, node_id: 0, left: None, right: None, room: None }),
    {
        DungeonNode { coords: None, left: None, right: None, room: None, node_id: 0 }
    }
}

} // verus!
