//! Carving a room inside each leaf region.

use vstd::prelude::*;
use crate::error::TreeError;
use crate::geometry::on_grid;
use crate::node::{DungeonNode, Rect};
use crate::tree::{nodes_valid, DungeonTree};

verus! {

/// Whether a region is too narrow or too low to hold a room: an extent of
/// three units or less leaves no space for the margin.
pub open spec fn too_small(bounds: Rect) -> bool {
    bounds.2 - bounds.0 <= 3 || bounds.3 - bounds.1 <= 3
}

/// The room of a region: the region set in by `offsets.0` from the west,
/// `offsets.1` from the north, `offsets.2` from the east and `offsets.3` from
/// the south; none where the region is too small.
pub open spec fn room_of(bounds: Rect, offsets: Rect) -> Option<Rect> {
    if too_small(bounds) {
        None
    } else {
        Some(
            (
                (bounds.0 + offsets.0) as i32,
                (bounds.1 + offsets.1) as i32,
                (bounds.2 - offsets.2) as i32,
                (bounds.3 - offsets.3) as i32,
            ),
        )
    }
}

/// Whether the corners of the room of a region lie on the grid.
pub open spec fn room_fits(bounds: Rect, offsets: Rect) -> bool {
    too_small(bounds) || (on_grid(bounds.0 + offsets.0) && on_grid(bounds.1 + offsets.1)
        && on_grid(bounds.2 - offsets.2) && on_grid(bounds.3 - offsets.3))
}

/// Whether every leaf owns a region whose room lies on the grid.
pub open spec fn rooms_fit(nodes: Seq<Option<DungeonNode>>, offsets: Rect) -> bool {
    forall|i: int|
        0 <= i < nodes.len() ==> (#[trigger] nodes[i] matches Some(n) ==> (n.is_leaf()
            ==> n.coords is Some && room_fits(n.coords->0, offsets)))
}

/// A slot after the rooms have been built: a leaf has the room of its region,
/// or none where the region is too small; any other slot is as it was.
pub open spec fn furnished(slot: Option<DungeonNode>, offsets: Rect) -> Option<DungeonNode> {
    match slot {
        Some(n) => if n.is_leaf() {
            Some(DungeonNode { room: room_of(n.coords->0, offsets), ..n })
        } else {
            slot
        },
        None => None,
    }
}

/// The slots after the rooms have been built.
pub open spec fn with_rooms(nodes: Seq<Option<DungeonNode>>, offsets: Rect) -> Seq<
    Option<DungeonNode>,
> {
    Seq::new(nodes.len(), |i: int| furnished(nodes[i], offsets))
}

impl DungeonTree {
    /// Gives every leaf the room of its region, set in by `offsets`, and
    /// takes the room away from a leaf whose region is too small. Nodes with
    /// children are not touched.
    pub fn build_rooms(&mut self, offsets: (i32, i32, i32, i32)) -> (res: Result<(), TreeError>)
        requires
            rooms_fit(old(self)@.nodes, offsets),
        ensures
            final(self).wf(),
            res is Ok,
            final(self)@.nodes == with_rooms(old(self)@.nodes, offsets),
            final(self)@.paths == old(self)@.paths,
            forall|i: int|
                0 <= i < old(self)@.nodes.len() ==> (#[trigger] old(self)@.nodes[i] matches Some(n)
                    ==> {
                    &&& !n.is_leaf() ==> final(self)@.nodes[i] == Some(n)
                    &&& n.is_leaf() && too_small(n.coords->0) ==> final(self)@.nodes[i]->0.room
                        is None
                }),
    {
        let min_x_offset = offsets.0;
        let min_y_offset = offsets.1;
        let max_x_offset = offsets.2;
        let max_y_offset = offsets.3;

        let mut nodes = self.take_nodes();
        let ghost before = nodes@;
        let mut i: usize = 0;
        while i < nodes.len()
            invariant
                i <= nodes.len(),
                nodes@.len() == before.len(),
                rooms_fit(before, offsets),
                nodes_valid(before),
                offsets == (min_x_offset, min_y_offset, max_x_offset, max_y_offset),
                forall|j: int| 0 <= j < i ==> #[trigger] nodes@[j] == furnished(before[j], offsets),
                forall|j: int| i <= j < nodes.len() ==> #[trigger] nodes@[j] == before[j],
            decreases nodes.len() - i,
        {
            match nodes[i] {
                Some(sub_dungeon) => {
                    if sub_dungeon.left.is_none() && sub_dungeon.right.is_none() {
                        assert(before[i as int] == Some(sub_dungeon));
                        let bounds = sub_dungeon.coords.unwrap();
                        let sub_width: i64 = bounds.2 as i64 - bounds.0 as i64;
                        let sub_height: i64 = bounds.3 as i64 - bounds.1 as i64;

                        let room = if sub_width <= 3 || sub_height <= 3 {
                            None
                        } else {
                            Some(
                                (
                                    bounds.0 + min_x_offset,
                                    bounds.1 + min_y_offset,
                                    bounds.2 - max_x_offset,
                                    bounds.3 - max_y_offset,
                                ),
                            )
                        };
                        nodes.set(
                            i,
                            Some(
                                DungeonNode {
                                    coords: sub_dungeon.coords,
                                    node_id: sub_dungeon.node_id,
                                    left: sub_dungeon.left,
                                    right: sub_dungeon.right,
                                    room,
                                },
                            ),
                        );
                    }
                },
                None => {},
            }
            i += 1;
        }
        assert(nodes@ =~= with_rooms(before, offsets));
        assert(nodes_valid(nodes@)) by {
            assert forall|j: int| 0 <= j < nodes@.len() implies (#[trigger] nodes@[j] matches Some(
                n,
            ) ==> crate::tree::node_valid_at(n, j)) by {
                assert(nodes@[j] == furnished(before[j], offsets));
            }
        }
        self.put_nodes(nodes);
        proof {
            use_type_invariant(&*self);
        }
        Ok(())
    }
}

} // verus!
