//! Dividing a region in two.
//!
//! A region is divided along one axis at a position that is a fraction of the
//! midpoint of its extent on that axis. The fraction is drawn at random, in
//! thousandths, from [`SPLIT_PERMILLE_MIN`] up to but not including
//! [`SPLIT_PERMILLE_END`]: a narrower range gives more evenly sized regions.
//! The two halves are written to the slots `2i + 1` and `2i + 2` of a parent
//! in slot `i`, each set in by one unit from the sides of the parent.

use vstd::prelude::*;
use rand::Rng;
use crate::error::TreeError;
use crate::geometry::{div_toward_zero, on_grid};
use crate::node::{DungeonNode, Rect};
use crate::tree::{occupied, DungeonTree};

verus! {

/// The least fraction of the midpoint, in thousandths, at which a region is
/// divided.
pub const SPLIT_PERMILLE_MIN: i32 = 350;

/// The fractions at which a region is divided lie below this many
/// thousandths of the midpoint.
pub const SPLIT_PERMILLE_END: i32 = 750;

/// The position at which the extent from `lo` to `hi` is divided: the
/// midpoint of the extent, scaled by `permille` thousandths; both steps
/// round toward zero.
pub open spec fn split_position(lo: int, hi: int, permille: int) -> int {
    div_toward_zero(div_toward_zero(lo + hi, 2) * permille, 1000)
}

/// The position at which `bounds` is divided: along `x` when `vert`, along
/// `y` otherwise.
pub open spec fn split_position_of(bounds: Rect, vert: bool, permille: int) -> int {
    if vert {
        split_position(bounds.0 as int, bounds.2 as int, permille)
    } else {
        split_position(bounds.1 as int, bounds.3 as int, permille)
    }
}

/// The half of `bounds` that ends at `pos`.
pub open spec fn first_half(bounds: Rect, vert: bool, pos: int) -> Rect {
    if vert {
        ((bounds.0 + 1) as i32, (bounds.1 + 1) as i32, pos as i32, (bounds.3 - 1) as i32)
    } else {
        ((bounds.0 + 1) as i32, (bounds.1 + 1) as i32, (bounds.2 - 1) as i32, pos as i32)
    }
}

/// The half of `bounds` that begins just after `pos`.
pub open spec fn second_half(bounds: Rect, vert: bool, pos: int) -> Rect {
    if vert {
        ((pos + 1) as i32, (bounds.1 + 1) as i32, (bounds.2 - 1) as i32, (bounds.3 - 1) as i32)
    } else {
        ((bounds.0 + 1) as i32, (pos + 1) as i32, (bounds.2 - 1) as i32, (bounds.3 - 1) as i32)
    }
}

/// A leaf without a room that owns `bounds` and sits in slot `id`.
pub open spec fn fresh_leaf(bounds: Rect, id: int) -> DungeonNode {
    DungeonNode { coords: Some(bounds), node_id: id as usize, left: None, right: None, room: None }
}

/// `nodes`, lengthened with empty slots until it has at least `len` slots.
pub open spec fn grown_to(nodes: Seq<Option<DungeonNode>>, len: int) -> Seq<Option<DungeonNode>> {
    if nodes.len() >= len {
        nodes
    } else {
        nodes + Seq::new((len - nodes.len()) as nat, |k: int| None::<DungeonNode>)
    }
}

/// The slots after the node in slot `i` has been divided at `permille`
/// thousandths of its midpoint: the collection reaches at least to slot
/// `2i + 2`, the two halves sit in the slots `2i + 1` and `2i + 2` as leaves
/// without rooms, and the parent names them as its children. Nothing else
/// changes.
pub open spec fn split_result(
    nodes: Seq<Option<DungeonNode>>,
    vert: bool,
    i: int,
    permille: int,
) -> Seq<Option<DungeonNode>> {
    let parent = nodes[i]->0;
    let bounds = parent.coords->0;
    let pos = split_position_of(bounds, vert, permille);
    grown_to(nodes, 2 * i + 3).update(
        2 * i + 1,
        Some(fresh_leaf(first_half(bounds, vert, pos), 2 * i + 1)),
    ).update(2 * i + 2, Some(fresh_leaf(second_half(bounds, vert, pos), 2 * i + 2))).update(
        i,
        Some(
            DungeonNode {
                left: Some((2 * i + 1) as usize),
                right: Some((2 * i + 2) as usize),
                ..parent
            },
        ),
    )
}

/// Whether the node in slot `i` names the slots `2i + 1` and `2i + 2` as its
/// children, and each of the two holds a leaf without a room that carries the
/// index of its slot as its identifier.
pub open spec fn divided(nodes: Seq<Option<DungeonNode>>, i: int) -> bool {
    &&& occupied(nodes, i)
    &&& nodes[i]->0.node_id == i
    &&& nodes[i]->0.left == Some((2 * i + 1) as usize)
    &&& nodes[i]->0.right == Some((2 * i + 2) as usize)
    &&& occupied(nodes, 2 * i + 1)
    &&& occupied(nodes, 2 * i + 2)
    &&& nodes[2 * i + 1]->0.node_id == 2 * i + 1
    &&& nodes[2 * i + 2]->0.node_id == 2 * i + 2
    &&& nodes[2 * i + 1]->0.is_leaf() && nodes[2 * i + 1]->0.room is None
    &&& nodes[2 * i + 2]->0.is_leaf() && nodes[2 * i + 2]->0.room is None
}

/// Whether the node in slot `i` can be divided on this machine: it owns a
/// region, the region can be set in by one unit, and the slots of its
/// children can be addressed.
pub open spec fn splittable(nodes: Seq<Option<DungeonNode>>, i: int) -> bool {
    &&& nodes[i]->0.coords matches Some(b) && b.0 < i32::MAX && b.1 < i32::MAX && b.2 > i32::MIN
        && b.3 > i32::MIN
    &&& 2 * i + 3 <= usize::MAX
}

/// The position of a division lies on the grid, and so does the position
/// after it.
pub proof fn lemma_split_position_on_grid(lo: int, hi: int, permille: int)
    requires
        on_grid(lo),
        on_grid(hi),
        0 <= permille < 1000,
    ensures
        on_grid(split_position(lo, hi, permille)),
        on_grid(split_position(lo, hi, permille) + 1),
{
    let mid = div_toward_zero(lo + hi, 2);
    assert(i32::MIN <= mid <= i32::MAX);
    if mid >= 0 {
        assert(0 <= mid * permille <= mid * 999) by (nonlinear_arith)
            requires
                mid >= 0,
                0 <= permille < 1000,
        ;
    } else {
        assert(mid * 999 <= mid * permille <= 0) by (nonlinear_arith)
            requires
                mid < 0,
                0 <= permille < 1000,
        ;
    }
}

/// Draws from `rand::thread_rng()` with `rand::Rng::gen_range`, which returns
/// a number of the half-open range it is given and panics on an empty one.
#[verifier::external_body]
fn random_in_range(low: i32, high: i32) -> (drawn: i32)
    requires
        low < high,
    ensures
        low <= drawn < high,
{
    rand::thread_rng().gen_range(low..high)
}

impl DungeonTree {
    /// Divides the node in slot `node_idx` at `permille` thousandths of the
    /// midpoint of its extent: of its `x` extent when `vert`, of its `y`
    /// extent otherwise.
    ///
    /// Children that the node already had are overwritten.
    pub fn split_at_ratio(&mut self, vert: bool, node_idx: i32, permille: i32) -> (res: Result<
        (),
        TreeError,
    >)
        requires
            0 <= permille < 1000,
            occupied(old(self)@.nodes, node_idx as int) ==> splittable(
                old(self)@.nodes,
                node_idx as int,
            ),
        ensures
            final(self).wf(),
            final(self)@.paths == old(self)@.paths,
            res is Ok <==> occupied(old(self)@.nodes, node_idx as int),
            res is Ok ==> final(self)@.nodes == split_result(
                old(self)@.nodes,
                vert,
                node_idx as int,
                permille as int,
            ),
            res is Ok ==> divided(final(self)@.nodes, node_idx as int),
            res matches Err(e) ==> e == TreeError::IndexError && final(self)@ == old(self)@,
    {
        proof {
            use_type_invariant(&*self);
        }
        if node_idx < 0 {
            return Err(TreeError::IndexError);
        }
        let idx: usize = node_idx as usize;
        if idx >= self.nodes().len() {
            return Err(TreeError::IndexError);
        }
        let parent = match self.nodes()[idx] {
            Some(node) => node,
            None => {
                return Err(TreeError::IndexError);
            },
        };
        let bounds = parent.coords.unwrap();
        let split_range: (i32, i32) = if vert {
            (bounds.0, bounds.2)
        } else {
            (bounds.1, bounds.3)
        };
        let midpoint: i64 = (split_range.0 as i64 + split_range.1 as i64) / 2;
        proof {
            lemma_split_position_on_grid(
                split_range.0 as int,
                split_range.1 as int,
                permille as int,
            );
            if midpoint >= 0 {
                assert(0 <= midpoint * permille <= midpoint * 999) by (nonlinear_arith)
                    requires
                        midpoint >= 0,
                        0 <= permille < 1000,
                ;
            } else {
                assert(midpoint * 999 <= midpoint * permille <= 0) by (nonlinear_arith)
                    requires
                        midpoint < 0,
                        0 <= permille < 1000,
                ;
            }
        }
        let split_pos: i32 = ((midpoint * (permille as i64)) / 1000) as i32;
        assert(split_pos == split_position_of(bounds, vert, permille as int));

        let left_idx: usize = 2 * idx + 1;
        let right_idx: usize = 2 * idx + 2;
        let left_bounds: Rect = if vert {
            (bounds.0 + 1, bounds.1 + 1, split_pos, bounds.3 - 1)
        } else {
            (bounds.0 + 1, bounds.1 + 1, bounds.2 - 1, split_pos)
        };
        let right_bounds: Rect = if vert {
            (split_pos + 1, bounds.1 + 1, bounds.2 - 1, bounds.3 - 1)
        } else {
            (bounds.0 + 1, split_pos + 1, bounds.2 - 1, bounds.3 - 1)
        };

        let mut nodes = self.take_nodes();
        let ghost before = nodes@;
        while nodes.len() <= right_idx
            invariant
                right_idx == 2 * idx + 2,
                before.len() <= nodes@.len(),
                nodes@.len() <= before.len() || nodes@.len() <= right_idx + 1,
                nodes@ =~= before + Seq::new(
                    (nodes@.len() - before.len()) as nat,
                    |k: int| None::<DungeonNode>,
                ),
            decreases right_idx + 1 - nodes.len(),
        {
            nodes.push(None);
        }
        assert(nodes@ =~= grown_to(before, 2 * idx + 3));
        nodes.set(
            left_idx,
            Some(
                DungeonNode {
                    coords: Some(left_bounds),
                    left: None,
                    right: None,
                    room: None,
                    node_id: left_idx,
                },
            ),
        );
        nodes.set(
            right_idx,
            Some(
                DungeonNode {
                    coords: Some(right_bounds),
                    left: None,
                    right: None,
                    room: None,
                    node_id: right_idx,
                },
            ),
        );
        nodes.set(
            idx,
            Some(
                DungeonNode {
                    coords: parent.coords,
                    left: Some(left_idx),
                    right: Some(right_idx),
                    room: parent.room,
                    node_id: parent.node_id,
                },
            ),
        );
        assert(nodes@ =~= split_result(before, vert, node_idx as int, permille as int));
        self.put_nodes(nodes);
        proof {
            use_type_invariant(&*self);
        }
        Ok(())
    }

    /// Divides the node in slot `node_idx` at a fraction of its midpoint that
    /// is drawn at random: along `x` when `vert`, along `y` otherwise.
    pub fn split_sub_dungeon(&mut self, vert: bool, node_idx: i32) -> (res: Result<(), TreeError>)
        requires
            occupied(old(self)@.nodes, node_idx as int) ==> splittable(
                old(self)@.nodes,
                node_idx as int,
            ),
        ensures
            final(self).wf(),
            final(self)@.paths == old(self)@.paths,
            res is Ok <==> occupied(old(self)@.nodes, node_idx as int),
            res is Ok ==> exists|permille: int|
                SPLIT_PERMILLE_MIN <= permille < SPLIT_PERMILLE_END && final(self)@.nodes
                    == #[trigger] split_result(
                    old(self)@.nodes,
                    vert,
                    node_idx as int,
                    permille,
                ),
            res is Ok ==> divided(final(self)@.nodes, node_idx as int),
            res matches Err(e) ==> e == TreeError::IndexError && final(self)@ == old(self)@,
    {
        proof {
            use_type_invariant(&*self);
        }
        let known = node_idx >= 0 && (node_idx as usize) < self.nodes().len()
            && self.nodes()[node_idx as usize].is_some();
        if !known {
            return Err(TreeError::IndexError);
        }
        let permille = random_in_range(SPLIT_PERMILLE_MIN, SPLIT_PERMILLE_END);
        self.split_at_ratio(vert, node_idx, permille)
    }
}

} // verus!
