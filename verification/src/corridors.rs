//! Routing a corridor between each pair of sibling leaves.
//!
//! A node is a lowest branch when both of its children are leaves. For each
//! lowest branch, in index order, one corridor is routed from the centre of
//! its first child to the centre of its second. The centre of a region is
//! taken to be half of its far corner. The lengths of the two legs of an
//! elbow are asked of the caller's `legs` for each pair of centres that share
//! neither a row nor a column.

use vstd::prelude::*;
use crate::error::TreeError;
use crate::geometry::div_toward_zero;
use crate::node::{DungeonNode, Rect};
use crate::path::{
    get_path,
    legs_fit,
    lemma_path_points_present,
    orthogonal,
    path_points,
    DungeonPath,
};
use crate::tree::{node_valid_at, nodes_valid, occupied, DungeonTree};

verus! {

/// Whether the node in slot `i` names two children that both sit in occupied
/// slots and are both leaves.
pub open spec fn is_lowest_branch(nodes: Seq<Option<DungeonNode>>, i: int) -> bool {
    &&& occupied(nodes, i)
    &&& nodes[i]->0.left is Some
    &&& nodes[i]->0.right is Some
    &&& occupied(nodes, nodes[i]->0.left->0 as int)
    &&& occupied(nodes, nodes[i]->0.right->0 as int)
    &&& nodes[nodes[i]->0.left->0 as int]->0.is_leaf()
    &&& nodes[nodes[i]->0.right->0 as int]->0.is_leaf()
}

/// Whether the node in slot `n` is the one lowest branch of the tree.
pub open spec fn only_lowest_branch(nodes: Seq<Option<DungeonNode>>, n: int) -> bool {
    &&& is_lowest_branch(nodes, n)
    &&& forall|i: int| #[trigger] is_lowest_branch(nodes, i) ==> i == n
}

/// The slots of the lowest branches, in index order.
pub open spec fn lowest_branches(nodes: Seq<Option<DungeonNode>>) -> Seq<usize> {
    Seq::new(nodes.len(), |i: int| i as usize).filter(
        |i: usize| is_lowest_branch(nodes, i as int),
    )
}

/// The point that stands for a region when a corridor is routed to it: half
/// of the far corner, rounded toward zero.
pub open spec fn center(bounds: Rect) -> (i32, i32) {
    (div_toward_zero(bounds.2 as int, 2) as i32, div_toward_zero(bounds.3 as int, 2) as i32)
}

/// The two ends of the corridor of the lowest branch in slot `i`: the centre
/// of its first child, then the centre of its second.
pub open spec fn corridor_ends(nodes: Seq<Option<DungeonNode>>, i: int) -> ((i32, i32), (i32, i32)) {
    (
        center(nodes[nodes[i]->0.left->0 as int]->0.coords->0),
        center(nodes[nodes[i]->0.right->0 as int]->0.coords->0),
    )
}

/// Whether `path` is a corridor from `ends.0` to `ends.1` under the leg
/// lengths that `legs` may return for the two ends: the straight run where
/// the ends share a row or a column, an elbow with legs that `legs` can
/// return for them otherwise.
pub open spec fn routed_by<F: Fn((i32, i32), (i32, i32)) -> (i32, i32)>(
    legs: F,
    ends: ((i32, i32), (i32, i32)),
    path: Seq<Option<(i32, i32)>>,
) -> bool {
    if orthogonal(ends.0, ends.1) {
        path == path_points(ends.0, ends.1, 0, 0)
    } else {
        exists|l: (i32, i32)| #[trigger]
            call_ensures(legs, (ends.0, ends.1), l) && path == path_points(
                ends.0,
                ends.1,
                l.0 as int,
                l.1 as int,
            )
    }
}

/// Whether `legs` may be asked about the ends of every elbow that the tree
/// calls for, and answers with legs that keep the elbow on the grid.
pub open spec fn legs_usable<F: Fn((i32, i32), (i32, i32)) -> (i32, i32)>(
    legs: F,
    nodes: Seq<Option<DungeonNode>>,
) -> bool {
    forall|i: int| #[trigger]
        is_lowest_branch(nodes, i) && !orthogonal(
            corridor_ends(nodes, i).0,
            corridor_ends(nodes, i).1,
        ) ==> {
            let ends = corridor_ends(nodes, i);
            &&& call_requires(legs, (ends.0, ends.1))
            &&& forall|l: (i32, i32)| #[trigger]
                call_ensures(legs, (ends.0, ends.1), l) ==> legs_fit(
                    ends.0,
                    ends.1,
                    l.0 as int,
                    l.1 as int,
                )
        }
}

/// The point that stands for a region.
fn center_of(bounds: Rect) -> (c: (i32, i32))
    ensures
        c == center(bounds),
{
    (bounds.2 / 2, bounds.3 / 2)
}

/// Lists the slots of the lowest branches, in index order.
fn find_lowest_branches(nodes: &Vec<Option<DungeonNode>>) -> (found: Vec<usize>)
    ensures
        found@ == lowest_branches(nodes@),
        found@.len() == 0 <==> forall|i: int|
            0 <= i < nodes@.len() ==> !#[trigger] is_lowest_branch(nodes@, i),
        forall|k: int| 0 <= k < found@.len() ==> is_lowest_branch(nodes@, #[trigger] found@[k] as int),
        forall|j: int, k: int| 0 <= j < k < found@.len() ==> found@[j] < found@[k],
{
    let ghost slots = Seq::new(nodes@.len(), |i: int| i as usize);
    let ghost lowest = |i: usize| is_lowest_branch(nodes@, i as int);
    let mut found: Vec<usize> = Vec::new();
    let mut i: usize = 0;
    proof {
        reveal(Seq::filter);
        assert(slots.take(0).filter(lowest) =~= Seq::empty());
    }
    while i < nodes.len()
        invariant
            i <= nodes.len(),
            slots == Seq::new(nodes@.len(), |i: int| i as usize),
            lowest == |i: usize| is_lowest_branch(nodes@, i as int),
            found@ == slots.take(i as int).filter(lowest),
            found@.len() == 0 <==> forall|j: int| 0 <= j < i ==> !#[trigger] is_lowest_branch(
                nodes@,
                j,
            ),
            forall|k: int|
                0 <= k < found@.len() ==> found@[k] < i && is_lowest_branch(
                    nodes@,
                    #[trigger] found@[k] as int,
                ),
            forall|j: int, k: int| 0 <= j < k < found@.len() ==> found@[j] < found@[k],
        decreases nodes.len() - i,
    {
        proof {
            assert(slots.take(i + 1) =~= slots.take(i as int).push(i));
            slots.take(i as int).lemma_filter_push(i, lowest);
        }
        let qualifies = match nodes[i] {
            Some(node) => match (node.left, node.right) {
                (Some(l), Some(r)) => {
                    l < nodes.len() && r < nodes.len() && match (nodes[l], nodes[r]) {
                        (Some(first), Some(second)) => first.left.is_none()
                            && first.right.is_none() && second.left.is_none()
                            && second.right.is_none(),
                        _ => false,
                    }
                },
                _ => false,
            },
            None => false,
        };
        assert(qualifies == is_lowest_branch(nodes@, i as int));
        if qualifies {
            found.push(i);
        }
        i += 1;
    }
    proof {
        assert(slots.take(i as int) =~= slots);
    }
    found
}

impl DungeonTree {
    /// Routes one corridor for each lowest branch, in index order, and
    /// appends them to the corridors of the tree. Corridors routed earlier
    /// stay. A tree without a lowest branch is left as it is.
    ///
    /// `legs` is asked for the lengths of the first and the second leg of an
    /// elbow from its first argument to its second. For an elbow at 45
    /// degrees these are the distance between the two points times the
    /// cosine, and times the sine, of that angle.
    pub fn gen_paths<F: Fn((i32, i32), (i32, i32)) -> (i32, i32)>(&mut self, legs: F) -> (res:
        Result<(), TreeError>)
        requires
            legs_usable(legs, old(self)@.nodes),
        ensures
            final(self).wf(),
            final(self)@.nodes == old(self)@.nodes,
            res is Err <==> forall|i: int|
                0 <= i < old(self)@.nodes.len() ==> !#[trigger] is_lowest_branch(
                    old(self)@.nodes,
                    i,
                ),
            res matches Err(e) ==> e == TreeError::NoLeavesError && final(self)@ == old(self)@,
            forall|n: int| #[trigger]
                only_lowest_branch(old(self)@.nodes, n) ==> {
                    let earlier = old(self)@.paths.len() as int;
                    &&& res is Ok
                    &&& final(self)@.paths.len() == earlier + 1
                    &&& routed_by(
                        legs,
                        corridor_ends(old(self)@.nodes, n),
                        final(self)@.paths[earlier],
                    )
                },
            res is Ok ==> {
                let branches = lowest_branches(old(self)@.nodes);
                let earlier = old(self)@.paths.len() as int;
                &&& final(self)@.paths.len() == earlier + branches.len()
                &&& final(self)@.paths.take(earlier) == old(self)@.paths
                &&& forall|k: int|
                    0 <= k < branches.len() ==> routed_by(
                        legs,
                        corridor_ends(old(self)@.nodes, branches[k] as int),
                        #[trigger] final(self)@.paths[earlier + k],
                    )
            },
    {
        proof {
            use_type_invariant(&*self);
        }
        let nodes = self.take_nodes();
        let parents_with_leaves = find_lowest_branches(&nodes);
        if parents_with_leaves.is_empty() {
            self.put_nodes(nodes);
            proof {
                use_type_invariant(&*self);
            }
            return Err(TreeError::NoLeavesError);
        }
        assert forall|n: int| #[trigger] only_lowest_branch(nodes@, n) implies parents_with_leaves@
            =~= seq![n as usize] by {
            assert(is_lowest_branch(nodes@, parents_with_leaves@[0] as int));
            if parents_with_leaves@.len() > 1 {
                assert(is_lowest_branch(nodes@, parents_with_leaves@[1] as int));
            }
        }
        let ghost before = self@.paths;
        let ghost branches = lowest_branches(nodes@);
        let ghost lowest = |i: usize| is_lowest_branch(nodes@, i as int);
        let ghost slots = Seq::new(nodes@.len(), |i: int| i as usize);

        let mut k: usize = 0;
        assert(self@.paths.take(before.len() as int) =~= before);
        while k < parents_with_leaves.len()
            invariant
                k <= parents_with_leaves.len(),
                nodes_valid(nodes@),
                legs_usable(legs, nodes@),
                parents_with_leaves@ == branches,
                branches == lowest_branches(nodes@),
                forall|n: int| #[trigger]
                    only_lowest_branch(nodes@, n) ==> branches =~= seq![n as usize],
                self@.nodes.len() == 0,
                self@.paths.len() == before.len() + k,
                self@.paths.take(before.len() as int) == before,
                forall|m: int|
                    0 <= m < k ==> routed_by(
                        legs,
                        corridor_ends(nodes@, branches[m] as int),
                        #[trigger] self@.paths[before.len() + m],
                    ),
            decreases parents_with_leaves.len() - k,
        {
            let idx = parents_with_leaves[k];
            proof {
                Seq::new(nodes@.len(), |i: int| i as usize).lemma_filter_pred(
                    |i: usize| is_lowest_branch(nodes@, i as int),
                    k as int,
                );
                assert(is_lowest_branch(nodes@, idx as int));
            }
            let node = nodes[idx].unwrap();
            let left_idx = node.left.unwrap();
            let right_idx = node.right.unwrap();
            let left = nodes[left_idx].unwrap();
            let right = nodes[right_idx].unwrap();
            assert(node_valid_at(node, idx as int));
            assert(node_valid_at(left, left_idx as int));
            assert(node_valid_at(right, right_idx as int));

            let center_left: (i32, i32) = center_of(left.coords.unwrap());
            let center_right: (i32, i32) = center_of(right.coords.unwrap());
            assert((center_left, center_right) == corridor_ends(nodes@, idx as int));

            let lengths: (i32, i32) = if center_left.0 == center_right.0 || center_left.1
                == center_right.1 {
                (0, 0)
            } else {
                legs(center_left, center_right)
            };
            let pth = get_path(center_left, center_right, lengths.0, lengths.1);
            proof {
                lemma_path_points_present(
                    center_left,
                    center_right,
                    lengths.0 as int,
                    lengths.1 as int,
                );
            }
            let ghost so_far = self@.paths;
            self.push_path(pth);
            proof {
                assert(self@.paths.take(before.len() as int) =~= so_far.take(before.len() as int));
                assert(routed_by(
                    legs,
                    corridor_ends(nodes@, branches[k as int] as int),
                    self@.paths[before.len() + k],
                ));
                assert forall|m: int| 0 <= m < k + 1 implies routed_by(
                    legs,
                    corridor_ends(nodes@, branches[m] as int),
                    #[trigger] self@.paths[before.len() + m],
                ) by {
                    if m < k {
                        assert(self@.paths[before.len() + m] == so_far[before.len() + m]);
                    }
                }
            }
            k += 1;
        }
        proof {
            assert forall|n: int| #[trigger] only_lowest_branch(nodes@, n) implies self@.paths.len()
                == before.len() + 1 && routed_by(
                legs,
                corridor_ends(nodes@, n),
                self@.paths[before.len() as int],
            ) by {
                assert(branches[0] == n);
                assert(routed_by(
                    legs,
                    corridor_ends(nodes@, branches[0] as int),
                    self@.paths[before.len() + 0int],
                ));
            }
        }
        self.put_nodes(nodes);
        proof {
            use_type_invariant(&*self);
        }
        Ok(())
    }
}

} // verus!
