//! Walking the tree along its child pointers, and listing what is found.
//!
//! A child pointer that leads to no occupied slot, because the slot lies
//! past the end of the collection or has been emptied, is followed nowhere:
//! the subtree behind it is empty.

use vstd::prelude::*;
use crate::error::TreeError;
use crate::node::DungeonNode;
use crate::tree::{node_valid_at, nodes_valid, occupied, DungeonTree};

verus! {

/// The slots of the subtree rooted in slot `i`, in depth-first pre-order:
/// `i` itself, then the subtree of its first child, then the subtree of its
/// second child. Empty when slot `i` is not occupied.
pub open spec fn subtree_slots(nodes: Seq<Option<DungeonNode>>, i: int) -> Seq<usize>
    decreases nodes.len() - i,
{
    if occupied(nodes, i) {
        let n = nodes[i]->0;
        let first = if n.left is Some && i < n.left->0 < nodes.len() {
            subtree_slots(nodes, n.left->0 as int)
        } else {
            Seq::empty()
        };
        let second = if n.right is Some && i < n.right->0 < nodes.len() {
            subtree_slots(nodes, n.right->0 as int)
        } else {
            Seq::empty()
        };
        seq![i as usize] + first + second
    } else {
        Seq::empty()
    }
}

/// The slots of the subtree behind a child pointer.
pub open spec fn slots_behind(nodes: Seq<Option<DungeonNode>>, pointer: Option<usize>) -> Seq<
    usize,
> {
    match pointer {
        Some(c) => subtree_slots(nodes, c as int),
        None => Seq::empty(),
    }
}

/// The slots of every descendant of `n`, in depth-first pre-order: those
/// behind its first child pointer, then those behind its second.
pub open spec fn descendants_of(nodes: Seq<Option<DungeonNode>>, n: DungeonNode) -> Seq<usize> {
    slots_behind(nodes, n.left) + slots_behind(nodes, n.right)
}

/// The occupied slot that the chosen child pointer of the node in slot `i`
/// leads to, if there is one.
pub open spec fn child_of(nodes: Seq<Option<DungeonNode>>, i: int, left: bool) -> Option<int> {
    if occupied(nodes, i) {
        let n = nodes[i]->0;
        match (if left { n.left } else { n.right }) {
            Some(c) if occupied(nodes, c as int) => Some(c as int),
            _ => None,
        }
    } else {
        None
    }
}

/// In a valid collection the subtree of an occupied slot is the slot
/// followed by the descendants of its node.
pub proof fn lemma_subtree_unfolds(nodes: Seq<Option<DungeonNode>>, i: int)
    requires
        nodes_valid(nodes),
        occupied(nodes, i),
    ensures
        subtree_slots(nodes, i) == seq![i as usize] + descendants_of(nodes, nodes[i]->0),
{
    let n = nodes[i]->0;
    assert(node_valid_at(n, i));
    assert(subtree_slots(nodes, i) =~= seq![i as usize] + descendants_of(nodes, n));
}

/// Every slot of a subtree is occupied and does not come before the root of
/// the subtree.
pub proof fn lemma_subtree_slots_occupied(nodes: Seq<Option<DungeonNode>>, i: int, k: int)
    requires
        nodes.len() <= usize::MAX,
        0 <= k < subtree_slots(nodes, i).len(),
    ensures
        occupied(nodes, subtree_slots(nodes, i)[k] as int),
        subtree_slots(nodes, i)[k] >= i,
    decreases nodes.len() - i,
{
    let n = nodes[i]->0;
    let first = if n.left is Some && i < n.left->0 < nodes.len() {
        subtree_slots(nodes, n.left->0 as int)
    } else {
        Seq::empty()
    };
    let second = if n.right is Some && i < n.right->0 < nodes.len() {
        subtree_slots(nodes, n.right->0 as int)
    } else {
        Seq::empty()
    };
    let whole = subtree_slots(nodes, i);
    assert(whole =~= seq![i as usize] + first + second);
    if 1 <= k < 1 + first.len() {
        lemma_subtree_slots_occupied(nodes, n.left->0 as int, k - 1);
        assert(whole[k] == first[k - 1]);
    } else if k >= 1 + first.len() {
        lemma_subtree_slots_occupied(nodes, n.right->0 as int, k - 1 - first.len());
        assert(whole[k] == second[k - 1 - first.len()]);
    } else {
        assert(whole[k] == i);
    }
}

/// Appends the pre-order listing of the subtree rooted in `slot`.
pub(crate) fn collect_subtree(nodes: &Vec<Option<DungeonNode>>, slot: usize, found: &mut Vec<usize>)
    requires
        nodes_valid(nodes@),
    ensures
        final(found)@ == old(found)@ + subtree_slots(nodes@, slot as int),
    decreases nodes@.len() - slot,
{
    if slot >= nodes.len() {
        assert(found@ =~= old(found)@ + subtree_slots(nodes@, slot as int));
        return ;
    }
    match nodes[slot] {
        Some(node) => {
            assert(node_valid_at(node, slot as int));
            found.push(slot);
            match node.left {
                Some(child) => {
                    if child < nodes.len() {
                        collect_subtree(nodes, child, found);
                    }
                },
                None => {},
            }
            match node.right {
                Some(child) => {
                    if child < nodes.len() {
                        collect_subtree(nodes, child, found);
                    }
                },
                None => {},
            }
            assert(found@ =~= old(found)@ + subtree_slots(nodes@, slot as int));
        },
        None => {
            assert(found@ =~= old(found)@ + subtree_slots(nodes@, slot as int));
        },
    }
}

impl DungeonTree {
    /// Appends to `child_idxs` the slot of every descendant of `rt`, in
    /// depth-first pre-order. For no node nothing is appended.
    pub fn get_children_idxs(&self, rt: Option<DungeonNode>, child_idxs: &mut Vec<usize>) -> (res:
        Result<(), TreeError>)
        ensures
            res is Ok,
            rt matches Some(n) ==> final(child_idxs)@ == old(child_idxs)@ + descendants_of(
                self@.nodes,
                n,
            ),
            rt is None ==> final(child_idxs)@ == old(child_idxs)@,
    {
        let nodes = self.nodes();
        match rt {
            Some(node) => {
                match node.left {
                    Some(child) => {
                        collect_subtree(nodes, child, child_idxs);
                    },
                    None => {},
                }
                match node.right {
                    Some(child) => {
                        collect_subtree(nodes, child, child_idxs);
                    },
                    None => {},
                }
                assert(child_idxs@ =~= old(child_idxs)@ + descendants_of(nodes@, node));
            },
            None => {},
        }
        Ok(())
    }
}

} // verus!
