//! Pruning: emptying the slot of a node and the slots of its subtree.
//!
//! The subtree is walked with a stack of slots in place of recursion: the
//! walk goes down along first children, and each slot that comes off the
//! stack is noted for removal before the walk turns to its second child. The
//! slots are emptied once the walk is over.

use vstd::prelude::*;
use vstd::seq_lib::{lemma_seq_concat_contains_all_elements, lemma_seq_contains_after_push};
use crate::node::DungeonNode;
use crate::traverse::subtree_slots;
use crate::tree::{node_valid_at, nodes_valid, occupied, DungeonTree};

verus! {

/// `nodes` with every slot that `slots` lists emptied.
pub open spec fn cleared(nodes: Seq<Option<DungeonNode>>, slots: Seq<usize>) -> Seq<
    Option<DungeonNode>,
> {
    Seq::new(
        nodes.len(),
        |j: int|
            if slots.contains(j as usize) {
                None
            } else {
                nodes[j]
            },
    )
}

/// The slots of the subtree rooted in slot `i`, in the order in which
/// pruning visits them: the subtree of the first child, then `i`, then the
/// subtree of the second child.
spec fn inorder_slots(nodes: Seq<Option<DungeonNode>>, i: int) -> Seq<usize>
    decreases nodes.len() - i,
{
    if occupied(nodes, i) {
        let n = nodes[i]->0;
        let first = if n.left is Some && i < n.left->0 < nodes.len() {
            inorder_slots(nodes, n.left->0 as int)
        } else {
            Seq::empty()
        };
        let second = if n.right is Some && i < n.right->0 < nodes.len() {
            inorder_slots(nodes, n.right->0 as int)
        } else {
            Seq::empty()
        };
        first + seq![i as usize] + second
    } else {
        Seq::empty()
    }
}

/// The visiting order of the subtree behind a child pointer.
spec fn inorder_behind(nodes: Seq<Option<DungeonNode>>, pointer: Option<usize>) -> Seq<usize> {
    match pointer {
        Some(c) => inorder_slots(nodes, c as int),
        None => Seq::empty(),
    }
}

/// What pruning still has to visit for the slots on its stack: from the top
/// of the stack down, each slot followed by the subtree of its second child.
spec fn unvisited(nodes: Seq<Option<DungeonNode>>, stack: Seq<usize>) -> Seq<usize>
    decreases stack.len(),
{
    if stack.len() == 0 {
        Seq::empty()
    } else {
        seq![stack.last()] + inorder_behind(nodes, nodes[stack.last() as int]->0.right) + unvisited(
            nodes,
            stack.drop_last(),
        )
    }
}

/// Each slot on the stack is still to be visited.
proof fn lemma_unvisited_covers_stack(nodes: Seq<Option<DungeonNode>>, stack: Seq<usize>)
    ensures
        unvisited(nodes, stack).len() >= stack.len(),
    decreases stack.len(),
{
    if stack.len() > 0 {
        lemma_unvisited_covers_stack(nodes, stack.drop_last());
    }
}

/// In a valid collection the visiting order of an occupied slot is that of
/// its first child, the slot, and that of its second child.
proof fn lemma_inorder_unfolds(nodes: Seq<Option<DungeonNode>>, i: int)
    requires
        nodes_valid(nodes),
        occupied(nodes, i),
    ensures
        inorder_slots(nodes, i) == inorder_behind(nodes, nodes[i]->0.left) + seq![i as usize]
            + inorder_behind(nodes, nodes[i]->0.right),
{
    let n = nodes[i]->0;
    assert(node_valid_at(n, i));
    assert(inorder_slots(nodes, i) =~= inorder_behind(nodes, n.left) + seq![i as usize]
        + inorder_behind(nodes, n.right));
}

/// Pruning visits exactly the slots of the subtree.
proof fn lemma_inorder_same_slots(nodes: Seq<Option<DungeonNode>>, i: int, slot: usize)
    ensures
        inorder_slots(nodes, i).contains(slot) <==> subtree_slots(nodes, i).contains(slot),
    decreases nodes.len() - i,
{
    if occupied(nodes, i) {
        let n = nodes[i]->0;
        let head = seq![i as usize];
        let first_in = if n.left is Some && i < n.left->0 < nodes.len() {
            inorder_slots(nodes, n.left->0 as int)
        } else {
            Seq::empty()
        };
        let second_in = if n.right is Some && i < n.right->0 < nodes.len() {
            inorder_slots(nodes, n.right->0 as int)
        } else {
            Seq::empty()
        };
        let first_pre = if n.left is Some && i < n.left->0 < nodes.len() {
            subtree_slots(nodes, n.left->0 as int)
        } else {
            Seq::empty()
        };
        let second_pre = if n.right is Some && i < n.right->0 < nodes.len() {
            subtree_slots(nodes, n.right->0 as int)
        } else {
            Seq::empty()
        };
        if n.left is Some && i < n.left->0 < nodes.len() {
            lemma_inorder_same_slots(nodes, n.left->0 as int, slot);
        }
        if n.right is Some && i < n.right->0 < nodes.len() {
            lemma_inorder_same_slots(nodes, n.right->0 as int, slot);
        }
        lemma_seq_concat_contains_all_elements(first_in, head, slot);
        lemma_seq_concat_contains_all_elements(first_in + head, second_in, slot);
        lemma_seq_concat_contains_all_elements(head, first_pre, slot);
        lemma_seq_concat_contains_all_elements(head + first_pre, second_pre, slot);
    }
}

impl DungeonTree {
    /// Empties the slot `node_idx` and the slot of every node of the subtree
    /// below it. Pointers that led into the pruned slots are left as they
    /// are. Where the slot is not occupied, nothing changes.
    pub fn remove_at_idx(&mut self, node_idx: i32)
        ensures
            final(self).wf(),
            final(self)@.nodes == cleared(
                old(self)@.nodes,
                subtree_slots(old(self)@.nodes, node_idx as int),
            ),
            final(self)@.paths == old(self)@.paths,
    {
        if node_idx < 0 {
            assert(self@.nodes =~= cleared(self@.nodes, subtree_slots(self@.nodes, node_idx as int)));
            proof {
                use_type_invariant(&*self);
            }
            return ;
        }
        let mut nodes = self.take_nodes();
        let ghost before = nodes@;
        let ghost root = node_idx as int;

        let mut stk: Vec<usize> = Vec::new();
        let mut to_remove: Vec<usize> = Vec::new();
        let mut curr: Option<usize> = Some(node_idx as usize);

        assert(to_remove@ + inorder_behind(before, curr) + unvisited(before, stk@)
            =~= inorder_slots(before, root));
        while !stk.is_empty() || curr.is_some()
            invariant
                nodes@ == before,
                nodes_valid(before),
                forall|m: int| 0 <= m < stk@.len() ==> occupied(before, #[trigger] stk@[m] as int),
                forall|m: int|
                    0 <= m < to_remove@.len() ==> occupied(before, #[trigger] to_remove@[m] as int),
                to_remove@ + inorder_behind(before, curr) + unvisited(before, stk@)
                    == inorder_slots(before, root),
            decreases
                    3 * (inorder_behind(before, curr).len() + unvisited(before, stk@).len())
                        - stk@.len() + (if curr is Some { 1int } else { 0int }),
        {
            proof {
                lemma_unvisited_covers_stack(before, stk@);
            }
            match curr {
                Some(slot) => {
                    let held = if slot < nodes.len() {
                        nodes[slot]
                    } else {
                        None
                    };
                    match held {
                        Some(node) => {
                            proof {
                                lemma_inorder_unfolds(before, slot as int);
                                assert(stk@.push(slot).drop_last() =~= stk@);
                                assert(to_remove@ + inorder_behind(before, node.left) + unvisited(
                                    before,
                                    stk@.push(slot),
                                ) =~= to_remove@ + inorder_behind(before, curr) + unvisited(
                                    before,
                                    stk@,
                                ));
                            }
                            stk.push(slot);
                            curr = node.left;
                        },
                        None => {
                            assert(inorder_behind(before, curr) =~= Seq::empty());
                            curr = None;
                            assert(inorder_behind(before, curr) =~= Seq::empty());
                        },
                    }
                },
                None => {
                    let ghost stack_before = stk@;
                    let slot = stk.pop().unwrap();
                    assert(stk@ =~= stack_before.drop_last());
                    assert(slot == stack_before.last());
                    let node = nodes[slot].unwrap();
                    proof {
                        assert(to_remove@.push(slot) + inorder_behind(before, node.right)
                            + unvisited(before, stk@) =~= to_remove@ + inorder_behind(before, curr)
                            + unvisited(before, stack_before));
                    }
                    to_remove.push(slot);
                    curr = node.right;
                },
            }
        }
        assert(to_remove@ =~= inorder_slots(before, root));

        let mut k: usize = 0;
        assert(nodes@ =~= cleared(before, to_remove@.take(0)));
        while k < to_remove.len()
            invariant
                k <= to_remove.len(),
                nodes_valid(nodes@),
                nodes@.len() == before.len(),
                forall|m: int|
                    0 <= m < to_remove@.len() ==> occupied(before, #[trigger] to_remove@[m] as int),
                nodes@ == cleared(before, to_remove@.take(k as int)),
            decreases to_remove.len() - k,
        {
            let slot = to_remove[k];
            assert(occupied(before, to_remove@[k as int] as int));
            let ghost partly = nodes@;
            nodes.set(slot, None);
            proof {
                assert(to_remove@.take(k + 1) =~= to_remove@.take(k as int).push(slot));
                assert forall|j: int| 0 <= j < nodes@.len() implies nodes@[j] == cleared(
                    before,
                    to_remove@.take(k + 1),
                )[j] by {
                    lemma_seq_contains_after_push(to_remove@.take(k as int), slot, j as usize);
                    assert(partly[j] == cleared(before, to_remove@.take(k as int))[j]);
                }
            }
            assert(nodes@ =~= cleared(before, to_remove@.take(k + 1)));
            k += 1;
        }
        proof {
            assert(to_remove@.take(k as int) =~= to_remove@);
            assert forall|j: usize|
                to_remove@.contains(j) <==> subtree_slots(before, root).contains(j) by {
                lemma_inorder_same_slots(before, root, j);
            }
            assert(nodes@ =~= cleared(before, subtree_slots(before, root)));
        }
        self.put_nodes(nodes);
        proof {
            use_type_invariant(&*self);
        }
    }
}

} // verus!
