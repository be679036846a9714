//! Copying a subtree out of a tree, as a tree of its own.
//!
//! The nodes of the subtree are copied in depth-first pre-order into the
//! slots `0, 1, 2, ..` of the new tree, and each copy is given the index of
//! its slot as its identifier. The child pointers of a copy name the slots of
//! the copies of its own children: the first child of the copy in slot `k`
//! sits in slot `k + 1`, and its second child sits behind the whole subtree
//! of the first. A pointer that led to no occupied slot leads nowhere in the
//! copy either: it names the first slot past the end of the copy.

use vstd::prelude::*;
use crate::node::DungeonNode;
use crate::traverse::{
    child_of,
    collect_subtree,
    descendants_of,
    lemma_subtree_slots_occupied,
    lemma_subtree_unfolds,
    slots_behind,
    subtree_slots,
};
use crate::tree::{node_valid_at, nodes_valid, occupied, DungeonTree};

verus! {

/// The child pointer of a copy in slot `k`, for a pointer of its source that
/// names slot `child`: the slot `at` where the copy of that child sits, or
/// `past`, the first slot past the end of the copy, where slot `child` is not
/// occupied.
pub open spec fn renumbered_pointer(
    nodes: Seq<Option<DungeonNode>>,
    child: int,
    at: int,
    past: int,
) -> usize {
    if occupied(nodes, child) {
        at as usize
    } else {
        past as usize
    }
}

/// The copy of the node in slot `source` for slot `k` of a copy that ends
/// before slot `past`. The copy of its first child follows it; the copy of
/// its second child follows the subtree of the first.
pub open spec fn renumbered_node(
    nodes: Seq<Option<DungeonNode>>,
    source: int,
    k: int,
    past: int,
) -> DungeonNode {
    let n = nodes[source]->0;
    DungeonNode {
        node_id: k as usize,
        left: match n.left {
            Some(l) => Some(renumbered_pointer(nodes, l as int, k + 1, past)),
            None => None,
        },
        right: match n.right {
            Some(r) => Some(
                renumbered_pointer(
                    nodes,
                    r as int,
                    k + 1 + slots_behind(nodes, n.left).len(),
                    past,
                ),
            ),
            None => None,
        },
        ..n
    }
}

/// The copies of the nodes in `slots`, in that order, for the slots from
/// `base` on of a copy that ends before slot `past`.
pub open spec fn copies_from(
    nodes: Seq<Option<DungeonNode>>,
    slots: Seq<usize>,
    base: int,
    past: int,
) -> Seq<Option<DungeonNode>> {
    Seq::new(slots.len(), |j: int| Some(renumbered_node(nodes, slots[j] as int, base + j, past)))
}

/// The nodes in `slots`, copied in that order into the slots `0, 1, 2, ..`
/// of a new collection and renumbered.
pub open spec fn renumbered(nodes: Seq<Option<DungeonNode>>, slots: Seq<usize>) -> Seq<
    Option<DungeonNode>,
> {
    copies_from(nodes, slots, 0, slots.len() as int)
}

/// Whether the pointers of the copy in slot `k` name the copies of the
/// children of its source: a pointer of the source that leads to an occupied
/// slot has become the slot of the copy of that child, and a pointer that
/// leads to none has become the first slot past the end of the copy.
///
/// `slots` lists the sources of the copies in `copies`, slot by slot.
pub open spec fn names_own_children(
    nodes: Seq<Option<DungeonNode>>,
    slots: Seq<usize>,
    copies: Seq<Option<DungeonNode>>,
    k: int,
) -> bool {
    let n = nodes[slots[k] as int]->0;
    let copy = copies[k]->0;
    &&& n.left is Some <==> copy.left is Some
    &&& n.right is Some <==> copy.right is Some
    &&& n.left is Some ==> if occupied(nodes, n.left->0 as int) {
        copy.left->0 < copies.len() && slots[copy.left->0 as int] == n.left->0
    } else {
        copy.left->0 == copies.len()
    }
    &&& n.right is Some ==> if occupied(nodes, n.right->0 as int) {
        copy.right->0 < copies.len() && slots[copy.right->0 as int] == n.right->0
    } else {
        copy.right->0 == copies.len()
    }
}

/// In the listing of a subtree, the subtree of each listed slot is listed in
/// one piece, beginning at that slot.
proof fn lemma_listing_nested(nodes: Seq<Option<DungeonNode>>, i: int, k: int)
    requires
        nodes.len() <= usize::MAX,
        0 <= k < subtree_slots(nodes, i).len(),
    ensures
        k + subtree_slots(nodes, subtree_slots(nodes, i)[k] as int).len() <= subtree_slots(
            nodes,
            i,
        ).len(),
        subtree_slots(nodes, i).subrange(
            k,
            k + subtree_slots(nodes, subtree_slots(nodes, i)[k] as int).len(),
        ) == subtree_slots(nodes, subtree_slots(nodes, i)[k] as int),
    decreases nodes.len() - i,
{
    let n = nodes[i]->0;
    let first = if n.left is Some && i < n.left->0 < nodes.len() {
        subtree_slots(nodes, n.left->0 as int)
    } else {
        Seq::empty()
    };
    let second = if n.right is Some && i < n.right->0 < nodes.len() {
        subtree_slots(nodes, n.right->0 as int)
    } else {
        Seq::empty()
    };
    let whole = subtree_slots(nodes, i);
    assert(whole =~= seq![i as usize] + first + second);
    if k == 0 {
        assert(whole[0] == i);
        assert(whole.subrange(0, whole.len() as int) =~= whole);
    } else if k - 1 < first.len() {
        lemma_listing_nested(nodes, n.left->0 as int, k - 1);
        assert(whole[k] == first[k - 1]);
        let m = subtree_slots(nodes, first[k - 1] as int).len();
        assert(whole.subrange(k, k + m) =~= first.subrange(k - 1, k - 1 + m));
    } else {
        let j = k - 1 - first.len();
        lemma_listing_nested(nodes, n.right->0 as int, j);
        assert(whole[k] == second[j]);
        let m = subtree_slots(nodes, second[j] as int).len();
        assert(whole.subrange(k, k + m) =~= second.subrange(j, j + m));
    }
}

/// The pointers of a copy name the copies of the children of its source.
///
/// In the listing of a subtree of a valid collection, take the node in the
/// slot listed at position `k`. Where its first pointer leads to an occupied
/// slot, that slot is listed at position `k + 1`. Where its second pointer
/// leads to an occupied slot, that slot is listed behind the subtree of the
/// first.
pub proof fn lemma_children_follow(nodes: Seq<Option<DungeonNode>>, c: int, k: int)
    requires
        nodes_valid(nodes),
        nodes.len() <= usize::MAX,
        0 <= k < subtree_slots(nodes, c).len(),
    ensures
        ({
            let slots = subtree_slots(nodes, c);
            let n = nodes[slots[k] as int]->0;
            let second_at = k + 1 + slots_behind(nodes, n.left).len();
            &&& n.left is Some && occupied(nodes, n.left->0 as int) ==> k + 1 < slots.len()
                && slots[k + 1] == n.left->0
            &&& n.right is Some && occupied(nodes, n.right->0 as int) ==> second_at < slots.len()
                && slots[second_at] == n.right->0
        }),
{
    let slots = subtree_slots(nodes, c);
    let source = slots[k] as int;
    let n = nodes[source]->0;
    lemma_subtree_slots_occupied(nodes, c, k);
    lemma_subtree_unfolds(nodes, source);
    lemma_listing_nested(nodes, c, k);
    let own = subtree_slots(nodes, source);
    let first = slots_behind(nodes, n.left);
    let second = slots_behind(nodes, n.right);
    assert(own =~= seq![source as usize] + first + second);
    assert(node_valid_at(n, source));
    if n.left is Some && occupied(nodes, n.left->0 as int) {
        assert(first[0] == n.left->0);
        assert(own[1] == first[0]);
        assert(slots.subrange(k, k + own.len())[1] == slots[k + 1]);
    }
    if n.right is Some && occupied(nodes, n.right->0 as int) {
        assert(second[0] == n.right->0);
        let at = 1 + first.len() as int;
        assert(own[at] == second[0]);
        assert(slots.subrange(k, k + own.len())[at] == slots[k + at]);
    }
}

/// The renumbered copy of a subtree of a valid collection is itself a valid
/// collection.
proof fn lemma_renumbered_valid(nodes: Seq<Option<DungeonNode>>, c: int)
    requires
        nodes_valid(nodes),
        nodes.len() <= usize::MAX,
        c > 0,
        subtree_slots(nodes, c).len() <= usize::MAX,
    ensures
        nodes_valid(renumbered(nodes, subtree_slots(nodes, c))),
{
    let slots = subtree_slots(nodes, c);
    let copies = renumbered(nodes, slots);
    assert forall|k: int| 0 <= k < copies.len() implies (#[trigger] copies[k] matches Some(n)
        ==> node_valid_at(n, k)) by {
        lemma_subtree_slots_occupied(nodes, c, k);
        lemma_children_follow(nodes, c, k);
        let source = nodes[slots[k] as int]->0;
        assert(node_valid_at(source, slots[k] as int));
    }
}

/// Appends the copies of the subtree rooted in `slot`, for a copy that ends
/// before slot `past`.
fn copy_subtree(
    nodes: &Vec<Option<DungeonNode>>,
    slot: usize,
    past: usize,
    copies: &mut Vec<Option<DungeonNode>>,
)
    requires
        nodes_valid(nodes@),
        occupied(nodes@, slot as int),
    ensures
        final(copies)@ == old(copies)@ + copies_from(
            nodes@,
            subtree_slots(nodes@, slot as int),
            old(copies)@.len() as int,
            past as int,
        ),
    decreases nodes@.len() - slot,
{
    let ghost base = copies@.len() as int;
    let ghost first = slots_behind(nodes@, nodes@[slot as int]->0.left);
    let ghost second = slots_behind(nodes@, nodes@[slot as int]->0.right);
    proof {
        lemma_subtree_unfolds(nodes@, slot as int);
    }
    let new_node_id = copies.len();
    let mut node: DungeonNode = nodes[slot].unwrap();
    assert(node_valid_at(node, slot as int));
    let source = node;
    node.node_id = new_node_id;
    copies.push(Some(node));

    match source.left {
        Some(child) => {
            if child < nodes.len() && nodes[child].is_some() {
                node.left = Some(copies.len());
                copy_subtree(nodes, child, past, copies);
            } else {
                node.left = Some(past);
            }
        },
        None => {},
    }
    assert(copies@.len() == base + 1 + first.len());
    match source.right {
        Some(child) => {
            if child < nodes.len() && nodes[child].is_some() {
                node.right = Some(copies.len());
                copies.set(new_node_id, Some(node));
                copy_subtree(nodes, child, past, copies);
            } else {
                node.right = Some(past);
                copies.set(new_node_id, Some(node));
            }
        },
        None => {
            copies.set(new_node_id, Some(node));
        },
    }
    proof {
        let whole = subtree_slots(nodes@, slot as int);
        assert(whole =~= seq![slot] + first + second);
        assert(node == renumbered_node(nodes@, slot as int, base, past as int));
        assert(copies@ =~= old(copies)@ + copies_from(nodes@, whole, base, past as int));
    }
}

impl DungeonTree {
    /// Copies the subtree behind one child pointer of the node in slot
    /// `node_idx` into a tree of its own: behind the first when `left`, behind
    /// the second otherwise.
    ///
    /// The copy lists the nodes of the subtree in depth-first pre-order and
    /// renumbers them from 0; the pointers of each copy name the copies of
    /// its own children. It shares nothing with this tree, and it holds no
    /// corridor. There is no subtree where the slot is not occupied or the
    /// pointer leads to no occupied slot.
    pub fn get_subtree(&self, node_idx: usize, left: bool) -> (res: Option<DungeonTree>)
        ensures
            res is Some <==> child_of(self@.nodes, node_idx as int, left) is Some,
            occupied(self@.nodes, node_idx as int) && (if left {
                self@.nodes[node_idx as int]->0.left
            } else {
                self@.nodes[node_idx as int]->0.right
            }) is None ==> res is None,
            res matches Some(sub) ==> {
                let c = child_of(self@.nodes, node_idx as int, left)->0;
                &&& sub.wf()
                &&& sub@.nodes == renumbered(self@.nodes, subtree_slots(self@.nodes, c))
                &&& sub@.nodes.len() == 1 + descendants_of(self@.nodes, self@.nodes[c]->0).len()
                &&& forall|k: int|
                    0 <= k < sub@.nodes.len() ==> (#[trigger] sub@.nodes[k]) is Some
                        && sub@.nodes[k]->0.node_id == k
                &&& forall|k: int|
                    0 <= k < sub@.nodes.len() ==> #[trigger] names_own_children(
                        self@.nodes,
                        subtree_slots(self@.nodes, c),
                        sub@.nodes,
                        k,
                    )
                &&& sub@.paths.len() == 0
            },
    {
        let nodes = self.nodes();
        if node_idx >= nodes.len() {
            return None;
        }
        let node = match nodes[node_idx] {
            Some(node) => node,
            None => {
                return None;
            },
        };
        let pointer = if left {
            node.left
        } else {
            node.right
        };
        let child_idx = match pointer {
            Some(child_idx) => child_idx,
            None => {
                return None;
            },
        };
        if child_idx >= nodes.len() || nodes[child_idx].is_none() {
            return None;
        }
        assert(node_valid_at(node, node_idx as int));
        let mut kids: Vec<usize> = Vec::new();
        collect_subtree(nodes, child_idx, &mut kids);
        assert(kids@ =~= subtree_slots(nodes@, child_idx as int));
        proof {
            lemma_subtree_unfolds(nodes@, child_idx as int);
        }

        let mut copies: Vec<Option<DungeonNode>> = Vec::new();
        copy_subtree(nodes, child_idx, kids.len(), &mut copies);
        assert(copies@ =~= renumbered(nodes@, kids@));
        proof {
            lemma_renumbered_valid(nodes@, child_idx as int);
            assert forall|k: int| 0 <= k < copies@.len() implies #[trigger] names_own_children(
                nodes@,
                kids@,
                copies@,
                k,
            ) by {
                lemma_children_follow(nodes@, child_idx as int, k);
            }
        }
        let mut subtree = DungeonTree::new(1);
        subtree.put_nodes(copies);
        proof {
            use_type_invariant(&subtree);
        }
        Some(subtree)
    }

    /// The subtrees of the root, each as a tree of its own: the one behind
    /// its first child pointer, then the one behind its second, as far as
    /// they exist.
    pub fn children(&self) -> (kids: Vec<DungeonTree>)
        ensures
            kids@.len() == (if child_of(self@.nodes, 0, true) is Some { 1int } else { 0int }) + (
            if child_of(self@.nodes, 0, false) is Some { 1int } else { 0int }),
            child_of(self@.nodes, 0, true) matches Some(c) ==> kids@[0]@.nodes == renumbered(
                self@.nodes,
                subtree_slots(self@.nodes, c),
            ) && kids@[0]@.paths.len() == 0,
            child_of(self@.nodes, 0, false) matches Some(c) ==> kids@[kids@.len() - 1]@.nodes
                == renumbered(self@.nodes, subtree_slots(self@.nodes, c)) && kids@[kids@.len()
                - 1]@.paths.len() == 0,
    {
        let mut kids: Vec<DungeonTree> = Vec::new();
        match self.get_subtree(0, true) {
            Some(subtree) => {
                kids.push(subtree);
            },
            None => {},
        }
        match self.get_subtree(0, false) {
            Some(subtree) => {
                kids.push(subtree);
            },
            None => {},
        }
        kids
    }
}

} // verus!
