//! The partition tree: an index-addressed collection of optional nodes, and
//! the corridors that have been routed through it.

use vstd::prelude::*;
use crate::error::TreeError;
use crate::node::DungeonNode;
use crate::path::DungeonPath;

verus! {

/// What a tree holds, as mathematics: its slots in index order and its
/// corridors in the order in which they were routed.
pub struct TreeModel {
    pub nodes: Seq<Option<DungeonNode>>,
    pub paths: Seq<Seq<Option<(i32, i32)>>>,
}

/// The partition tree.
#[derive(Debug, PartialEq)]
pub struct DungeonTree {
    pub(crate) nodes: Vec<Option<DungeonNode>>,
    pub(crate) paths: Vec<DungeonPath>,
}

/// Whether slot `i` exists and holds a node.
pub open spec fn occupied(nodes: Seq<Option<DungeonNode>>, i: int) -> bool {
    0 <= i < nodes.len() && nodes[i] is Some
}

/// What must hold of a node that sits in slot `i`:
/// its identifier is `i`; it names two children or none; a child it names
/// sits in a later slot; and, unless it is the root, it owns a region.
pub open spec fn node_valid_at(n: DungeonNode, i: int) -> bool {
    &&& n.node_id == i
    &&& (n.left is Some <==> n.right is Some)
    &&& (n.left matches Some(l) ==> l > i)
    &&& (n.right matches Some(r) ==> r > i)
    &&& (i > 0 ==> n.coords is Some)
}

/// Every occupied slot holds a node that is valid there.
pub open spec fn nodes_valid(nodes: Seq<Option<DungeonNode>>) -> bool {
    forall|i: int|
        0 <= i < nodes.len() ==> (#[trigger] nodes[i] matches Some(n) ==> node_valid_at(n, i))
}

/// Every point of every corridor is present.
pub open spec fn paths_valid(paths: Seq<Seq<Option<(i32, i32)>>>) -> bool {
    forall|j: int, k: int|
        0 <= j < paths.len() && 0 <= k < paths[j].len() ==> (#[trigger] paths[j][k]) is Some
}

/// The corridors of `paths`, each as its sequence of points.
pub open spec fn paths_view(paths: Seq<DungeonPath>) -> Seq<Seq<Option<(i32, i32)>>> {
    Seq::new(paths.len(), |j: int| paths[j]@)
}

/// Whether a slot holds a leaf.
pub open spec fn holds_leaf() -> spec_fn(Option<DungeonNode>) -> bool {
    |slot: Option<DungeonNode>| slot matches Some(n) && n.is_leaf()
}

/// The occupied leaves of `nodes`, in index order.
pub open spec fn leaves_of(nodes: Seq<Option<DungeonNode>>) -> Seq<Option<DungeonNode>> {
    nodes.filter(holds_leaf())
}

/// Whether the tree is nothing but a root that has never been split.
pub open spec fn lone_root(nodes: Seq<Option<DungeonNode>>) -> bool {
    &&& nodes.len() > 0
    &&& nodes[0] matches Some(n) && n.is_leaf()
    &&& forall|i: int| 1 <= i < nodes.len() ==> nodes[i] is None
}

/// A node that may become the root of an empty tree.
pub open spec fn valid_root(n: DungeonNode) -> bool {
    node_valid_at(n, 0)
}

impl View for DungeonTree {
    type V = TreeModel;

    closed spec fn view(&self) -> TreeModel {
        TreeModel { nodes: self.nodes@, paths: paths_view(self.paths@) }
    }
}

impl Clone for DungeonTree {
    fn clone(&self) -> (copy: DungeonTree)
        ensures
            copy@ == self@,
    {
        proof {
            use_type_invariant(self);
        }
        let mut nodes: Vec<Option<DungeonNode>> = Vec::new();
        let mut i: usize = 0;
        while i < self.nodes.len()
            invariant
                i <= self.nodes.len(),
                nodes@ == self.nodes@.take(i as int),
            decreases self.nodes.len() - i,
        {
            nodes.push(self.nodes[i]);
            assert(nodes@ =~= self.nodes@.take(i + 1));
            i += 1;
        }
        assert(nodes@ =~= self.nodes@);
        let mut paths: Vec<DungeonPath> = Vec::new();
        let mut j: usize = 0;
        while j < self.paths.len()
            invariant
                j <= self.paths.len(),
                paths@.len() == j,
                forall|k: int| 0 <= k < j ==> (#[trigger] paths@[k])@ == self.paths@[k]@,
            decreases self.paths.len() - j,
        {
            let path = self.paths[j].clone();
            paths.push(path);
            j += 1;
        }
        assert(paths_view(paths@) =~= paths_view(self.paths@));
        DungeonTree { nodes, paths }
    }
}

impl DungeonTree {
    /// The invariant of every tree: each occupied slot holds a node that is
    /// valid there, and no corridor misses a point.
    #[verifier::type_invariant]
    pub closed spec fn wf(self) -> bool {
        nodes_valid(self.nodes@) && paths_valid(paths_view(self.paths@))
    }

    /// An empty tree with room for `splits` divisions.
    pub fn new(splits: usize) -> (tree: DungeonTree)
        requires
            splits * 2 <= usize::MAX,
        ensures
            tree.wf(),
            tree@.nodes.len() == 0,
            tree@.paths.len() == 0,
    {
        DungeonTree { nodes: Vec::with_capacity(splits * 2), paths: Vec::new() }
    }

    /// Makes `root_node` the only node of an empty tree.
    ///
    /// A tree that already holds a slot is left as it is.
    #[allow(non_snake_case)]
    pub fn setRoot(&mut self, root_node: DungeonNode) -> (res: Result<(), TreeError>)
        requires
            old(self)@.nodes.len() == 0 ==> valid_root(root_node),
        ensures
            final(self).wf(),
            old(self)@.nodes.len() != 0 ==> res == Err::<(), TreeError>(TreeError::RootErr)
                && final(self)@ == old(self)@,
            old(self)@.nodes.len() == 0 ==> res is Ok && final(self)@.nodes == seq![
                Some(root_node),
            ] && final(self)@.paths.len() == 0,
    {
        proof {
            use_type_invariant(&*self);
        }
        if self.nodes.len() != 0 {
            Err(TreeError::RootErr)
        } else {
            let mut nodes: Vec<Option<DungeonNode>> = Vec::new();
            nodes.push(Some(root_node));
            *self = DungeonTree { nodes, paths: Vec::new() };
            Ok(())
        }
    }

    /// Takes the slots out of the tree, which is left without any.
    pub(crate) fn take_nodes(&mut self) -> (nodes: Vec<Option<DungeonNode>>)
        ensures
            nodes@ == old(self)@.nodes,
            nodes_valid(nodes@),
            final(self)@.nodes.len() == 0,
            final(self)@.paths == old(self)@.paths,
    {
        proof {
            use_type_invariant(&*self);
        }
        let mut nodes: Vec<Option<DungeonNode>> = Vec::new();
        std::mem::swap(&mut nodes, &mut self.nodes);
        nodes
    }

    /// Gives the tree `nodes` as its slots.
    pub(crate) fn put_nodes(&mut self, nodes: Vec<Option<DungeonNode>>)
        requires
            nodes_valid(nodes@),
        ensures
            final(self)@.nodes == nodes@,
            final(self)@.paths == old(self)@.paths,
    {
        proof {
            use_type_invariant(&*self);
        }
        self.nodes = nodes;
    }

    /// Appends one corridor.
    pub(crate) fn push_path(&mut self, path: DungeonPath)
        requires
            forall|k: int| 0 <= k < path@.len() ==> (#[trigger] path@[k]) is Some,
        ensures
            final(self)@.nodes == old(self)@.nodes,
            final(self)@.paths == old(self)@.paths.push(path@),
    {
        proof {
            use_type_invariant(&*self);
        }
        let mut paths: Vec<DungeonPath> = Vec::new();
        std::mem::swap(&mut paths, &mut self.paths);
        let ghost before = paths@;
        paths.push(path);
        assert(paths_view(paths@) =~= paths_view(before).push(path@));
        self.paths = paths;
    }

    /// The slots of the tree, in index order.
    pub fn nodes(&self) -> (nodes: &Vec<Option<DungeonNode>>)
        ensures
            nodes@ == self@.nodes,
            nodes_valid(nodes@),
    {
        proof {
            use_type_invariant(self);
        }
        &self.nodes
    }

    /// The corridors of the tree, in the order in which they were routed.
    pub fn paths(&self) -> (paths: &Vec<DungeonPath>)
        ensures
            paths_view(paths@) == self@.paths,
            paths_valid(paths_view(paths@)),
    {
        proof {
            use_type_invariant(self);
        }
        &self.paths
    }

    /// The occupied leaves, in index order.
    ///
    /// There is nothing to report for an empty tree, for a tree without a
    /// leaf, and for a tree that is only a root that was never split.
    pub fn get_leaves(&self) -> (res: Result<Vec<Option<DungeonNode>>, TreeError>)
        ensures
            res is Err <==> lone_root(self@.nodes) || forall|i: int|
                0 <= i < self@.nodes.len() ==> !holds_leaf()(#[trigger] self@.nodes[i]),
            res matches Ok(leaves) ==> leaves@ == leaves_of(self@.nodes),
            res matches Err(e) ==> e == TreeError::NoLeavesError,
    {
        let mut leaves: Vec<Option<DungeonNode>> = Vec::new();
        let mut occupied_past_root: bool = false;
        let mut i: usize = 0;
        proof {
            reveal(Seq::filter);
            assert(self.nodes@.take(0) =~= Seq::empty());
            assert(self.nodes@.take(0).filter(holds_leaf()) =~= Seq::empty());
        }
        while i < self.nodes.len()
            invariant
                i <= self.nodes.len(),
                leaves@ == self.nodes@.take(i as int).filter(holds_leaf()),
                leaves@.len() == 0 <==> forall|j: int|
                    0 <= j < i ==> !holds_leaf()(#[trigger] self.nodes@[j]),
                occupied_past_root <==> exists|j: int| 1 <= j < i && self.nodes@[j] is Some,
            decreases self.nodes.len() - i,
        {
            let slot = self.nodes[i];
            proof {
                assert(self.nodes@.take(i + 1) =~= self.nodes@.take(i as int).push(slot));
                self.nodes@.take(i as int).lemma_filter_push(slot, holds_leaf());
            }
            match slot {
                Some(node) => {
                    if i > 0 {
                        occupied_past_root = true;
                    }
                    if node.left.is_none() && node.right.is_none() {
                        leaves.push(slot);
                    }
                },
                None => {},
            }
            i += 1;
        }
        proof {
            assert(self.nodes@.take(i as int) =~= self.nodes@);
        }
        if leaves.len() == 0 {
            return Err(TreeError::NoLeavesError);
        }
        if !occupied_past_root {
            let root_is_leaf = match self.nodes[0] {
                Some(node) => node.left.is_none() && node.right.is_none(),
                None => false,
            };
            if root_is_leaf {
                return Err(TreeError::NoLeavesError);
            }
        }
        Ok(leaves)
    }
}

/// In every tree, the node in an occupied slot carries the index of that
/// slot as its identifier.
pub proof fn lemma_id_is_index(tree: DungeonTree, i: int)
    requires
        tree.wf(),
        0 <= i < tree@.nodes.len(),
        tree@.nodes[i] is Some,
    ensures
        tree@.nodes[i]->0.node_id == i,
{
}

/// In every tree, a node names either two children or none.
pub proof fn lemma_children_come_in_pairs(tree: DungeonTree, i: int)
    requires
        tree.wf(),
        0 <= i < tree@.nodes.len(),
        tree@.nodes[i] is Some,
    ensures
        tree@.nodes[i]->0.left is Some <==> tree@.nodes[i]->0.right is Some,
{
}

} // verus!
