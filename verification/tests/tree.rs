use bsp_dungeon::{DungeonNode, DungeonTree, TreeError};

fn root(bounds: (i32, i32, i32, i32)) -> DungeonNode {
    DungeonNode {
        coords: Some(bounds),
        left: None,
        right: None,
        room: None,
        node_id: 0,
    }
}

fn tree_with_root(bounds: (i32, i32, i32, i32)) -> DungeonTree {
    let mut tree = DungeonTree::new(4);
    tree.setRoot(root(bounds)).unwrap();
    tree
}

#[test]
fn a_blank_node_has_nothing() {
    let node = DungeonNode::new();
    assert_eq!(node.coords, None);
    assert_eq!(node.node_id, 0);
    assert_eq!(node.left, None);
    assert_eq!(node.right, None);
    assert_eq!(node.room, None);
}

#[test]
fn a_new_tree_is_empty() {
    let tree = DungeonTree::new(4);
    assert!(tree.nodes().is_empty());
    assert!(tree.paths().is_empty());
    let tree = DungeonTree::new(0);
    assert!(tree.nodes().is_empty());
}

#[test]
fn set_root_stores_the_node_in_slot_zero() {
    let mut tree = DungeonTree::new(4);
    let node = root((0, 0, 64, 64));
    assert_eq!(tree.setRoot(node), Ok(()));
    assert_eq!(tree.nodes().len(), 1);
    assert_eq!(tree.nodes()[0], Some(node));
    assert!(tree.paths().is_empty());
}

#[test]
fn a_blank_node_can_be_the_root() {
    let mut tree = DungeonTree::new(1);
    assert_eq!(tree.setRoot(DungeonNode::new()), Ok(()));
    assert_eq!(tree.nodes()[0], Some(DungeonNode::new()));
}

#[test]
fn a_second_root_is_refused() {
    let mut tree = tree_with_root((0, 0, 64, 64));
    let before = tree.clone();
    let res = tree.setRoot(root((0, 0, 10, 10)));
    assert!(matches!(res, Err(TreeError::RootErr)));
    assert_eq!(tree, before);
}

#[test]
fn a_root_is_refused_after_a_split_too() {
    let mut tree = tree_with_root((0, 0, 64, 64));
    tree.split_at_ratio(true, 0, 500).unwrap();
    let before = tree.clone();
    assert_eq!(tree.setRoot(root((0, 0, 10, 10))), Err(TreeError::RootErr));
    assert_eq!(tree, before);
}

#[test]
fn an_empty_tree_has_no_leaves() {
    let tree = DungeonTree::new(4);
    assert_eq!(tree.get_leaves(), Err(TreeError::NoLeavesError));
}

#[test]
fn a_lone_root_reports_no_leaves() {
    let tree = tree_with_root((0, 0, 64, 64));
    assert_eq!(tree.get_leaves(), Err(TreeError::NoLeavesError));
}

#[test]
fn leaves_come_in_index_order() {
    let mut tree = tree_with_root((0, 0, 64, 64));
    tree.split_at_ratio(true, 0, 500).unwrap();
    tree.split_at_ratio(false, 2, 500).unwrap();
    let leaves = tree.get_leaves().unwrap();
    let ids: Vec<usize> = leaves.iter().map(|n| n.unwrap().node_id).collect();
    assert_eq!(ids, vec![1, 5, 6]);
    for leaf in &leaves {
        let leaf = leaf.unwrap();
        assert_eq!(tree.nodes()[leaf.node_id], Some(leaf));
    }
}

#[test]
fn a_tree_whose_nodes_all_have_children_has_no_leaves() {
    let mut tree = tree_with_root((0, 0, 64, 64));
    tree.split_at_ratio(true, 0, 500).unwrap();
    tree.remove_at_idx(1);
    tree.remove_at_idx(2);
    assert_eq!(tree.get_leaves(), Err(TreeError::NoLeavesError));
}

#[test]
fn one_leaf_beside_the_root_is_reported() {
    let mut tree = tree_with_root((0, 0, 64, 64));
    tree.split_at_ratio(true, 0, 500).unwrap();
    tree.remove_at_idx(1);
    let leaves = tree.get_leaves().unwrap();
    assert_eq!(leaves.len(), 1);
    assert_eq!(leaves[0].unwrap().node_id, 2);
}

#[test]
fn identifiers_equal_indices_and_children_come_in_pairs() {
    let mut tree = tree_with_root((0, 0, 64, 64));
    tree.split_at_ratio(true, 0, 500).unwrap();
    tree.split_at_ratio(false, 1, 400).unwrap();
    tree.split_at_ratio(false, 2, 600).unwrap();
    tree.split_at_ratio(true, 3, 700).unwrap();
    tree.build_rooms((2, 2, 2, 2)).unwrap();
    tree.remove_at_idx(4);
    let sub = tree.get_subtree(0, true).unwrap();
    for t in [&tree, &sub] {
        for (i, slot) in t.nodes().iter().enumerate() {
            if let Some(node) = slot {
                assert_eq!(node.node_id, i);
                assert_eq!(node.left.is_some(), node.right.is_some());
            }
        }
    }
}

#[test]
fn a_clone_is_equal_and_independent() {
    let mut tree = tree_with_root((0, 0, 64, 64));
    tree.split_at_ratio(true, 0, 500).unwrap();
    tree.gen_paths(|_, _| (0, 0)).unwrap();
    let mut copy = tree.clone();
    assert_eq!(copy, tree);
    copy.split_at_ratio(false, 1, 500).unwrap();
    copy.remove_at_idx(2);
    assert_eq!(tree.nodes().len(), 3);
    assert!(tree.nodes()[2].is_some());
    assert_eq!(tree.paths().len(), 1);
    assert_ne!(copy, tree);
}
