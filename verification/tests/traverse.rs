use bsp_dungeon::{DungeonNode, DungeonTree};

fn root(bounds: (i32, i32, i32, i32)) -> DungeonNode {
    DungeonNode {
        coords: Some(bounds),
        left: None,
        right: None,
        room: None,
        node_id: 0,
    }
}

/// Slots 0 to 6: a root, its two children, and their four children.
fn two_levels() -> DungeonTree {
    let mut tree = DungeonTree::new(4);
    tree.setRoot(root((0, 0, 64, 64))).unwrap();
    tree.split_at_ratio(true, 0, 500).unwrap();
    tree.split_at_ratio(false, 1, 500).unwrap();
    tree.split_at_ratio(false, 2, 500).unwrap();
    tree
}

/// `two_levels` with slot 3 divided into the slots 7 and 8.
fn three_levels() -> DungeonTree {
    let mut tree = two_levels();
    tree.split_at_ratio(true, 3, 500).unwrap();
    tree
}

fn descendants(tree: &DungeonTree, slot: usize) -> Vec<usize> {
    let mut found = Vec::new();
    tree.get_children_idxs(tree.nodes()[slot], &mut found).unwrap();
    found
}

#[test]
fn descendants_come_in_pre_order() {
    let tree = three_levels();
    assert_eq!(descendants(&tree, 0), vec![1, 3, 7, 8, 4, 2, 5, 6]);
    assert_eq!(descendants(&tree, 1), vec![3, 7, 8, 4]);
    assert_eq!(descendants(&tree, 2), vec![5, 6]);
    assert_eq!(descendants(&tree, 3), vec![7, 8]);
}

#[test]
fn a_leaf_has_no_descendants() {
    let tree = two_levels();
    assert!(descendants(&tree, 4).is_empty());
}

#[test]
fn descendants_are_appended() {
    let tree = two_levels();
    let mut found = vec![40, 41];
    assert_eq!(tree.get_children_idxs(tree.nodes()[2], &mut found), Ok(()));
    assert_eq!(found, vec![40, 41, 5, 6]);
}

#[test]
fn no_node_has_no_descendants() {
    let tree = two_levels();
    let mut found = vec![9];
    assert_eq!(tree.get_children_idxs(None, &mut found), Ok(()));
    assert_eq!(found, vec![9]);
}

#[test]
fn descendants_of_a_node_that_is_not_in_the_tree() {
    let tree = two_levels();
    let stranger = DungeonNode {
        coords: None,
        node_id: 99,
        left: Some(2),
        right: Some(70),
        room: None,
    };
    let mut found = Vec::new();
    tree.get_children_idxs(Some(stranger), &mut found).unwrap();
    assert_eq!(found, vec![2, 5, 6]);
}

#[test]
fn a_pruned_child_is_followed_nowhere() {
    let mut tree = three_levels();
    tree.remove_at_idx(3);
    assert_eq!(descendants(&tree, 0), vec![1, 4, 2, 5, 6]);
    assert_eq!(descendants(&tree, 1), vec![4]);
}

#[test]
fn a_leaf_has_no_subtree() {
    let tree = two_levels();
    assert!(tree.get_subtree(3, true).is_none());
    assert!(tree.get_subtree(3, false).is_none());
    let mut lone = DungeonTree::new(1);
    lone.setRoot(root((0, 0, 64, 64))).unwrap();
    assert!(lone.get_subtree(0, true).is_none());
    assert!(lone.get_subtree(0, false).is_none());
}

#[test]
fn an_unknown_slot_has_no_subtree() {
    let tree = two_levels();
    assert!(tree.get_subtree(7, true).is_none());
    assert!(tree.get_subtree(usize::MAX, false).is_none());
    assert!(DungeonTree::new(4).get_subtree(0, true).is_none());
}

#[test]
fn an_emptied_slot_has_no_subtree() {
    let mut tree = three_levels();
    tree.remove_at_idx(1);
    assert!(tree.get_subtree(1, true).is_none());
    assert!(tree.get_subtree(1, false).is_none());
}

#[test]
fn a_pruned_child_is_no_subtree() {
    let mut tree = two_levels();
    tree.remove_at_idx(1);
    assert!(tree.get_subtree(0, true).is_none());
    let right = tree.get_subtree(0, false).unwrap();
    assert_eq!(right.nodes().len(), 3);
}

#[test]
fn a_subtree_is_renumbered_from_zero() {
    let tree = two_levels();
    let source = tree.nodes().clone();
    let left = tree.get_subtree(0, true).unwrap();
    assert!(left.paths().is_empty());
    assert_eq!(left.nodes().len(), 3);
    assert_eq!(
        left.nodes()[0],
        Some(DungeonNode {
            node_id: 0,
            left: Some(1),
            right: Some(2),
            ..source[1].unwrap()
        })
    );
    assert_eq!(left.nodes()[1], Some(DungeonNode { node_id: 1, ..source[3].unwrap() }));
    assert_eq!(left.nodes()[2], Some(DungeonNode { node_id: 2, ..source[4].unwrap() }));

    let right = tree.get_subtree(0, false).unwrap();
    assert_eq!(right.nodes().len(), 3);
    assert_eq!(right.nodes()[0].unwrap().coords, source[2].unwrap().coords);
    assert_eq!(right.nodes()[1], Some(DungeonNode { node_id: 1, ..source[5].unwrap() }));
    assert_eq!(right.nodes()[2], Some(DungeonNode { node_id: 2, ..source[6].unwrap() }));
}

#[test]
fn a_subtree_has_one_node_more_than_its_root_has_descendants() {
    let tree = three_levels();
    for (slot, left, child) in [(0, true, 1), (0, false, 2), (1, true, 3), (1, false, 4)] {
        let sub = tree.get_subtree(slot, left).unwrap();
        assert_eq!(sub.nodes().len(), 1 + descendants(&tree, child).len());
        assert!(sub.nodes().iter().all(|slot| slot.is_some()));
        for (i, node) in sub.nodes().iter().enumerate() {
            assert_eq!(node.unwrap().node_id, i);
        }
    }
}

#[test]
fn each_copy_names_the_copies_of_its_own_children() {
    let mut tree = three_levels();
    tree.build_rooms((1, 1, 1, 1)).unwrap();
    let source = tree.nodes().clone();
    let sub = tree.get_subtree(0, true).unwrap();
    // Visited: 1, 3, 7, 8, 4. The children of 1 are 3 and 4, those of 3 are 7 and 8.
    let expected = vec![
        Some(DungeonNode { node_id: 0, left: Some(1), right: Some(4), ..source[1].unwrap() }),
        Some(DungeonNode { node_id: 1, left: Some(2), right: Some(3), ..source[3].unwrap() }),
        Some(DungeonNode { node_id: 2, ..source[7].unwrap() }),
        Some(DungeonNode { node_id: 3, ..source[8].unwrap() }),
        Some(DungeonNode { node_id: 4, ..source[4].unwrap() }),
    ];
    assert_eq!(sub.nodes(), &expected);
    assert_eq!(sub.nodes()[2].unwrap().room, source[7].unwrap().room);
}

#[test]
fn a_copy_has_the_shape_of_its_source() {
    let tree = three_levels();
    let sub = tree.get_subtree(0, true).unwrap();
    assert_eq!(descendants(&sub, 0), vec![1, 2, 3, 4]);
    assert_eq!(descendants(&sub, 1), vec![2, 3]);
    assert!(descendants(&sub, 4).is_empty());
    let ids: Vec<usize> =
        sub.get_leaves().unwrap().iter().map(|n| n.unwrap().node_id).collect();
    assert_eq!(ids, vec![2, 3, 4]);
    let again = sub.get_subtree(0, true).unwrap();
    assert_eq!(again.nodes().len(), 3);
    assert_eq!(again.nodes()[0].unwrap().coords, tree.nodes()[3].unwrap().coords);
    assert_eq!(again.nodes()[1].unwrap().coords, tree.nodes()[7].unwrap().coords);
    assert_eq!(again.nodes()[2].unwrap().coords, tree.nodes()[8].unwrap().coords);
    let right = sub.get_subtree(0, false).unwrap();
    assert_eq!(right.nodes().len(), 1);
    assert_eq!(right.nodes()[0].unwrap().coords, tree.nodes()[4].unwrap().coords);
}

#[test]
fn a_copy_of_randomly_split_regions_names_its_own_children() {
    for _ in 0..20 {
        let mut tree = DungeonTree::new(4);
        tree.setRoot(root((0, 0, 64, 64))).unwrap();
        tree.split_sub_dungeon(true, 0).unwrap();
        tree.split_sub_dungeon(false, 1).unwrap();
        tree.split_sub_dungeon(false, 2).unwrap();
        tree.split_sub_dungeon(true, 3).unwrap();
        let sub = tree.get_subtree(0, true).unwrap();
        assert_eq!(sub.nodes().len(), 5);
        let copies: Vec<DungeonNode> = sub.nodes().iter().map(|n| n.unwrap()).collect();
        assert_eq!((copies[0].left, copies[0].right), (Some(1), Some(4)));
        assert_eq!((copies[1].left, copies[1].right), (Some(2), Some(3)));
        for (copy, source) in copies.iter().zip([1usize, 3, 7, 8, 4]) {
            assert_eq!(copy.coords, tree.nodes()[source].unwrap().coords);
        }
        for leaf in &copies[2..] {
            assert_eq!((leaf.left, leaf.right), (None, None));
        }
    }
}

#[test]
fn a_pointer_to_a_pruned_child_leads_past_the_end_of_the_copy() {
    let mut tree = three_levels();
    tree.remove_at_idx(4);
    let source = tree.nodes().clone();
    let sub = tree.get_subtree(0, true).unwrap();
    // Visited: 1, 3, 7, 8. The second child of 1 is gone.
    let expected = vec![
        Some(DungeonNode { node_id: 0, left: Some(1), right: Some(4), ..source[1].unwrap() }),
        Some(DungeonNode { node_id: 1, left: Some(2), right: Some(3), ..source[3].unwrap() }),
        Some(DungeonNode { node_id: 2, ..source[7].unwrap() }),
        Some(DungeonNode { node_id: 3, ..source[8].unwrap() }),
    ];
    assert_eq!(sub.nodes(), &expected);
    assert_eq!(descendants(&sub, 0), vec![1, 2, 3]);
    assert!(sub.get_subtree(0, false).is_none());

    let mut tree = three_levels();
    tree.remove_at_idx(3);
    let source = tree.nodes().clone();
    let sub = tree.get_subtree(0, true).unwrap();
    // Visited: 1, 4. The first child of 1 is gone.
    let expected = vec![
        Some(DungeonNode { node_id: 0, left: Some(2), right: Some(1), ..source[1].unwrap() }),
        Some(DungeonNode { node_id: 1, ..source[4].unwrap() }),
    ];
    assert_eq!(sub.nodes(), &expected);
    assert!(sub.get_subtree(0, true).is_none());
    assert_eq!(sub.get_subtree(0, false).unwrap().nodes().len(), 1);
}

#[test]
fn a_subtree_is_a_tree_of_its_own() {
    let tree = two_levels();
    let before = tree.clone();
    let mut sub = tree.get_subtree(0, true).unwrap();
    sub.split_at_ratio(true, 1, 500).unwrap();
    sub.build_rooms((1, 1, 1, 1)).unwrap();
    sub.remove_at_idx(2);
    assert_eq!(sub.nodes().len(), 5);
    assert_eq!(sub.nodes()[1].unwrap().left, Some(3));
    assert_eq!(sub.nodes()[2], None);
    assert_eq!(sub.get_leaves().unwrap().len(), 2);
    assert_eq!(tree, before);
}

#[test]
fn the_children_of_the_root() {
    let tree = two_levels();
    let kids = tree.children();
    assert_eq!(kids.len(), 2);
    assert_eq!(kids[0], tree.get_subtree(0, true).unwrap());
    assert_eq!(kids[1], tree.get_subtree(0, false).unwrap());
}

#[test]
fn the_children_of_a_leaf_root() {
    let mut tree = DungeonTree::new(1);
    assert!(tree.children().is_empty());
    tree.setRoot(root((0, 0, 64, 64))).unwrap();
    assert!(tree.children().is_empty());
}

#[test]
fn the_children_of_a_root_with_one_pruned_child() {
    let mut tree = two_levels();
    tree.remove_at_idx(1);
    let kids = tree.children();
    assert_eq!(kids.len(), 1);
    assert_eq!(kids[0], tree.get_subtree(0, false).unwrap());

    let mut tree = two_levels();
    tree.remove_at_idx(2);
    let kids = tree.children();
    assert_eq!(kids.len(), 1);
    assert_eq!(kids[0], tree.get_subtree(0, true).unwrap());
}

#[test]
fn pruning_empties_the_subtree() {
    let mut tree = three_levels();
    let before = tree.nodes().clone();
    tree.remove_at_idx(1);
    assert_eq!(tree.nodes().len(), before.len());
    for slot in [1, 3, 4, 7, 8] {
        assert_eq!(tree.nodes()[slot], None);
    }
    for slot in [0, 2, 5, 6] {
        assert_eq!(tree.nodes()[slot], before[slot]);
    }
    assert_eq!(tree.nodes()[0].unwrap().left, Some(1));
}

#[test]
fn pruning_a_leaf_empties_one_slot() {
    let mut tree = two_levels();
    let before = tree.nodes().clone();
    tree.remove_at_idx(5);
    for (slot, then) in before.iter().enumerate() {
        if slot == 5 {
            assert_eq!(tree.nodes()[slot], None);
        } else {
            assert_eq!(tree.nodes()[slot], *then);
        }
    }
}

#[test]
fn pruning_the_root_empties_the_tree() {
    let mut tree = three_levels();
    tree.remove_at_idx(0);
    assert_eq!(tree.nodes().len(), 9);
    assert!(tree.nodes().iter().all(|slot| slot.is_none()));
}

#[test]
fn pruning_what_is_not_there_changes_nothing() {
    let mut tree = two_levels();
    tree.remove_at_idx(3);
    let before = tree.clone();
    tree.remove_at_idx(3);
    tree.remove_at_idx(-1);
    tree.remove_at_idx(i32::MIN);
    tree.remove_at_idx(7);
    tree.remove_at_idx(i32::MAX);
    assert_eq!(tree, before);
    let mut empty = DungeonTree::new(4);
    empty.remove_at_idx(0);
    assert!(empty.nodes().is_empty());
}

#[test]
fn pruning_passes_over_a_pruned_child() {
    let mut tree = three_levels();
    tree.remove_at_idx(3);
    tree.remove_at_idx(1);
    for slot in [1, 3, 4] {
        assert_eq!(tree.nodes()[slot], None);
    }
    assert!(tree.nodes()[2].is_some());
}

#[test]
fn pruning_keeps_the_paths() {
    let mut tree = two_levels();
    tree.gen_paths(|_, _| (0, 0)).unwrap();
    let paths = tree.paths().clone();
    assert_eq!(paths.len(), 2);
    tree.remove_at_idx(1);
    assert_eq!(tree.paths(), &paths);
}
