use bsp_dungeon::grid::{BLANK, FLOOR};
use bsp_dungeon::{DungeonNode, DungeonTree};

fn root(bounds: (i32, i32, i32, i32)) -> DungeonNode {
    DungeonNode {
        coords: Some(bounds),
        left: None,
        right: None,
        room: None,
        node_id: 0,
    }
}

fn tree_with_root(bounds: (i32, i32, i32, i32)) -> DungeonTree {
    let mut tree = DungeonTree::new(4);
    tree.setRoot(root(bounds)).unwrap();
    tree
}

fn lines(grid: &[Vec<char>]) -> Vec<String> {
    grid.iter().map(|row| row.iter().collect()).collect()
}

#[test]
fn the_cells_of_the_grid() {
    assert_eq!(FLOOR, '.');
    assert_eq!(BLANK, ' ');
}

#[test]
fn a_grid_without_rooms_is_blank() {
    let tree = tree_with_root((0, 0, 3, 5));
    let grid = tree.room_grid();
    assert_eq!(lines(&grid), vec!["     ", "     ", "     "]);
}

#[test]
fn a_grid_has_a_row_for_each_unit_of_the_x_extent() {
    let tree = tree_with_root((10, 20, 14, 21));
    let grid = tree.room_grid();
    assert_eq!(grid.len(), 4);
    assert!(grid.iter().all(|row| row.len() == 1));
    let tree = tree_with_root((7, 7, 7, 9));
    assert!(tree.room_grid().is_empty());
    let tree = tree_with_root((7, 7, 9, 7));
    assert_eq!(tree.room_grid(), vec![Vec::<char>::new(), Vec::new()]);
}

#[test]
fn a_room_is_floor_up_to_its_far_corner() {
    let mut tree = tree_with_root((0, 0, 8, 6));
    tree.build_rooms((2, 2, 2, 2)).unwrap();
    assert_eq!(tree.nodes()[0].unwrap().room, Some((2, 2, 6, 4)));
    let grid = tree.room_grid();
    assert_eq!(
        lines(&grid),
        vec![
            "      ", "      ", "  ....", "  ....", "      ", "      ", "      ", "      ",
        ]
    );
}

#[test]
fn the_rooms_of_two_halves() {
    let mut tree = tree_with_root((0, 0, 64, 64));
    tree.split_at_ratio(true, 0, 500).unwrap();
    tree.build_rooms((2, 2, 2, 2)).unwrap();
    // Rooms (3, 3, 14, 61) and (19, 3, 61, 61).
    let grid = tree.room_grid();
    assert_eq!(grid.len(), 64);
    for (y, row) in grid.iter().enumerate() {
        assert_eq!(row.len(), 64);
        for (x, cell) in row.iter().enumerate() {
            let inside = (3..61).contains(&y) && ((3..14).contains(&x) || (19..61).contains(&x));
            assert_eq!(*cell, if inside { '.' } else { ' ' });
        }
    }
}

#[test]
fn a_room_kept_by_a_divided_node_is_laid_out_too() {
    let mut tree = tree_with_root((0, 0, 12, 12));
    tree.build_rooms((5, 5, 5, 5)).unwrap();
    tree.split_at_ratio(true, 0, 500).unwrap();
    // The root keeps its room (5, 5, 7, 7); the halves have none.
    let grid = tree.room_grid();
    for (y, row) in grid.iter().enumerate() {
        for (x, cell) in row.iter().enumerate() {
            let inside = (5..7).contains(&y) && (5..7).contains(&x);
            assert_eq!(*cell, if inside { '.' } else { ' ' });
        }
    }
}

#[test]
fn a_room_turned_inside_out_covers_nothing() {
    let mut tree = tree_with_root((0, 0, 6, 6));
    tree.build_rooms((4, 1, 4, 1)).unwrap();
    assert_eq!(tree.nodes()[0].unwrap().room, Some((4, 1, 2, 5)));
    let grid = tree.room_grid();
    assert!(grid.iter().all(|row| row.iter().all(|cell| *cell == ' ')));
}

#[test]
fn rooms_that_overlap_are_floor_where_either_is() {
    let mut tree = tree_with_root((0, 0, 20, 20));
    tree.build_rooms((1, 1, 10, 10)).unwrap();
    tree.split_at_ratio(true, 0, 750).unwrap();
    tree.build_rooms((1, 1, 1, 1)).unwrap();
    assert_eq!(tree.nodes()[0].unwrap().room, Some((1, 1, 10, 10)));
    assert_eq!(tree.nodes()[1].unwrap().room, Some((2, 2, 6, 18)));
    assert_eq!(tree.nodes()[2].unwrap().room, Some((9, 2, 18, 18)));
    let grid = tree.room_grid();
    assert_eq!(grid.len(), 20);
    for (y, row) in grid.iter().enumerate() {
        assert_eq!(row.len(), 20);
        for (x, cell) in row.iter().enumerate() {
            let inside = ((1..10).contains(&x) && (1..10).contains(&y))
                || ((2..6).contains(&x) && (2..18).contains(&y))
                || ((9..18).contains(&x) && (2..18).contains(&y));
            assert_eq!(*cell, if inside { '.' } else { ' ' });
        }
    }
}
