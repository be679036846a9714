//! The rooms of a tree, laid out on a grid of characters.
//!
//! The grid is as large as the region of the root. It has one row for each
//! unit of the `x` extent of the root and one cell in each row for each unit
//! of its `y` extent; cell `x` of row `y` stands for the point `(x, y)`. A
//! cell inside a room is a floor cell, any other cell is blank. A room covers
//! the points from its near corner up to, but not including, its far corner.

use vstd::prelude::*;
use crate::node::DungeonNode;
use crate::tree::{occupied, DungeonTree};

verus! {

/// The character of a cell inside a room.
pub const FLOOR: char = '.';

/// The character of a cell outside every room.
pub const BLANK: char = ' ';

/// Whether `slot` holds a node whose room covers the point `(x, y)`.
pub open spec fn room_covers(slot: Option<DungeonNode>, x: int, y: int) -> bool {
    match slot {
        Some(n) => match n.room {
            Some(r) => r.0 <= x < r.2 && r.1 <= y < r.3,
            None => false,
        },
        None => false,
    }
}

/// Whether the room of one of the first `n` slots covers the point `(x, y)`.
pub open spec fn covered_by_first(nodes: Seq<Option<DungeonNode>>, n: int, x: int, y: int) -> bool {
    exists|i: int| 0 <= i < n && #[trigger] room_covers(nodes[i], x, y)
}

/// Whether some room of the tree covers the point `(x, y)`.
pub open spec fn covered(nodes: Seq<Option<DungeonNode>>, x: int, y: int) -> bool {
    covered_by_first(nodes, nodes.len() as int, x, y)
}

/// The number of rows of the grid: the `x` extent of the root.
pub open spec fn grid_rows(nodes: Seq<Option<DungeonNode>>) -> int {
    let bounds = nodes[0]->0.coords->0;
    bounds.2 - bounds.0
}

/// The number of cells in a row of the grid: the `y` extent of the root.
pub open spec fn grid_columns(nodes: Seq<Option<DungeonNode>>) -> int {
    let bounds = nodes[0]->0.coords->0;
    bounds.3 - bounds.1
}

/// Whether the rooms of the tree can be laid out: the root owns a region
/// whose extents are not negative, and every room that covers a point lies
/// inside the grid.
pub open spec fn drawable(nodes: Seq<Option<DungeonNode>>) -> bool {
    &&& occupied(nodes, 0)
    &&& nodes[0]->0.coords is Some
    &&& 0 <= grid_rows(nodes) <= i32::MAX
    &&& 0 <= grid_columns(nodes) <= i32::MAX
    &&& forall|i: int|
        0 <= i < nodes.len() ==> (#[trigger] nodes[i] matches Some(n) ==> (n.room matches Some(r)
            ==> (r.0 < r.2 && r.1 < r.3 ==> 0 <= r.0 && r.2 <= grid_columns(nodes) && 0 <= r.1
            && r.3 <= grid_rows(nodes))))
}

/// A row of `columns` blank cells.
fn blank_row(columns: usize) -> (row: Vec<char>)
    ensures
        row@.len() == columns,
        forall|x: int| 0 <= x < columns ==> #[trigger] row@[x] == BLANK,
{
    let mut row: Vec<char> = Vec::new();
    while row.len() < columns
        invariant
            row@.len() <= columns,
            forall|x: int| 0 <= x < row@.len() ==> #[trigger] row@[x] == BLANK,
        decreases columns - row.len(),
    {
        row.push(BLANK);
    }
    row
}

impl DungeonTree {
    /// Lays out the rooms of the tree on a grid of characters.
    pub fn room_grid(&self) -> (grid: Vec<Vec<char>>)
        requires
            drawable(self@.nodes),
        ensures
            grid@.len() == grid_rows(self@.nodes),
            forall|y: int| 0 <= y < grid@.len() ==> (#[trigger] grid@[y])@.len() == grid_columns(
                self@.nodes,
            ),
            forall|y: int, x: int|
                0 <= y < grid_rows(self@.nodes) && 0 <= x < grid_columns(self@.nodes)
                    ==> #[trigger] grid@[y]@[x] == (if covered(self@.nodes, x, y) {
                    FLOOR
                } else {
                    BLANK
                }),
    {
        let nodes = self.nodes();
        let root = nodes[0].unwrap().coords.unwrap();
        let width: i32 = root.2 - root.0;
        let height: i32 = root.3 - root.1;

        let mut grid: Vec<Vec<char>> = Vec::new();
        let mut y: i32 = 0;
        while y < width
            invariant
                drawable(nodes@),
                width == grid_rows(nodes@),
                height == grid_columns(nodes@),
                0 <= y <= width,
                grid@.len() == y,
                forall|v: int| 0 <= v < y ==> (#[trigger] grid@[v])@.len() == height,
                forall|v: int, x: int|
                    0 <= v < y && 0 <= x < height ==> #[trigger] grid@[v]@[x] == (if covered(
                        nodes@,
                        x,
                        v,
                    ) {
                        FLOOR
                    } else {
                        BLANK
                    }),
            decreases width - y,
        {
            let mut row = blank_row(height as usize);
            let mut i: usize = 0;
            while i < nodes.len()
                invariant
                    drawable(nodes@),
                    width == grid_rows(nodes@),
                    height == grid_columns(nodes@),
                    0 <= y < width,
                    i <= nodes.len(),
                    row@.len() == height,
                    forall|x: int|
                        0 <= x < height ==> #[trigger] row@[x] == (if covered_by_first(
                            nodes@,
                            i as int,
                            x,
                            y as int,
                        ) {
                            FLOOR
                        } else {
                            BLANK
                        }),
                decreases nodes.len() - i,
            {
                let room = match nodes[i] {
                    Some(node) => node.room,
                    None => None,
                };
                match room {
                    Some(room) => {
                        if room.1 <= y && y < room.3 {
                            let mut x: i32 = room.0;
                            while x < room.2
                                invariant
                                    drawable(nodes@),
                                    height == grid_columns(nodes@),
                                    i < nodes.len(),
                                    nodes@[i as int] is Some,
                                    nodes@[i as int]->0.room == Some(room),
                                    room.1 <= y < room.3,
                                    room.0 <= x,
                                    x <= room.2 || x == room.0,
                                    row@.len() == height,
                                    forall|u: int|
                                        0 <= u < height ==> #[trigger] row@[u] == (
                                        if covered_by_first(nodes@, i as int, u, y as int) || (
                                        room.0 <= u < x) {
                                            FLOOR
                                        } else {
                                            BLANK
                                        }),
                                decreases room.2 - x,
                            {
                                row.set(x as usize, FLOOR);
                                x += 1;
                            }
                            assert forall|u: int| 0 <= u < height implies (room.0 <= u < x
                                <==> room_covers(nodes@[i as int], u, y as int)) by {}
                        }
                    },
                    None => {},
                }
                assert forall|u: int| 0 <= u < height implies #[trigger] row@[u] == (
                if covered_by_first(nodes@, i as int, u, y as int) || room_covers(
                    nodes@[i as int],
                    u,
                    y as int,
                ) {
                    FLOOR
                } else {
                    BLANK
                }) by {}
                proof {
                    assert forall|x: int| 0 <= x < height implies (covered_by_first(
                        nodes@,
                        i + 1,
                        x,
                        y as int,
                    ) <==> covered_by_first(nodes@, i as int, x, y as int) || room_covers(
                        nodes@[i as int],
                        x,
                        y as int,
                    )) by {
                        if covered_by_first(nodes@, i + 1, x, y as int) {
                            let w = choose|w: int|
                                0 <= w < i + 1 && #[trigger] room_covers(nodes@[w], x, y as int);
                            if w < i {
                                assert(covered_by_first(nodes@, i as int, x, y as int));
                            }
                        }
                        if covered_by_first(nodes@, i as int, x, y as int) {
                            let w = choose|w: int|
                                0 <= w < i && #[trigger] room_covers(nodes@[w], x, y as int);
                            assert(room_covers(nodes@[w], x, y as int));
                        }
                        if room_covers(nodes@[i as int], x, y as int) {
                            assert(covered_by_first(nodes@, i + 1, x, y as int));
                        }
                    }
                }
                i += 1;
            }
            grid.push(row);
            y += 1;
        }
        grid
    }
}

} // verus!
