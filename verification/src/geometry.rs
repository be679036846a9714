//! Points on the integer grid and the compass direction from one to another.
//!
//! The grid is a screen grid: `x` grows to the east and `y` grows to the
//! south.

use vstd::prelude::*;

verus! {

/// The compass sector in which a second point lies, seen from a first.
#[derive(Debug, Clone, Copy, PartialEq, Eq)]
pub enum RectFace {
    North,
    South,
    East,
    West,
    NorthEast,
    SouthEast,
    SouthWest,
    NorthWest,
    /// The two points coincide.
    Same,
}

/// Whether `v` is a coordinate of the grid.
pub open spec fn on_grid(v: int) -> bool {
    i32::MIN <= v <= i32::MAX
}

/// The quotient of `a` by a positive `d`, rounded toward zero.
pub open spec fn div_toward_zero(a: int, d: int) -> int {
    if a >= 0 {
        a / d
    } else {
        -((-a) / d)
    }
}

/// The sector of `goal` seen from `start`.
pub open spec fn direction_of(start: (i32, i32), goal: (i32, i32)) -> RectFace {
    if goal.0 > start.0 {
        if goal.1 == start.1 {
            RectFace::East
        } else if goal.1 < start.1 {
            RectFace::NorthEast
        } else {
            RectFace::SouthEast
        }
    } else if goal.0 < start.0 {
        if goal.1 == start.1 {
            RectFace::West
        } else if goal.1 > start.1 {
            RectFace::SouthWest
        } else {
            RectFace::NorthWest
        }
    } else if goal.1 > start.1 {
        RectFace::South
    } else if goal.1 < start.1 {
        RectFace::North
    } else {
        RectFace::Same
    }
}

/// Classifies the direction of `point_2` relative to `point_1`.
pub fn get_direction_of_point(point_1: (i32, i32), point_2: (i32, i32)) -> (face: RectFace)
    ensures
        face == direction_of(point_1, point_2),
{
    let x1 = point_1.0;
    let x2 = point_2.0;
    let y1 = point_1.1;
    let y2 = point_2.1;

    if x2 > x1 {
        if y2 == y1 {
            return RectFace::East;
        } else if y2 < y1 {
            return RectFace::NorthEast;
        } else {
            return RectFace::SouthEast;
        }
    } else if x2 < x1 {
        if y2 == y1 {
            return RectFace::West;
        } else if y2 > y1 {
            return RectFace::SouthWest;
        } else {
            return RectFace::NorthWest;
        }
    } else if y2 > y1 {
        return RectFace::South;
    } else if y2 < y1 {
        return RectFace::North;
    }
    RectFace::Same
}

} // verus!
