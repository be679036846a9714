//! Corridor paths: walkable point sequences between two grid points.
//!
//! Two points that share a row or a column are joined by the straight run
//! between them. Any other pair is joined by an elbow: two straight legs that
//! meet at a right angle. Which leg comes first, and in which direction each
//! is laid out, depends on the compass sector of the second point.

use vstd::prelude::*;
use crate::geometry::{direction_of, get_direction_of_point, on_grid, RectFace};

verus! {

/// One corridor: its points in walking order.
#[derive(Debug, PartialEq)]
pub struct DungeonPath {
    pub sub_paths: Vec<Option<(i32, i32)>>,
}

impl Clone for DungeonPath {
    fn clone(&self) -> (copy: DungeonPath)
        ensures
            copy@ == self@,
    {
        let mut points: Vec<Option<(i32, i32)>> = Vec::new();
        let mut k: usize = 0;
        while k < self.sub_paths.len()
            invariant
                k <= self.sub_paths.len(),
                points@ == self.sub_paths@.take(k as int),
            decreases self.sub_paths.len() - k,
        {
            points.push(self.sub_paths[k]);
            assert(points@ =~= self.sub_paths@.take(k + 1));
            k += 1;
        }
        assert(points@ =~= self.sub_paths@);
        DungeonPath { sub_paths: points }
    }
}

impl View for DungeonPath {
    type V = Seq<Option<(i32, i32)>>;

    open spec fn view(&self) -> Seq<Option<(i32, i32)>> {
        self.sub_paths@
    }
}

/// The points `(lo, y), (lo + 1, y), .., (hi, y)`; none when `hi < lo`.
pub open spec fn row_ascending(lo: int, hi: int, y: int) -> Seq<Option<(i32, i32)>> {
    Seq::new(
        (if hi >= lo { hi - lo + 1 } else { 0 }) as nat,
        |i: int| Some(((lo + i) as i32, y as i32)),
    )
}

/// The points `(hi, y), (hi - 1, y), .., (lo, y)`; none when `hi < lo`.
pub open spec fn row_descending(hi: int, lo: int, y: int) -> Seq<Option<(i32, i32)>> {
    Seq::new(
        (if hi >= lo { hi - lo + 1 } else { 0 }) as nat,
        |i: int| Some(((hi - i) as i32, y as i32)),
    )
}

/// The points `(x, lo), (x, lo + 1), .., (x, hi)`; none when `hi < lo`.
pub open spec fn column_ascending(x: int, lo: int, hi: int) -> Seq<Option<(i32, i32)>> {
    Seq::new(
        (if hi >= lo { hi - lo + 1 } else { 0 }) as nat,
        |i: int| Some((x as i32, (lo + i) as i32)),
    )
}

/// The points `(x, hi), (x, hi - 1), .., (x, lo)`; none when `hi < lo`.
pub open spec fn column_descending(x: int, hi: int, lo: int) -> Seq<Option<(i32, i32)>> {
    Seq::new(
        (if hi >= lo { hi - lo + 1 } else { 0 }) as nat,
        |i: int| Some((x as i32, (hi - i) as i32)),
    )
}

/// Every grid point of the row `y` from `from` to `to`, both included, in
/// the direction from `from` to `to`.
pub open spec fn row_run(from: int, to: int, y: int) -> Seq<Option<(i32, i32)>> {
    if from <= to {
        row_ascending(from, to, y)
    } else {
        row_descending(from, to, y)
    }
}

/// Every grid point of the column `x` from `from` to `to`, both included, in
/// the direction from `from` to `to`.
pub open spec fn column_run(x: int, from: int, to: int) -> Seq<Option<(i32, i32)>> {
    if from <= to {
        column_ascending(x, from, to)
    } else {
        column_descending(x, from, to)
    }
}

/// Whether the two points share a row or a column.
pub open spec fn orthogonal(start: (i32, i32), goal: (i32, i32)) -> bool {
    start.0 == goal.0 || start.1 == goal.1
}

/// The elbow from `start` toward `goal` with legs of the given lengths.
///
/// | sector of `goal` | first leg                         | second leg                          |
/// |----------------|-----------------------------------|-------------------------------------|
/// | north-east     | east along the row of `start`        | the column at its end, going north  |
/// | south-east     | south along the column of `start`    | the row at its end, going east      |
/// | south-west     | west along the row of `start`        | the column at its end, going south  |
/// | north-west     | north along the column of `start`    | the row at its end, going west      |
///
/// Each leg is listed with ascending coordinate, so a leg that runs west or
/// north is listed from its far end back to its start. A leg of negative
/// length has no points.
pub open spec fn elbow(start: (i32, i32), goal: (i32, i32), first_leg: int, second_leg: int) -> Seq<
    Option<(i32, i32)>,
> {
    let x1 = start.0 as int;
    let y1 = start.1 as int;
    match direction_of(start, goal) {
        RectFace::NorthEast => row_ascending(x1, x1 + first_leg, y1) + column_ascending(
            x1 + first_leg,
            y1 - second_leg,
            y1,
        ),
        RectFace::SouthEast => column_ascending(x1, y1, y1 + first_leg) + row_ascending(
            x1,
            x1 + second_leg,
            y1 + first_leg,
        ),
        RectFace::SouthWest => row_ascending(x1 - first_leg, x1, y1) + column_ascending(
            x1 - first_leg,
            y1,
            y1 + second_leg,
        ),
        RectFace::NorthWest => column_ascending(x1, y1 - first_leg, y1) + row_ascending(
            x1 - second_leg,
            x1,
            y1 - first_leg,
        ),
        _ => Seq::empty(),
    }
}

/// Whether the corner and the far end of the elbow lie on the grid.
pub open spec fn legs_fit(start: (i32, i32), goal: (i32, i32), first_leg: int, second_leg: int) -> bool {
    let x1 = start.0 as int;
    let y1 = start.1 as int;
    orthogonal(start, goal) || match direction_of(start, goal) {
        RectFace::NorthEast => on_grid(x1 + first_leg) && on_grid(y1 - second_leg),
        RectFace::SouthEast => on_grid(y1 + first_leg) && on_grid(x1 + second_leg),
        RectFace::SouthWest => on_grid(x1 - first_leg) && on_grid(y1 + second_leg),
        RectFace::NorthWest => on_grid(y1 - first_leg) && on_grid(x1 - second_leg),
        _ => true,
    }
}

/// The corridor from `start` to `goal`: the straight run where the points share a
/// row or a column (the leg lengths then play no part), the elbow otherwise.
pub open spec fn path_points(start: (i32, i32), goal: (i32, i32), first_leg: int, second_leg: int) -> Seq<
    Option<(i32, i32)>,
> {
    if start.1 == goal.1 {
        row_run(start.0 as int, goal.0 as int, start.1 as int)
    } else if start.0 == goal.0 {
        column_run(start.0 as int, start.1 as int, goal.1 as int)
    } else {
        elbow(start, goal, first_leg, second_leg)
    }
}

fn push_row_ascending(points: &mut Vec<Option<(i32, i32)>>, lo: i32, hi: i32, y: i32)
    ensures
        final(points)@ == old(points)@ + row_ascending(lo as int, hi as int, y as int),
{
    let mut x: i64 = lo as i64;
    assert(points@ =~= old(points)@ + row_ascending(lo as int, x - 1, y as int));
    while x <= hi as i64
        invariant
            lo <= x,
            x <= hi + 1 || (hi < lo && x == lo),
            points@ == old(points)@ + row_ascending(lo as int, x - 1, y as int),
        decreases hi - x + 1,
    {
        points.push(Some((x as i32, y)));
        assert(points@ =~= old(points)@ + row_ascending(lo as int, x as int, y as int));
        x += 1;
    }
    assert(row_ascending(lo as int, x - 1, y as int) =~= row_ascending(
        lo as int,
        hi as int,
        y as int,
    ));
}

fn push_row_descending(points: &mut Vec<Option<(i32, i32)>>, hi: i32, lo: i32, y: i32)
    ensures
        final(points)@ == old(points)@ + row_descending(hi as int, lo as int, y as int),
{
    let mut x: i64 = hi as i64;
    assert(points@ =~= old(points)@ + row_descending(hi as int, x + 1, y as int));
    while x >= lo as i64
        invariant
            x <= hi,
            x >= lo - 1 || (hi < lo && x == hi),
            points@ == old(points)@ + row_descending(hi as int, x + 1, y as int),
        decreases x - lo + 1,
    {
        points.push(Some((x as i32, y)));
        assert(points@ =~= old(points)@ + row_descending(hi as int, x as int, y as int));
        x -= 1;
    }
    assert(row_descending(hi as int, x + 1, y as int) =~= row_descending(
        hi as int,
        lo as int,
        y as int,
    ));
}

fn push_column_ascending(points: &mut Vec<Option<(i32, i32)>>, x: i32, lo: i32, hi: i32)
    ensures
        final(points)@ == old(points)@ + column_ascending(x as int, lo as int, hi as int),
{
    let mut y: i64 = lo as i64;
    assert(points@ =~= old(points)@ + column_ascending(x as int, lo as int, y - 1));
    while y <= hi as i64
        invariant
            lo <= y,
            y <= hi + 1 || (hi < lo && y == lo),
            points@ == old(points)@ + column_ascending(x as int, lo as int, y - 1),
        decreases hi - y + 1,
    {
        points.push(Some((x, y as i32)));
        assert(points@ =~= old(points)@ + column_ascending(x as int, lo as int, y as int));
        y += 1;
    }
    assert(column_ascending(x as int, lo as int, y - 1) =~= column_ascending(
        x as int,
        lo as int,
        hi as int,
    ));
}

fn push_column_descending(points: &mut Vec<Option<(i32, i32)>>, x: i32, hi: i32, lo: i32)
    ensures
        final(points)@ == old(points)@ + column_descending(x as int, hi as int, lo as int),
{
    let mut y: i64 = hi as i64;
    assert(points@ =~= old(points)@ + column_descending(x as int, hi as int, y + 1));
    while y >= lo as i64
        invariant
            y <= hi,
            y >= lo - 1 || (hi < lo && y == hi),
            points@ == old(points)@ + column_descending(x as int, hi as int, y + 1),
        decreases y - lo + 1,
    {
        points.push(Some((x, y as i32)));
        assert(points@ =~= old(points)@ + column_descending(x as int, hi as int, y as int));
        y -= 1;
    }
    assert(column_descending(x as int, hi as int, y + 1) =~= column_descending(
        x as int,
        hi as int,
        lo as int,
    ));
}

/// Lays out the corridor from `point_1` to `point_2`.
///
/// `first_leg` and `second_leg` are the lengths of the two legs of an elbow;
/// they are read only when the points share neither a row nor a column.
pub fn get_path(point_1: (i32, i32), point_2: (i32, i32), first_leg: i32, second_leg: i32) -> (path:
    DungeonPath)
    requires
        legs_fit(point_1, point_2, first_leg as int, second_leg as int),
    ensures
        path@ == path_points(point_1, point_2, first_leg as int, second_leg as int),
{
    let mut points: Vec<Option<(i32, i32)>> = Vec::new();

    if point_1.1 == point_2.1 {
        if point_1.0 <= point_2.0 {
            push_row_ascending(&mut points, point_1.0, point_2.0, point_1.1);
        } else {
            push_row_descending(&mut points, point_1.0, point_2.0, point_1.1);
        }
    } else if point_1.0 == point_2.0 {
        if point_1.1 <= point_2.1 {
            push_column_ascending(&mut points, point_1.0, point_1.1, point_2.1);
        } else {
            push_column_descending(&mut points, point_1.0, point_1.1, point_2.1);
        }
    } else {
        match get_direction_of_point(point_1, point_2) {
            RectFace::NorthEast => {
                let midpoint = (point_1.0 + first_leg, point_1.1);
                push_row_ascending(&mut points, point_1.0, midpoint.0, point_1.1);
                let endpoint = (midpoint.0, midpoint.1 - second_leg);
                push_column_ascending(&mut points, endpoint.0, endpoint.1, midpoint.1);
            },
            RectFace::SouthEast => {
                let midpoint = (point_1.0, point_1.1 + first_leg);
                push_column_ascending(&mut points, point_1.0, point_1.1, midpoint.1);
                let endpoint = (midpoint.0 + second_leg, midpoint.1);
                push_row_ascending(&mut points, midpoint.0, endpoint.0, endpoint.1);
            },
            RectFace::SouthWest => {
                let midpoint = (point_1.0 - first_leg, point_1.1);
                push_row_ascending(&mut points, midpoint.0, point_1.0, point_1.1);
                let endpoint = (midpoint.0, midpoint.1 + second_leg);
                push_column_ascending(&mut points, endpoint.0, midpoint.1, endpoint.1);
            },
            RectFace::NorthWest => {
                let midpoint = (point_1.0, point_1.1 - first_leg);
                push_column_ascending(&mut points, point_1.0, midpoint.1, point_1.1);
                let endpoint = (midpoint.0 - second_leg, midpoint.1);
                push_row_ascending(&mut points, endpoint.0, midpoint.0, endpoint.1);
            },
            _ => {},
        }
    }
    assert(points@ =~= path_points(point_1, point_2, first_leg as int, second_leg as int));
    DungeonPath { sub_paths: points }
}

/// A corridor has a point at each of its positions.
pub proof fn lemma_path_points_present(
    start: (i32, i32),
    goal: (i32, i32),
    first_leg: int,
    second_leg: int,
)
    ensures
        forall|k: int|
            0 <= k < path_points(start, goal, first_leg, second_leg).len() ==> (#[trigger] path_points(
                start,
                goal,
                first_leg,
                second_leg,
            )[k]) is Some,
{
}

/// A straight corridor walked backwards is the straight corridor between
/// the same two points taken in the other order: for points that share a row
/// or a column, the path from `a` to `b`, reversed, is the path from `b` to
/// `a`, whatever leg lengths either is given.
pub proof fn lemma_orthogonal_path_reverses(
    a: (i32, i32),
    b: (i32, i32),
    legs_ab: (int, int),
    legs_ba: (int, int),
)
    requires
        orthogonal(a, b),
    ensures
        path_points(a, b, legs_ab.0, legs_ab.1).reverse() == path_points(
            b,
            a,
            legs_ba.0,
            legs_ba.1,
        ),
{
    assert(path_points(a, b, legs_ab.0, legs_ab.1).reverse() =~= path_points(
        b,
        a,
        legs_ba.0,
        legs_ba.1,
    ));
}

} // verus!
