//! Cells, walls and routes of a bounded grid.

use vstd::prelude::*;
use crate::point::{Point, manhattan};

verus! {

/// Whether `p` is a cell of the grid: its coordinates lie in
/// `[0, width) x [0, height)`.
pub open spec fn in_grid(p: Point, width: usize, height: usize) -> bool {
    0 <= p.x < width && 0 <= p.y < height
}

/// Whether `p` is a cell of the grid that no wall stands on.
pub open spec fn free_cell(p: Point, width: usize, height: usize, walls: Seq<Point>) -> bool {
    in_grid(p, width, height) && !walls.contains(p)
}

/// Whether one move in a cardinal direction leads from `a` to `b`.
pub open spec fn adjacent(a: Point, b: Point) -> bool {
    manhattan(a, b) == 1
}

/// Whether `route` is a walk over free cells, each one move from the one
/// before it.
pub open spec fn is_route(route: Seq<Point>, width: usize, height: usize, walls: Seq<Point>) -> bool {
    &&& route.len() > 0
    &&& forall|i: int| 0 <= i < route.len() ==> free_cell(#[trigger] route[i], width, height, walls)
    &&& forall|i: int| 0 <= i < route.len() - 1 ==> adjacent(#[trigger] route[i], route[i + 1])
}

/// Whether `route` is a walk over free cells from `from` to `to`.
pub open spec fn joins(
    route: Seq<Point>,
    from: Point,
    to: Point,
    width: usize,
    height: usize,
    walls: Seq<Point>,
) -> bool {
    is_route(route, width, height, walls) && route[0] == from && route.last() == to
}

/// Whether some walk over free cells leads from `from` to `to`.
pub open spec fn reachable(from: Point, to: Point, width: usize, height: usize, walls: Seq<Point>) -> bool {
    exists|route: Seq<Point>| joins(route, from, to, width, height, walls)
}

/// Whether a grid of `width` by `height` cells can be searched: it has a
/// cell, and every cost that a search of it could give a node fits in 32
/// bits.
pub open spec fn searchable(width: usize, height: usize) -> bool {
    width > 0 && height > 0 && width * height + width + height <= i32::MAX
}

/// Whether a search can be asked for: the grid is searchable, and `start` and
/// `end` are free cells of it.
pub open spec fn valid_query(
    width: usize,
    height: usize,
    start: Point,
    end: Point,
    walls: Seq<Point>,
) -> bool {
    &&& searchable(width, height)
    &&& free_cell(start, width, height, walls)
    &&& free_cell(end, width, height, walls)
}

/// Whether no move leads from `p` to a free cell.
pub open spec fn walled_in(p: Point, width: usize, height: usize, walls: Seq<Point>) -> bool {
    forall|q: Point| #[trigger] adjacent(p, q) ==> !free_cell(q, width, height, walls)
}

/// No walk joins two different cells one of which is walled in.
pub proof fn lemma_walled_in_unreachable(
    from: Point,
    to: Point,
    width: usize,
    height: usize,
    walls: Seq<Point>,
)
    requires
        from != to,
        walled_in(from, width, height, walls) || walled_in(to, width, height, walls),
    ensures
        !reachable(from, to, width, height, walls),
{
    assert forall|route: Seq<Point>| !joins(route, from, to, width, height, walls) by {
        if joins(route, from, to, width, height, walls) {
            let n = route.len() as int;
            assert(n >= 2);
            assert(adjacent(route[0], route[0int + 1]));
            assert(free_cell(route[1], width, height, walls));
            assert(adjacent(route[n - 2], route[n - 2 + 1]));
            assert(adjacent(to, route[n - 2]));
            assert(free_cell(route[n - 2], width, height, walls));
        }
    }
}

/// The cells with coordinates in `[0, width) x [0, height)`.
pub open spec fn cells(width: int, height: int) -> Set<Point> {
    Set::new(|p: Point| 0 <= p.x < width && 0 <= p.y < height)
}

/// The cells of the column `x` with `y` in `[0, height)`.
pub open spec fn column(x: int, height: int) -> Set<Point> {
    Set::new(|p: Point| p.x == x && 0 <= p.y < height)
}

/// A column of `height` cells is a finite set of that many.
pub proof fn lemma_column(x: int, height: int)
    requires
        0 <= x <= i32::MAX,
        0 <= height <= i32::MAX,
    ensures
        column(x, height).finite(),
        column(x, height).len() == height,
    decreases height,
{
    if height == 0 {
        assert(column(x, height) =~= Set::<Point>::empty());
    } else {
        lemma_column(x, height - 1);
        let top = Point { x: x as i32, y: (height - 1) as i32 };
        assert(column(x, height) =~= column(x, height - 1).insert(top));
    }
}

/// A grid of `width` by `height` cells is a finite set of `width * height`.
pub proof fn lemma_cells(width: int, height: int)
    requires
        0 <= width <= i32::MAX,
        0 <= height <= i32::MAX,
    ensures
        cells(width, height).finite(),
        cells(width, height).len() == width * height,
    decreases width,
{
    if width == 0 {
        assert(cells(width, height) =~= Set::<Point>::empty());
        assert(width * height == 0) by (nonlinear_arith)
            requires
                width == 0,
        ;
    } else {
        lemma_cells(width - 1, height);
        lemma_column(width - 1, height);
        let left = cells(width - 1, height);
        let last = column(width - 1, height);
        assert(cells(width, height) =~= left + last);
        assert(left.disjoint(last));
        vstd::set_lib::lemma_set_disjoint_lens(left, last);
        assert((width - 1) * height + height == width * height) by (nonlinear_arith);
    }
}

} // verus!
