use crate::entity::Tile;
use vstd::prelude::*;

verus! {

/// `(x, y)` lies on a grid of `w` columns and `h` rows.
pub open spec fn in_map(x: int, y: int, w: int, h: int) -> bool {
    0 <= x < w && 0 <= y < h
}

/// The flat index of `(x, y)`: rows are laid out one after another.
pub open spec fn index_of(x: int, y: int, w: int) -> int {
    y * w + x
}

/// A tile sequence addresses a `w` by `h` grid.
pub open spec fn grid_shape(len: int, w: int, h: int) -> bool {
    0 <= w && 0 <= h && len == w * h
}

/// The tile at `(x, y)`.
pub open spec fn tile_at(grid: Seq<Tile>, w: int, x: int, y: int) -> Tile {
    grid[index_of(x, y, w)]
}

/// A coordinate on the grid has an index inside the tile sequence, and its
/// column and row come back from that index by `%` and `/`.
pub proof fn lemma_index_in_bounds(x: int, y: int, w: int, h: int)
    requires
        in_map(x, y, w, h),
    ensures
        0 <= index_of(x, y, w) < w * h,
        index_of(x, y, w) % w == x,
        index_of(x, y, w) / w == y,
{
    assert(0 <= y * w) by (nonlinear_arith)
        requires
            0 <= y,
            0 <= w,
    ;
    assert(y * w + x < w * h) by (nonlinear_arith)
        requires
            0 <= x < w,
            0 <= y < h,
    ;
    vstd::arithmetic::div_mod::lemma_fundamental_div_mod_converse(y * w + x, w, y, x);
}

/// A grid coordinate.
#[derive(Copy, Clone, Debug, PartialEq, Eq, Structural)]
pub struct Point {
    pub x: i32,
    pub y: i32,
}

/// `a` and `b` are distinct and touch by a side or a corner.
pub open spec fn adjacent(a: Point, b: Point) -> bool {
    &&& -1 <= a.x - b.x <= 1
    &&& -1 <= a.y - b.y <= 1
    &&& a != b
}

/// `(x, y)` is on the grid, crossable, and has been seen at least once.
pub open spec fn passable(grid: Seq<Tile>, w: int, h: int, x: int, y: int) -> bool {
    &&& in_map(x, y, w, h)
    &&& tile_at(grid, w, x, y).crossable
    &&& tile_at(grid, w, x, y).visited
}

/// Each step of `steps` goes to an adjacent coordinate, and every coordinate
/// after the first is passable.
pub open spec fn is_walk(grid: Seq<Tile>, w: int, h: int, steps: Seq<Point>) -> bool {
    &&& forall|i: int| 0 <= i < steps.len() - 1 ==> #[trigger] adjacent(steps[i], steps[i + 1])
    &&& forall|i: int|
        1 <= i < steps.len() ==> #[trigger] passable(grid, w, h, steps[i].x as int, steps[i].y as int)
}

/// Some walk over passable tiles leads from `from` to `to`.
pub open spec fn reachable(grid: Seq<Tile>, w: int, h: int, from: Point, to: Point) -> bool {
    exists|steps: Seq<Point>|
        {
            &&& steps.len() >= 1
            &&& steps[0] == from
            &&& steps.last() == to
            &&& #[trigger] is_walk(grid, w, h, steps)
        }
}

/// `route` runs from its first coordinate back to `start`: every step goes
/// to an adjacent coordinate, and every coordinate but the last is passable.
pub open spec fn leads_back(grid: Seq<Tile>, w: int, h: int, route: Seq<Point>, start: Point) -> bool {
    route.len() > 0 ==> {
        &&& route.last() == start
        &&& forall|i: int|
            0 <= i < route.len() - 1 ==> {
                &&& #[trigger] adjacent(route[i], route[i + 1])
                &&& passable(grid, w, h, route[i].x as int, route[i].y as int)
            }
    }
}

} // verus!
