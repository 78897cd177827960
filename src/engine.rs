use crate::entity::{Entity, Rgba, Tile};
use crate::grid::{grid_shape, in_map, index_of, lemma_index_in_bounds, tile_at};
pub use crate::astar::path_finder;
pub use crate::vision::fov;
use vstd::prelude::*;

verus! {

/// The eight compass directions, plus `Stay` for standing still.
#[derive(Copy, Clone, Debug, PartialEq, Eq, Structural)]
pub enum Direction {
    Stay,
    North,
    NorthEast,
    NorthWest,
    South,
    SouthEast,
    SouthWest,
    East,
    West,
}

/// What an actor can do on its turn.
pub enum Action {
    Move,
}

/// The coordinate step of a direction; north is towards smaller `y`.
pub open spec fn delta_of(dir: Direction) -> (int, int) {
    match dir {
        Direction::Stay => (0, 0),
        Direction::North => (0, -1),
        Direction::NorthWest => (-1, -1),
        Direction::NorthEast => (1, -1),
        Direction::South => (0, 1),
        Direction::SouthWest => (-1, 1),
        Direction::SouthEast => (1, 1),
        Direction::East => (1, 0),
        Direction::West => (-1, 0),
    }
}

/// The direction whose step is `(dx, dy)`; any other pair stands still.
pub open spec fn direction_of(dx: int, dy: int) -> Direction {
    if -1 <= dx <= 1 && -1 <= dy <= 1 {
        if dx == 0 && dy == 0 {
            Direction::Stay
        } else if dx == 0 {
            if dy < 0 { Direction::North } else { Direction::South }
        } else if dx > 0 {
            if dy < 0 {
                Direction::NorthEast
            } else if dy == 0 {
                Direction::East
            } else {
                Direction::SouthEast
            }
        } else {
            if dy < 0 {
                Direction::NorthWest
            } else if dy == 0 {
                Direction::West
            } else {
                Direction::SouthWest
            }
        }
    } else {
        Direction::Stay
    }
}

/// Take a geographical direction and return a movement tuple.
pub fn delta_pos(dir: Direction) -> (r: (i32, i32))
    ensures
        r.0 as int == delta_of(dir).0,
        r.1 as int == delta_of(dir).1,
{
    match dir {
        Direction::Stay => (0, 0),
        Direction::North => (0, -1),
        Direction::NorthWest => (-1, -1),
        Direction::NorthEast => (1, -1),
        Direction::South => (0, 1),
        Direction::SouthWest => (-1, 1),
        Direction::SouthEast => (1, 1),
        Direction::East => (1, 0),
        Direction::West => (-1, 0),
    }
}

/// Take a movement tuple and return a geographical direction.
pub fn orientation(dir: (i32, i32)) -> (r: Direction)
    ensures
        r == direction_of(dir.0 as int, dir.1 as int),
{
    match dir {
        (0, 0) => Direction::Stay,
        (1, 0) => Direction::East,
        (-1, 0) => Direction::West,
        (0, 1) => Direction::South,
        (0, -1) => Direction::North,
        (1, 1) => Direction::SouthEast,
        (1, -1) => Direction::NorthEast,
        (-1, 1) => Direction::SouthWest,
        (-1, -1) => Direction::NorthWest,
        _ => Direction::Stay,
    }
}

/// Turning a direction into its step and back gives the same direction.
pub proof fn lemma_orientation_inverts_delta(dir: Direction)
    ensures
        direction_of(delta_of(dir).0, delta_of(dir).1) == dir,
{
}

/// `(x, y)` is on the grid and its tile can be walked onto.
pub open spec fn crossable_at(grid: Seq<Tile>, w: int, h: int, x: int, y: int) -> bool {
    in_map(x, y, w, h) && tile_at(grid, w, x, y).crossable
}

/// Whether the step from `(x, y)` towards `dir` ends on a crossable tile.
pub open spec fn destination_open(
    grid: Seq<Tile>,
    w: int,
    h: int,
    x: int,
    y: int,
    dir: Direction,
) -> bool {
    crossable_at(grid, w, h, x + delta_of(dir).0, y + delta_of(dir).1)
}

/// Whether `(x, y)` lies on a grid of `w` columns and `h` rows.
pub fn is_in_map(x: i32, y: i32, w: i32, h: i32) -> (r: bool)
    ensures
        r == in_map(x as int, y as int, w as int, h as int),
{
    x >= 0 && x < w && y >= 0 && y < h
}

/// Whether the tile one step from `(player_x, player_y)` towards `dir` is on
/// the grid and crossable. The bounds are checked before the tile is read.
pub fn check_crossable_destination(
    player_x: i32,
    player_y: i32,
    dir: Direction,
    level_map: &Vec<Tile>,
    w: i32,
    h: i32,
) -> (r: bool)
    requires
        grid_shape(level_map@.len() as int, w as int, h as int),
    ensures
        r == destination_open(level_map@, w as int, h as int, player_x as int, player_y as int, dir),
{
    let d = delta_pos(dir);
    let x = player_x as i64 + d.0 as i64;
    let y = player_y as i64 + d.1 as i64;
    if x >= 0 && x < w as i64 && y >= 0 && y < h as i64 {
        proof {
            lemma_index_in_bounds(x as int, y as int, w as int, h as int);
            assert(w * h < 0x4000_0000_0000_0000) by (nonlinear_arith)
                requires
                    0 <= w < 0x8000_0000,
                    0 <= h < 0x8000_0000,
            ;
        }
        let n = level_map.len();
        let z = y * w as i64 + x;
        assert(z < n);
        level_map[z as usize].crossable
    } else {
        false
    }
}

/// Apply one step towards `dir` to the entity's position. Nothing is
/// checked: callers test the destination first.
pub fn move_entity(entity: &mut Entity, dir: Direction)
    requires
        i32::MIN <= old(entity).x + delta_of(dir).0 <= i32::MAX,
        i32::MIN <= old(entity).y + delta_of(dir).1 <= i32::MAX,
    ensures
        final(entity).x == old(entity).x + delta_of(dir).0,
        final(entity).y == old(entity).y + delta_of(dir).1,
        final(entity).entity == old(entity).entity,
        final(entity).glyph == old(entity).glyph,
        final(entity).fg_color == old(entity).fg_color,
        final(entity).bg_color == old(entity).bg_color,
        final(entity).data@ == old(entity).data@,
{
    let delta = delta_pos(dir);
    entity.x = entity.x + delta.0;
    entity.y = entity.y + delta.1;
}

/// A move made after a successful destination check leaves the entity on a
/// crossable tile of the grid.
pub proof fn lemma_checked_move_lands_on_crossable(
    grid: Seq<Tile>,
    w: int,
    h: int,
    x: int,
    y: int,
    dir: Direction,
)
    requires
        grid_shape(grid.len() as int, w, h),
        destination_open(grid, w, h, x, y, dir),
    ensures
        in_map(x + delta_of(dir).0, y + delta_of(dir).1, w, h),
        0 <= index_of(x + delta_of(dir).0, y + delta_of(dir).1, w) < grid.len(),
        tile_at(grid, w, x + delta_of(dir).0, y + delta_of(dir).1).crossable,
{
    lemma_index_in_bounds(x + delta_of(dir).0, y + delta_of(dir).1, w, h);
}

/// The squared Euclidean distance between two points.
pub open spec fn sq_dist(x1: int, y1: int, x2: int, y2: int) -> int {
    (x1 - x2) * (x1 - x2) + (y1 - y2) * (y1 - y2)
}

/// The squared distance between `(x1, y1)` and `(x2, y2)`: the path finder's
/// estimate of the cost still to pay.
pub fn distance(x1: i32, y1: i32, x2: i32, y2: i32) -> (r: i32)
    requires
        sq_dist(x1 as int, y1 as int, x2 as int, y2 as int) <= i32::MAX,
    ensures
        r == sq_dist(x1 as int, y1 as int, x2 as int, y2 as int),
{
    let dx = x1 as i128 - x2 as i128;
    let dy = y1 as i128 - y2 as i128;
    assert(0 <= dx * dx <= 0x1_0000_0000_0000_0000i128) by (nonlinear_arith)
        requires
            -0x1_0000_0000 <= dx <= 0x1_0000_0000,
    ;
    assert(0 <= dy * dy <= 0x1_0000_0000_0000_0000i128) by (nonlinear_arith)
        requires
            -0x1_0000_0000 <= dy <= 0x1_0000_0000,
    ;
    (dx * dx + dy * dy) as i32
}

/// The dimmed colour of a tile seen before but not in sight now: each
/// channel at half intensity, rounded down.
pub fn visited_color(color: Rgba) -> (r: (u8, u8, u8))
    ensures
        r.0 == color.r / 2,
        r.1 == color.g / 2,
        r.2 == color.b / 2,
{
    (color.r / 2, color.g / 2, color.b / 2)
}

} // verus!
