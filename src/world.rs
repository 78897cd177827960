use crate::chance::random_in;
use crate::entity::{Entity, EntityType, ItemType, Tile};
use crate::grid::{grid_shape, in_map, index_of, lemma_index_in_bounds};
use vstd::prelude::*;

verus! {

/// The ways a level can be generated.
#[derive(Copy, Clone, Debug, PartialEq, Eq, Structural)]
pub enum GenerationType {
    Random,
    Cave,
    Floor,
}

/// Attempts the spawner makes to place an actor.
pub const SPAWN_TRIES: i32 = 20;

/// Columns of sectors a cave is divided into.
pub const H_CELLS: i32 = 8;

/// Rows of sectors a cave is divided into.
pub const V_CELLS: i32 = 6;

/// Number of sectors, each seeded with one floor cell.
pub const SECTORS: i32 = 48;

/// Rounds of growth after seeding.
pub const GROWTH_CYCLES: i32 = 12;

/// A grid on which a cave can be laid out: every sector is at least two
/// cells wide and high, and the cell count fits in an `i32`.
pub open spec fn cave_size_ok(w: int, h: int) -> bool {
    &&& 2 * H_CELLS <= w
    &&& 2 * V_CELLS <= h
    &&& w * h <= i32::MAX
}

/// One offset per sector, column of sectors after column, each strictly
/// inside its sector: `1 <= dx < w / H_CELLS` and `1 <= dy < h / V_CELLS`.
pub open spec fn offsets_ok(w: int, h: int, offsets: Seq<(i32, i32)>) -> bool {
    &&& offsets.len() == SECTORS
    &&& forall|s: int|
        0 <= s < SECTORS ==> {
            &&& 1 <= (#[trigger] offsets[s]).0 < w / (H_CELLS as int)
            &&& 1 <= offsets[s].1 < h / (V_CELLS as int)
        }
}

/// The column of the seed of sector `s`.
pub open spec fn seed_x(w: int, offsets: Seq<(i32, i32)>, s: int) -> int {
    (s / (V_CELLS as int)) * (w / (H_CELLS as int)) + offsets[s].0
}

/// The row of the seed of sector `s`.
pub open spec fn seed_y(h: int, offsets: Seq<(i32, i32)>, s: int) -> int {
    (s % (V_CELLS as int)) * (h / (V_CELLS as int)) + offsets[s].1
}

/// The flat index of the seed of sector `s`.
pub open spec fn seed_cell(w: int, h: int, offsets: Seq<(i32, i32)>, s: int) -> int {
    index_of(seed_x(w, offsets, s), seed_y(h, offsets, s), w)
}

/// A grid of mud wall with the seeds of the first `m` sectors made floor.
pub open spec fn seeded_upto(w: int, h: int, offsets: Seq<(i32, i32)>, m: int) -> Seq<ItemType>
    decreases m,
{
    if m <= 0 {
        Seq::new((w * h) as nat, |z: int| ItemType::MudWall)
    } else {
        seeded_upto(w, h, offsets, m - 1).update(seed_cell(w, h, offsets, m - 1), ItemType::StoneFloor)
    }
}

/// A grid of mud wall with the seed of every sector made floor.
pub open spec fn seeded(w: int, h: int, offsets: Seq<(i32, i32)>) -> Seq<ItemType> {
    seeded_upto(w, h, offsets, SECTORS as int)
}

/// How many cells of `kinds` are mud wall.
pub open spec fn wall_count(kinds: Seq<ItemType>) -> nat
    decreases kinds.len(),
{
    if kinds.len() == 0 {
        0
    } else {
        wall_count(kinds.drop_last()) + if kinds.last() is MudWall {
            1nat
        } else {
            0nat
        }
    }
}

/// The seed of every sector lies inside that sector.
proof fn lemma_seed_in_sector(w: int, h: int, offsets: Seq<(i32, i32)>, s: int)
    requires
        cave_size_ok(w, h),
        offsets_ok(w, h, offsets),
        0 <= s < SECTORS,
    ensures
        (s / 6) * (w / 8) < seed_x(w, offsets, s) < (s / 6 + 1) * (w / 8),
        (s % 6) * (h / 6) < seed_y(h, offsets, s) < (s % 6 + 1) * (h / 6),
        in_map(seed_x(w, offsets, s), seed_y(h, offsets, s), w, h),
        0 <= seed_cell(w, h, offsets, s) < w * h,
{
    let i = s / 6;
    let j = s % 6;
    let sw = w / 8;
    let sh = h / 6;
    assert(0 <= i < 8 && 0 <= j < 6);
    assert(8 * sw <= w && 6 * sh <= h);
    assert(offsets[s].0 < sw && offsets[s].1 < sh);
    assert((i + 1) * sw <= 8 * sw) by (nonlinear_arith)
        requires
            i < 8,
            0 <= sw,
    ;
    assert((j + 1) * sh <= 6 * sh) by (nonlinear_arith)
        requires
            j < 6,
            0 <= sh,
    ;
    assert((i + 1) * sw == i * sw + sw) by (nonlinear_arith);
    assert((j + 1) * sh == j * sh + sh) by (nonlinear_arith);
    assert(0 <= i * sw) by (nonlinear_arith)
        requires
            0 <= i,
            0 <= sw,
    ;
    assert(0 <= j * sh) by (nonlinear_arith)
        requires
            0 <= j,
            0 <= sh,
    ;
    lemma_index_in_bounds(seed_x(w, offsets, s), seed_y(h, offsets, s), w, h);
}

proof fn lemma_wall_count_all_walls(n: nat)
    ensures
        wall_count(Seq::new(n, |z: int| ItemType::MudWall)) == n,
    decreases n,
{
    if n > 0 {
        let s = Seq::new(n, |z: int| ItemType::MudWall);
        assert(s.drop_last() =~= Seq::new((n - 1) as nat, |z: int| ItemType::MudWall));
        lemma_wall_count_all_walls((n - 1) as nat);
    }
}

proof fn lemma_wall_count_update(kinds: Seq<ItemType>, z: int)
    requires
        0 <= z < kinds.len(),
    ensures
        wall_count(kinds.update(z, ItemType::StoneFloor)) + 1 >= wall_count(kinds),
    decreases kinds.len(),
{
    let u = kinds.update(z, ItemType::StoneFloor);
    if z == kinds.len() - 1 {
        assert(u.drop_last() =~= kinds.drop_last());
    } else {
        assert(u.drop_last() =~= kinds.drop_last().update(z, ItemType::StoneFloor));
        lemma_wall_count_update(kinds.drop_last(), z);
    }
}

/// After `m` seeds the grid has its full size, every seed so far is floor,
/// and at most `m` cells have stopped being wall.
proof fn lemma_seeded_upto(w: int, h: int, offsets: Seq<(i32, i32)>, m: int)
    requires
        cave_size_ok(w, h),
        offsets_ok(w, h, offsets),
        0 <= m <= SECTORS,
    ensures
        seeded_upto(w, h, offsets, m).len() == w * h,
        forall|s: int|
            0 <= s < m ==> (#[trigger] seeded_upto(w, h, offsets, m)[seed_cell(w, h, offsets, s)]) is StoneFloor,
        wall_count(seeded_upto(w, h, offsets, m)) + m >= w * h,
    decreases m,
{
    if m == 0 {
        assert(0 <= w * h) by (nonlinear_arith)
            requires
                0 <= w,
                0 <= h,
        ;
        lemma_wall_count_all_walls((w * h) as nat);
    } else {
        lemma_seeded_upto(w, h, offsets, m - 1);
        lemma_seed_in_sector(w, h, offsets, m - 1);
        let prev = seeded_upto(w, h, offsets, m - 1);
        lemma_wall_count_update(prev, seed_cell(w, h, offsets, m - 1));
        assert forall|s: int| 0 <= s < m implies (#[trigger] seeded_upto(w, h, offsets, m)[seed_cell(
            w,
            h,
            offsets,
            s,
        )]) is StoneFloor by {
            lemma_seed_in_sector(w, h, offsets, s);
            if s < m - 1 {
                assert(prev[seed_cell(w, h, offsets, s)] is StoneFloor);
            }
        }
    }
}

/// Seeding a cave puts a floor cell strictly inside every sector, and leaves
/// at least half of the grid mud wall.
pub proof fn lemma_seeding_covers_sectors(w: int, h: int, offsets: Seq<(i32, i32)>)
    requires
        cave_size_ok(w, h),
        offsets_ok(w, h, offsets),
    ensures
        seeded(w, h, offsets).len() == w * h,
        forall|s: int|
            0 <= s < SECTORS ==> {
                &&& (s / 6) * (w / 8) < seed_x(w, offsets, s) < (s / 6 + 1) * (w / 8)
                &&& (s % 6) * (h / 6) < seed_y(h, offsets, s) < (s % 6 + 1) * (h / 6)
                &&& (#[trigger] seeded(w, h, offsets)[seed_cell(w, h, offsets, s)]) is StoneFloor
            },
        2 * wall_count(seeded(w, h, offsets)) >= w * h,
{
    lemma_seeded_upto(w, h, offsets, SECTORS as int);
    assert forall|s: int| 0 <= s < SECTORS implies {
        &&& (s / 6) * (w / 8) < seed_x(w, offsets, s) < (s / 6 + 1) * (w / 8)
        &&& (s % 6) * (h / 6) < seed_y(h, offsets, s) < (s % 6 + 1) * (h / 6)
        &&& (#[trigger] seeded(w, h, offsets)[seed_cell(w, h, offsets, s)]) is StoneFloor
    } by {
        lemma_seed_in_sector(w, h, offsets, s);
        assert(seeded_upto(w, h, offsets, SECTORS as int)[seed_cell(w, h, offsets, s)] is StoneFloor);
    }
    assert(w * h >= 192) by (nonlinear_arith)
        requires
            16 <= w,
            12 <= h,
    ;
}

/// The mud-wall grid of a cave with one floor cell seeded in each sector,
/// at the offsets given (see `offsets_ok`).
pub fn seed_cave(w: i32, h: i32, offsets: &Vec<(i32, i32)>) -> (draft: Vec<ItemType>)
    requires
        cave_size_ok(w as int, h as int),
        offsets_ok(w as int, h as int, offsets@),
    ensures
        draft@ == seeded(w as int, h as int, offsets@),
{
    let n = (w * h) as usize;
    let mut draft: Vec<ItemType> = Vec::new();

    // Fill the map with wall.
    while draft.len() < n
        invariant
            n == w * h,
            draft@.len() <= n,
            forall|z: int| 0 <= z < draft@.len() ==> draft@[z] == ItemType::MudWall,
        decreases n - draft@.len(),
    {
        draft.push(ItemType::MudWall);
    }
    assert(draft@ =~= seeded_upto(w as int, h as int, offsets@, 0));

    // Seed each sector.
    let width = w / H_CELLS;
    let height = h / V_CELLS;
    let mut i: usize = 0;
    while i < 8
        invariant
            i <= 8,
            n == w * h,
            cave_size_ok(w as int, h as int),
            offsets_ok(w as int, h as int, offsets@),
            width == w / 8,
            height == h / 6,
            draft@ == seeded_upto(w as int, h as int, offsets@, i * 6),
        decreases 8 - i,
    {
        let mut j: usize = 0;
        while j < 6
            invariant
                i < 8,
                j <= 6,
                n == w * h,
                cave_size_ok(w as int, h as int),
                offsets_ok(w as int, h as int, offsets@),
                width == w / 8,
                height == h / 6,
                draft@ == seeded_upto(w as int, h as int, offsets@, i * 6 + j),
            decreases 6 - j,
        {
            let s = i * 6 + j;
            proof {
                vstd::arithmetic::div_mod::lemma_fundamental_div_mod_converse(
                    s as int,
                    6,
                    i as int,
                    j as int,
                );
                lemma_seed_in_sector(w as int, h as int, offsets@, s as int);
                lemma_seeded_upto(w as int, h as int, offsets@, s as int);
            }
            let o = offsets[s];
            let x = i as i32 * width + o.0;
            let y = j as i32 * height + o.1;
            assert(x == seed_x(w as int, offsets@, s as int));
            assert(y == seed_y(h as int, offsets@, s as int));
            let z = (y * w + x) as usize;
            draft.set(z, ItemType::StoneFloor);
            j = j + 1;
        }
        i = i + 1;
    }
    draft
}

/// Cell `z` of a `w` by `h` grid lies at column `z % w` and row `z / w`.
proof fn lemma_cell_coords(z: int, w: int, h: int)
    requires
        1 <= w,
        0 <= z < w * h,
    ensures
        in_map(z % w, z / w, w, h),
        index_of(z % w, z / w, w) == z,
{
    vstd::arithmetic::div_mod::lemma_fundamental_div_mod(z, w);
    let q = z / w;
    let r = z % w;
    assert(0 <= r < w);
    assert(0 <= q < h) by (nonlinear_arith)
        requires
            z == w * q + r,
            0 <= r < w,
            0 <= z < w * h,
            1 <= w,
    ;
    assert(q * w == w * q) by (nonlinear_arith);
}

/// The 4-neighbour of cell `z` that choice `c` picks (west, east, north,
/// south for 0 to 3), or -1 when it is off the grid.
pub open spec fn walk_target(w: int, h: int, z: int, c: int) -> int {
    let x = z % w;
    let y = z / w;
    let nx = if c == 0 {
        x - 1
    } else if c == 1 {
        x + 1
    } else {
        x
    };
    let ny = if c == 2 {
        y - 1
    } else if c == 3 {
        y + 1
    } else {
        y
    };
    if in_map(nx, ny, w, h) {
        index_of(nx, ny, w)
    } else {
        -1
    }
}

/// One round of growth: every floor cell also turns the neighbour its
/// choice picks into floor.
pub open spec fn grown(w: int, h: int, kinds: Seq<ItemType>, choices: Seq<u8>) -> Seq<ItemType> {
    Seq::new(
        kinds.len(),
        |z: int|
            if exists|i: int|
                0 <= i < kinds.len() && kinds[i] is StoneFloor && walk_target(
                    w,
                    h,
                    i,
                    choices[i] as int,
                ) == z {
                ItemType::StoneFloor
            } else {
                kinds[z]
            },
    )
}

/// One choice in `0..4` per cell.
pub open spec fn choices_ok(n: int, choices: Seq<u8>) -> bool {
    choices.len() == n && forall|i: int| 0 <= i < n ==> #[trigger] choices[i] < 4
}

/// One round of cave growth: each floor cell of `draft` also turns into
/// floor the 4-neighbour that its choice picks, when that is on the grid.
pub fn grow_cave(w: i32, h: i32, draft: &Vec<ItemType>, choices: &Vec<u8>) -> (next: Vec<ItemType>)
    requires
        1 <= w,
        1 <= h,
        w * h <= i32::MAX,
        draft@.len() == w * h,
        choices_ok(w * h, choices@),
    ensures
        next@ == grown(w as int, h as int, draft@, choices@),
{
    let n = draft.len();
    let mut temp: Vec<ItemType> = Vec::new();
    while temp.len() < n
        invariant
            n == draft@.len(),
            temp@.len() <= n,
            forall|z: int| 0 <= z < temp@.len() ==> temp@[z] == draft@[z],
        decreases n - temp@.len(),
    {
        let k = temp.len();
        temp.push(draft[k]);
    }

    let mut i: usize = 0;
    while i < n
        invariant
            i <= n,
            n == draft@.len(),
            n == w * h,
            1 <= w,
            1 <= h,
            w * h <= i32::MAX,
            choices_ok(w * h, choices@),
            temp@.len() == n,
            forall|z: int|
                0 <= z < n ==> #[trigger] temp@[z] == if exists|i2: int|
                    0 <= i2 < i && draft@[i2] is StoneFloor && walk_target(
                        w as int,
                        h as int,
                        i2,
                        choices@[i2] as int,
                    ) == z {
                    ItemType::StoneFloor
                } else {
                    draft@[z]
                },
        decreases n - i,
    {
        let ghost before = temp@;
        if draft[i] == ItemType::StoneFloor {
            let c = choices[i];
            proof {
                lemma_cell_coords(i as int, w as int, h as int);
            }
            let x = (i as i32) % w;
            let y = (i as i32) / w;
            let nx = if c == 0 {
                x - 1
            } else if c == 1 {
                x + 1
            } else {
                x
            };
            let ny = if c == 2 {
                y - 1
            } else if c == 3 {
                y + 1
            } else {
                y
            };
            if nx >= 0 && nx < w && ny >= 0 && ny < h {
                proof {
                    lemma_index_in_bounds(nx as int, ny as int, w as int, h as int);
                }
                let t = (ny * w + nx) as usize;
                assert(t == walk_target(w as int, h as int, i as int, choices@[i as int] as int));
                temp.set(t, ItemType::StoneFloor);
            } else {
                assert(walk_target(w as int, h as int, i as int, choices@[i as int] as int) == -1);
            }
        }
        proof {
            assert forall|z: int| 0 <= z < n implies #[trigger] temp@[z] == if exists|i2: int|
                0 <= i2 < i + 1 && draft@[i2] is StoneFloor && walk_target(
                    w as int,
                    h as int,
                    i2,
                    choices@[i2] as int,
                ) == z {
                ItemType::StoneFloor
            } else {
                draft@[z]
            } by {
                if draft@[i as int] is StoneFloor && walk_target(
                    w as int,
                    h as int,
                    i as int,
                    choices@[i as int] as int,
                ) == z {
                    assert(temp@[z] == ItemType::StoneFloor);
                }
            }
        }
        i = i + 1;
    }
    proof {
        assert(temp@ =~= grown(w as int, h as int, draft@, choices@));
    }
    temp
}

/// The kinds of a cave after `c` rounds of growth from its seeds, round `r`
/// with choices `rounds[r]`.
pub open spec fn cave_kinds(
    w: int,
    h: int,
    offsets: Seq<(i32, i32)>,
    rounds: Seq<Seq<u8>>,
    c: int,
) -> Seq<ItemType>
    decreases c,
{
    if c <= 0 {
        seeded(w, h, offsets)
    } else {
        grown(w, h, cave_kinds(w, h, offsets, rounds, c - 1), rounds[c - 1])
    }
}

/// `kinds` is a cave: seeded in every sector, then grown for the full
/// number of rounds, for some offsets and choices.
pub open spec fn is_cave(w: int, h: int, kinds: Seq<ItemType>) -> bool {
    exists|offsets: Seq<(i32, i32)>, rounds: Seq<Seq<u8>>|
        {
            &&& offsets_ok(w, h, offsets)
            &&& rounds.len() == GROWTH_CYCLES
            &&& forall|r: int| 0 <= r < GROWTH_CYCLES ==> choices_ok(w * h, #[trigger] rounds[r])
            &&& kinds == #[trigger] cave_kinds(w, h, offsets, rounds, GROWTH_CYCLES as int)
        }
}

/// Growth never turns floor back into wall, so every seed is still floor
/// after any number of rounds.
proof fn lemma_growth_keeps_seeds(
    w: int,
    h: int,
    offsets: Seq<(i32, i32)>,
    rounds: Seq<Seq<u8>>,
    c: int,
)
    requires
        cave_size_ok(w, h),
        offsets_ok(w, h, offsets),
        0 <= c,
    ensures
        cave_kinds(w, h, offsets, rounds, c).len() == w * h,
        forall|s: int|
            0 <= s < SECTORS ==> (#[trigger] cave_kinds(w, h, offsets, rounds, c)[seed_cell(
                w,
                h,
                offsets,
                s,
            )]) is StoneFloor,
    decreases c,
{
    if c == 0 {
        lemma_seeding_covers_sectors(w, h, offsets);
    } else {
        lemma_growth_keeps_seeds(w, h, offsets, rounds, c - 1);
        assert forall|s: int| 0 <= s < SECTORS implies (#[trigger] cave_kinds(
            w,
            h,
            offsets,
            rounds,
            c,
        )[seed_cell(w, h, offsets, s)]) is StoneFloor by {
            lemma_seed_in_sector(w, h, offsets, s);
            assert(cave_kinds(w, h, offsets, rounds, c - 1)[seed_cell(w, h, offsets, s)] is StoneFloor);
        }
    }
}

/// Sector `(i, j)` (column `i`, row `j`) holds a floor cell strictly inside.
pub open spec fn sector_has_floor(w: int, h: int, kinds: Seq<ItemType>, i: int, j: int) -> bool {
    exists|x: int, y: int|
        {
            &&& i * (w / 8) < x < (i + 1) * (w / 8)
            &&& j * (h / 6) < y < (j + 1) * (h / 6)
            &&& in_map(x, y, w, h)
            &&& (#[trigger] kinds[index_of(x, y, w)]) is StoneFloor
        }
}

/// Every sector of a cave holds a floor cell strictly inside it.
pub proof fn lemma_cave_floor_in_every_sector(w: int, h: int, kinds: Seq<ItemType>)
    requires
        cave_size_ok(w, h),
        is_cave(w, h, kinds),
    ensures
        kinds.len() == w * h,
        forall|i: int, j: int|
            0 <= i < H_CELLS && 0 <= j < V_CELLS ==> #[trigger] sector_has_floor(w, h, kinds, i, j),
{
    let (offsets, rounds) = choose|offsets: Seq<(i32, i32)>, rounds: Seq<Seq<u8>>|
        {
            &&& offsets_ok(w, h, offsets)
            &&& rounds.len() == GROWTH_CYCLES
            &&& forall|r: int| 0 <= r < GROWTH_CYCLES ==> choices_ok(w * h, #[trigger] rounds[r])
            &&& kinds == #[trigger] cave_kinds(w, h, offsets, rounds, GROWTH_CYCLES as int)
        };
    lemma_growth_keeps_seeds(w, h, offsets, rounds, GROWTH_CYCLES as int);
    assert forall|i: int, j: int| 0 <= i < H_CELLS && 0 <= j < V_CELLS implies #[trigger] sector_has_floor(
        w,
        h,
        kinds,
        i,
        j,
    ) by {
        let s = i * 6 + j;
        vstd::arithmetic::div_mod::lemma_fundamental_div_mod_converse(s, 6, i, j);
        lemma_seed_in_sector(w, h, offsets, s);
        assert(kinds[seed_cell(w, h, offsets, s)] is StoneFloor);
        let x = seed_x(w, offsets, s);
        let y = seed_y(h, offsets, s);
        assert(kinds[index_of(x, y, w)] is StoneFloor);
    }
}

/// Tiles laid out row after row over a `w` by `h` grid, each fresh from
/// `Tile::new`: at its own coordinate, consistent with its kind, visible and
/// never seen.
pub open spec fn laid_out(tiles: Seq<Tile>, w: int, h: int) -> bool {
    &&& tiles.len() == w * h
    &&& forall|z: int|
        0 <= z < tiles.len() ==> {
            &&& (#[trigger] tiles[z]).x == z % w
            &&& tiles[z].y == z / w
            &&& tiles[z].wf()
            &&& tiles[z].visible
            &&& !tiles[z].visited
        }
}

/// The kind of terrain of every tile.
pub open spec fn kinds_of(tiles: Seq<Tile>) -> Seq<ItemType> {
    tiles.map_values(|t: Tile| t.item)
}

/// A size the generators accept: the cell count fits in an `i32`.
pub open spec fn level_size_ok(w: int, h: int) -> bool {
    0 <= w && 0 <= h && w * h <= i32::MAX
}

/// One fresh tile per kind, laid out row after row.
fn build_tiles(w: i32, h: i32, kinds: &Vec<ItemType>) -> (tiles: Vec<Tile>)
    requires
        level_size_ok(w as int, h as int),
        kinds@.len() == w * h,
    ensures
        laid_out(tiles@, w as int, h as int),
        kinds_of(tiles@) == kinds@,
{
    let n = kinds.len();
    let mut tiles: Vec<Tile> = Vec::new();
    let mut i: usize = 0;
    while i < n
        invariant
            i <= n,
            n == kinds@.len(),
            n == w * h,
            level_size_ok(w as int, h as int),
            tiles@.len() == i,
            forall|z: int|
                0 <= z < i ==> {
                    &&& (#[trigger] tiles@[z]).x == z % (w as int)
                    &&& tiles@[z].y == z / (w as int)
                    &&& tiles@[z].wf()
                    &&& tiles@[z].visible
                    &&& !tiles@[z].visited
                    &&& tiles@[z].item == kinds@[z]
                },
        decreases n - i,
    {
        proof {
            assert(1 <= w) by (nonlinear_arith)
                requires
                    0 <= i < w * h,
                    0 <= w,
                    0 <= h,
            ;
            lemma_cell_coords(i as int, w as int, h as int);
        }
        tiles.push(Tile::new(i as i32 % w, i as i32 / w, kinds[i]));
        i = i + 1;
    }
    assert(kinds_of(tiles@) =~= kinds@);
    tiles
}

/// A cave level: sectors seeded at random offsets, then grown with random
/// choices for the full number of rounds. Connectivity between sectors is
/// likely, not guaranteed.
pub fn cave_level(w: i32, h: i32) -> (level_map: Vec<Tile>)
    requires
        cave_size_ok(w as int, h as int),
    ensures
        laid_out(level_map@, w as int, h as int),
        is_cave(w as int, h as int, kinds_of(level_map@)),
{
    let width = w / H_CELLS;
    let height = h / V_CELLS;

    // Draw one offset per sector, column of sectors after column.
    let mut offsets: Vec<(i32, i32)> = Vec::new();
    let mut i: usize = 0;
    while i < 8
        invariant
            i <= 8,
            cave_size_ok(w as int, h as int),
            width == w / 8,
            height == h / 6,
            offsets@.len() == i * 6,
            forall|s: int|
                0 <= s < offsets@.len() ==> {
                    &&& 1 <= (#[trigger] offsets@[s]).0 < width
                    &&& 1 <= offsets@[s].1 < height
                },
        decreases 8 - i,
    {
        let mut j: usize = 0;
        while j < 6
            invariant
                i < 8,
                j <= 6,
                cave_size_ok(w as int, h as int),
                width == w / 8,
                height == h / 6,
                offsets@.len() == i * 6 + j,
                forall|s: int|
                    0 <= s < offsets@.len() ==> {
                        &&& 1 <= (#[trigger] offsets@[s]).0 < width
                        &&& 1 <= offsets@[s].1 < height
                    },
            decreases 6 - j,
        {
            let dx = random_in(1, width);
            let dy = random_in(1, height);
            offsets.push((dx, dy));
            j = j + 1;
        }
        i = i + 1;
    }
    let mut draft = seed_cave(w, h, &offsets);
    proof {
        lemma_seeding_covers_sectors(w as int, h as int, offsets@);
    }

    // Let the floor grow.
    let n = draft.len();
    let ghost mut rounds: Seq<Seq<u8>> = Seq::empty();
    let mut cycle: i32 = 0;
    while cycle < GROWTH_CYCLES
        invariant
            0 <= cycle <= GROWTH_CYCLES,
            cave_size_ok(w as int, h as int),
            offsets_ok(w as int, h as int, offsets@),
            n == w * h,
            rounds.len() == cycle,
            forall|r: int| 0 <= r < cycle ==> choices_ok(w * h, #[trigger] rounds[r]),
            draft@ == cave_kinds(w as int, h as int, offsets@, rounds, cycle as int),
        decreases GROWTH_CYCLES - cycle,
    {
        proof {
            lemma_growth_keeps_seeds(w as int, h as int, offsets@, rounds, cycle as int);
        }
        let mut choices: Vec<u8> = Vec::new();
        while choices.len() < n
            invariant
                choices@.len() <= n,
                forall|k: int| 0 <= k < choices@.len() ==> #[trigger] choices@[k] < 4,
            decreases n - choices@.len(),
        {
            let c = random_in(0, 4);
            choices.push(c as u8);
        }
        draft = grow_cave(w, h, &draft, &choices);
        proof {
            let old_rounds = rounds;
            rounds = rounds.push(choices@);
            assert(rounds.drop_last() =~= old_rounds);
            assert forall|r: int| 0 <= r < cycle + 1 implies choices_ok(
                w * h,
                #[trigger] rounds[r],
            ) by {
                if r < cycle {
                    assert(rounds[r] == old_rounds[r]);
                }
            }
            assert(cave_kinds(w as int, h as int, offsets@, rounds, cycle as int) == cave_kinds(
                w as int,
                h as int,
                offsets@,
                old_rounds,
                cycle as int,
            )) by {
                lemma_cave_kinds_prefix(w as int, h as int, offsets@, old_rounds, rounds, cycle as int);
            }
        }
        cycle = cycle + 1;
    }
    proof {
        assert(w * h >= 0) by (nonlinear_arith)
            requires
                16 <= w,
                12 <= h,
        ;
        lemma_growth_keeps_seeds(w as int, h as int, offsets@, rounds, GROWTH_CYCLES as int);
    }
    let level_map = build_tiles(w, h, &draft);
    proof {
        assert(offsets_ok(w as int, h as int, offsets@));
        assert(kinds_of(level_map@) == cave_kinds(w as int, h as int, offsets@, rounds, GROWTH_CYCLES as int));
    }
    level_map
}

/// The kinds after `c` rounds depend only on the first `c` rounds' choices.
proof fn lemma_cave_kinds_prefix(
    w: int,
    h: int,
    offsets: Seq<(i32, i32)>,
    a: Seq<Seq<u8>>,
    b: Seq<Seq<u8>>,
    c: int,
)
    requires
        0 <= c <= a.len(),
        c <= b.len(),
        forall|r: int| 0 <= r < c ==> a[r] == b[r],
    ensures
        cave_kinds(w, h, offsets, a, c) == cave_kinds(w, h, offsets, b, c),
    decreases c,
{
    if c > 0 {
        lemma_cave_kinds_prefix(w, h, offsets, a, b, c - 1);
    }
}

/// The kind a draw from `0..=100` gives a cell of a random level: stone
/// wall below 1, stone floor otherwise.
pub open spec fn kind_of_draw(d: int) -> ItemType {
    if d < 1 {
        ItemType::StoneWall
    } else {
        ItemType::StoneFloor
    }
}

/// The kinds of a random level, one per draw.
pub open spec fn random_kinds(draws: Seq<i32>) -> Seq<ItemType> {
    draws.map_values(|d: i32| kind_of_draw(d as int))
}

/// The kind of each cell of a random level from its draw: stone wall when
/// the draw is below 1, stone floor otherwise.
pub fn kinds_from_draws(draws: &Vec<i32>) -> (kinds: Vec<ItemType>)
    ensures
        kinds@ == random_kinds(draws@),
{
    let mut kinds: Vec<ItemType> = Vec::new();
    let mut i: usize = 0;
    while i < draws.len()
        invariant
            i <= draws@.len(),
            kinds@ == random_kinds(draws@.take(i as int)),
        decreases draws@.len() - i,
    {
        if draws[i] < 1 {
            kinds.push(ItemType::StoneWall);
        } else {
            kinds.push(ItemType::StoneFloor);
        }
        proof {
            assert(kinds@ =~= random_kinds(draws@.take(i as int + 1)));
        }
        i = i + 1;
    }
    proof {
        assert(draws@.take(draws@.len() as int) =~= draws@);
    }
    kinds
}

/// A level of stone floor with a stone wall here and there: each cell is
/// wall when a draw from `0..=100` comes out below 1, floor otherwise.
pub fn random_level(w: i32, h: i32) -> (level_map: Vec<Tile>)
    requires
        level_size_ok(w as int, h as int),
    ensures
        laid_out(level_map@, w as int, h as int),
        exists|draws: Seq<i32>|
            {
                &&& draws.len() == w * h
                &&& forall|z: int| 0 <= z < draws.len() ==> 0 <= #[trigger] draws[z] <= 100
                &&& kinds_of(level_map@) == #[trigger] random_kinds(draws)
            },
        forall|z: int|
            0 <= z < level_map@.len() ==> (#[trigger] level_map@[z]).item is StoneWall
                || level_map@[z].item is StoneFloor,
{
    let n = (w * h) as usize;
    let mut draws: Vec<i32> = Vec::new();
    while draws.len() < n
        invariant
            draws@.len() <= n,
            forall|z: int| 0 <= z < draws@.len() ==> 0 <= #[trigger] draws@[z] <= 100,
        decreases n - draws@.len(),
    {
        draws.push(random_in(0, 101));
    }
    let kinds = kinds_from_draws(&draws);
    let level_map = build_tiles(w, h, &kinds);
    proof {
        assert forall|z: int| 0 <= z < level_map@.len() implies (#[trigger] level_map@[z]).item is StoneWall
            || level_map@[z].item is StoneFloor by {
            assert(kinds_of(level_map@)[z] == kinds@[z]);
        }
        assert(kinds_of(level_map@) == random_kinds(draws@));
    }
    level_map
}

/// An all-floor level.
pub fn floor_level(w: i32, h: i32) -> (level_map: Vec<Tile>)
    requires
        level_size_ok(w as int, h as int),
    ensures
        laid_out(level_map@, w as int, h as int),
        forall|z: int| 0 <= z < level_map@.len() ==> (#[trigger] level_map@[z]).item is StoneFloor,
{
    let n = (w * h) as usize;
    let mut kinds: Vec<ItemType> = Vec::new();
    while kinds.len() < n
        invariant
            kinds@.len() <= n,
            forall|z: int| 0 <= z < kinds@.len() ==> #[trigger] kinds@[z] is StoneFloor,
        decreases n - kinds@.len(),
    {
        kinds.push(ItemType::StoneFloor);
    }
    let level_map = build_tiles(w, h, &kinds);
    proof {
        assert forall|z: int| 0 <= z < level_map@.len() implies (#[trigger] level_map@[z]).item is StoneFloor by {
            assert(kinds_of(level_map@)[z] == kinds@[z]);
        }
    }
    level_map
}

/// The sizes a generation strategy accepts.
pub open spec fn generation_size_ok(w: int, h: int, gen_type: GenerationType) -> bool {
    match gen_type {
        GenerationType::Cave => cave_size_ok(w, h),
        _ => level_size_ok(w, h),
    }
}

/// A fresh level of `w` by `h` tiles made by the strategy given.
pub fn world_genration(w: i32, h: i32, gen_type: GenerationType) -> (level: Vec<Tile>)
    requires
        generation_size_ok(w as int, h as int, gen_type),
    ensures
        laid_out(level@, w as int, h as int),
        gen_type is Random ==> forall|z: int|
            0 <= z < level@.len() ==> (#[trigger] level@[z]).item is StoneWall || level@[z].item is StoneFloor,
        gen_type is Cave ==> is_cave(w as int, h as int, kinds_of(level@)),
        gen_type is Floor ==> forall|z: int| 0 <= z < level@.len() ==> (#[trigger] level@[z]).item is StoneFloor,
{
    match gen_type {
        GenerationType::Random => random_level(w, h),
        GenerationType::Cave => cave_level(w, h),
        GenerationType::Floor => floor_level(w, h),
    }
}

/// `npc` holds one zombie per spot, in order, each standing on its spot.
pub open spec fn zombies_on(npc: Seq<Entity>, spots: Seq<i32>, w: int) -> bool {
    &&& npc.len() == spots.len()
    &&& forall|t: int|
        0 <= t < npc.len() ==> {
            &&& (#[trigger] npc[t]).entity == EntityType::Zombie
            &&& npc[t].x as int == (spots[t] as int) % w
            &&& npc[t].y as int == (spots[t] as int) / w
            &&& npc[t].looks_like(EntityType::Zombie)
        }
}

/// When every tile is crossable, every pick gets its zombie.
proof fn lemma_spawn_spots_all_crossable(grid: Seq<Tile>, picks: Seq<i32>)
    requires
        forall|z: int| 0 <= z < grid.len() ==> (#[trigger] grid[z]).crossable,
        forall|t: int| 0 <= t < picks.len() ==> 0 <= #[trigger] picks[t] < grid.len(),
    ensures
        spawn_spots(grid, picks) == picks,
    decreases picks.len(),
{
    if picks.len() > 0 {
        lemma_spawn_spots_all_crossable(grid, picks.drop_last());
        assert(grid[picks.last() as int].crossable);
        assert(picks.drop_last().push(picks.last()) =~= picks);
    }
}

/// The picked cells whose tile is crossable, in the order picked.
pub open spec fn spawn_spots(grid: Seq<Tile>, picks: Seq<i32>) -> Seq<i32>
    decreases picks.len(),
{
    if picks.len() == 0 {
        Seq::empty()
    } else {
        let rest = spawn_spots(grid, picks.drop_last());
        if grid[picks.last() as int].crossable {
            rest.push(picks.last())
        } else {
            rest
        }
    }
}

/// A zombie on every picked cell whose tile is crossable; picks on other
/// tiles are dropped.
pub fn place_zombies(level_map: &Vec<Tile>, w: i32, h: i32, picks: &Vec<i32>) -> (npc: Vec<Entity>)
    requires
        grid_shape(level_map@.len() as int, w as int, h as int),
        forall|t: int| 0 <= t < picks@.len() ==> 0 <= #[trigger] picks@[t] < level_map@.len(),
    ensures
        npc@.len() == spawn_spots(level_map@, picks@).len(),
        forall|t: int|
            0 <= t < npc@.len() ==> {
                let spot = spawn_spots(level_map@, picks@)[t] as int;
                &&& (#[trigger] npc@[t]).entity == EntityType::Zombie
                &&& npc@[t].x as int == spot % (w as int)
                &&& npc@[t].y as int == spot / (w as int)
                &&& npc@[t].looks_like(EntityType::Zombie)
                &&& npc@[t].data@ == Map::<crate::entity::DataField, crate::entity::DataValue>::empty()
            },
{
    let mut npc: Vec<Entity> = Vec::new();
    let mut i: usize = 0;
    while i < picks.len()
        invariant
            i <= picks@.len(),
            grid_shape(level_map@.len() as int, w as int, h as int),
            forall|t: int| 0 <= t < picks@.len() ==> 0 <= #[trigger] picks@[t] < level_map@.len(),
            npc@.len() == spawn_spots(level_map@, picks@.take(i as int)).len(),
            forall|t: int|
                0 <= t < npc@.len() ==> {
                    let spot = spawn_spots(level_map@, picks@.take(i as int))[t] as int;
                    &&& (#[trigger] npc@[t]).entity == EntityType::Zombie
                    &&& npc@[t].x as int == spot % (w as int)
                    &&& npc@[t].y as int == spot / (w as int)
                    &&& npc@[t].looks_like(EntityType::Zombie)
                    &&& npc@[t].data@ == Map::<crate::entity::DataField, crate::entity::DataValue>::empty()
                },
        decreases picks@.len() - i,
    {
        let index = picks[i];
        proof {
            assert(picks@.take(i as int + 1).drop_last() =~= picks@.take(i as int));
            assert(picks@.take(i as int + 1).last() == index);
        }
        if level_map[index as usize].crossable {
            proof {
                assert(1 <= w) by (nonlinear_arith)
                    requires
                        0 <= index < w * h,
                        0 <= w,
                        0 <= h,
                ;
            }
            npc.push(Entity::new(index % w, index / w, EntityType::Zombie));
        }
        i = i + 1;
    }
    proof {
        assert(picks@.take(picks@.len() as int) =~= picks@);
    }
    npc
}

/// Spawn zombies: a fixed number of cells is picked at random, and each one
/// whose tile is crossable gets a zombie. Unlucky picks are not retried, so
/// fewer zombies may come out.
pub fn spawn_npc(level_map: &Vec<Tile>, w: i32, h: i32) -> (npc: Vec<Entity>)
    requires
        grid_shape(level_map@.len() as int, w as int, h as int),
        1 <= w * h <= i32::MAX,
    ensures
        exists|picks: Seq<i32>|
            {
                &&& picks.len() == SPAWN_TRIES
                &&& forall|t: int| 0 <= t < picks.len() ==> 0 <= #[trigger] picks[t] < w * h
                &&& zombies_on(npc@, #[trigger] spawn_spots(level_map@, picks), w as int)
            },
        npc@.len() <= SPAWN_TRIES,
        (forall|z: int| 0 <= z < level_map@.len() ==> (#[trigger] level_map@[z]).crossable)
            ==> npc@.len() == SPAWN_TRIES,
        forall|t: int|
            0 <= t < npc@.len() ==> {
                &&& (#[trigger] npc@[t]).entity == EntityType::Zombie
                &&& in_map(npc@[t].x as int, npc@[t].y as int, w as int, h as int)
                &&& level_map@[index_of(npc@[t].x as int, npc@[t].y as int, w as int)].crossable
                &&& npc@[t].looks_like(EntityType::Zombie)
            },
{
    let mut picks: Vec<i32> = Vec::new();
    let mut i: i32 = 0;
    while i < SPAWN_TRIES
        invariant
            0 <= i <= SPAWN_TRIES,
            picks@.len() == i,
            1 <= w * h <= i32::MAX,
            forall|t: int| 0 <= t < picks@.len() ==> 0 <= #[trigger] picks@[t] < w * h,
        decreases SPAWN_TRIES - i,
    {
        picks.push(random_in(0, w * h));
        i = i + 1;
    }
    let npc = place_zombies(level_map, w, h, &picks);
    proof {
        lemma_spawn_spots(level_map@, picks@);
        assert(zombies_on(npc@, spawn_spots(level_map@, picks@), w as int));
        if forall|z: int| 0 <= z < level_map@.len() ==> (#[trigger] level_map@[z]).crossable {
            lemma_spawn_spots_all_crossable(level_map@, picks@);
        }
        assert forall|t: int| 0 <= t < npc@.len() implies {
            &&& (#[trigger] npc@[t]).entity == EntityType::Zombie
            &&& in_map(npc@[t].x as int, npc@[t].y as int, w as int, h as int)
            &&& level_map@[index_of(npc@[t].x as int, npc@[t].y as int, w as int)].crossable
            &&& npc@[t].looks_like(EntityType::Zombie)
        } by {
            let spot = spawn_spots(level_map@, picks@)[t] as int;
            assert(1 <= w) by (nonlinear_arith)
                requires
                    0 <= spot < w * h,
                    0 <= w,
                    0 <= h,
            ;
            lemma_cell_coords(spot as int, w as int, h as int);
        }
    }
    npc
}

/// The spots are among the picks, each on a crossable tile, and no more
/// numerous than the picks.
proof fn lemma_spawn_spots(grid: Seq<Tile>, picks: Seq<i32>)
    ensures
        spawn_spots(grid, picks).len() <= picks.len(),
        forall|t: int|
            0 <= t < spawn_spots(grid, picks).len() ==> {
                &&& grid[#[trigger] spawn_spots(grid, picks)[t] as int].crossable
                &&& exists|u: int| 0 <= u < picks.len() && picks[u] == spawn_spots(grid, picks)[t]
            },
    decreases picks.len(),
{
    if picks.len() > 0 {
        let rest = picks.drop_last();
        lemma_spawn_spots(grid, rest);
        assert forall|t: int| 0 <= t < spawn_spots(grid, picks).len() implies {
            &&& grid[#[trigger] spawn_spots(grid, picks)[t] as int].crossable
            &&& exists|u: int| 0 <= u < picks.len() && picks[u] == spawn_spots(grid, picks)[t]
        } by {
            if t < spawn_spots(grid, rest).len() {
                assert(spawn_spots(grid, picks)[t] == spawn_spots(grid, rest)[t]);
                let u = choose|u: int| 0 <= u < rest.len() && rest[u] == spawn_spots(grid, rest)[t];
                assert(picks[u] == rest[u]);
            } else {
                assert(picks[picks.len() - 1] == spawn_spots(grid, picks)[t]);
            }
        }
    }
}

} // verus!
