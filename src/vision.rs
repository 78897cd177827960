use crate::entity::Tile;
use crate::grid::{grid_shape, in_map, index_of, lemma_index_in_bounds};
use vstd::prelude::*;

verus! {

/// Which tiles let sight through, tile by tile.
pub open spec fn sight_of(grid: Seq<Tile>) -> Seq<bool> {
    grid.map_values(|t: Tile| t.see_through)
}

/// `a` is `b` with, at most, other `visible` and `visited` flags.
pub open spec fn same_terrain(a: Tile, b: Tile) -> bool {
    a == (Tile { visible: a.visible, visited: a.visited, ..b })
}

/// Sample `p` stops a ray: it is opaque and is not the observer's own tile.
pub open spec fn blocks(sight: Seq<bool>, w: int, ox: int, oy: int, p: [i32; 2]) -> bool {
    !sight[index_of(p[0] as int, p[1] as int, w)] && !(p[0] == ox && p[1] == oy)
}

/// How many samples of `ray`, counted from its start, the sweep marks when it
/// has passed samples `0..k` without stopping: it stops before the first
/// sample off the grid, and after the first one that blocks.
pub open spec fn ray_reach(
    sight: Seq<bool>,
    w: int,
    h: int,
    ox: int,
    oy: int,
    ray: Seq<[i32; 2]>,
    k: int,
) -> int
    decreases ray.len() - k,
{
    if k < 0 || k >= ray.len() {
        ray.len() as int
    } else if !in_map(ray[k][0] as int, ray[k][1] as int, w, h) {
        k
    } else if blocks(sight, w, ox, oy, ray[k]) {
        k + 1
    } else {
        ray_reach(sight, w, h, ox, oy, ray, k + 1)
    }
}

/// The cells the sweep marks, ray after ray, in the order it marks them.
pub open spec fn lit_cells(
    sight: Seq<bool>,
    w: int,
    h: int,
    ox: int,
    oy: int,
    rays: Seq<Vec<[i32; 2]>>,
) -> Seq<[i32; 2]>
    decreases rays.len(),
{
    if rays.len() == 0 {
        Seq::empty()
    } else {
        let ray = rays.last()@;
        lit_cells(sight, w, h, ox, oy, rays.drop_last()) + ray.take(
            ray_reach(sight, w, h, ox, oy, ray, 0),
        )
    }
}

/// Some cell of `cells` has flat index `z`.
pub open spec fn covers(cells: Seq<[i32; 2]>, w: int, z: int) -> bool {
    exists|j: int|
        0 <= j < cells.len() && index_of(cells[j][0] as int, cells[j][1] as int, w) == z
}

proof fn lemma_covers_push(cells: Seq<[i32; 2]>, p: [i32; 2], w: int, z: int)
    ensures
        covers(cells.push(p), w, z) == (covers(cells, w, z) || index_of(
            p[0] as int,
            p[1] as int,
            w,
        ) == z),
{
    let c2 = cells.push(p);
    if covers(cells, w, z) {
        let j = choose|j: int|
            0 <= j < cells.len() && index_of(cells[j][0] as int, cells[j][1] as int, w) == z;
        assert(c2[j] == cells[j]);
    }
    if index_of(p[0] as int, p[1] as int, w) == z {
        assert(c2[cells.len() as int] == p);
    }
    if covers(c2, w, z) {
        let j = choose|j: int|
            0 <= j < c2.len() && index_of(c2[j][0] as int, c2[j][1] as int, w) == z;
        if j < cells.len() {
            assert(c2[j] == cells[j]);
        }
    }
}

/// Field of view by ray casting. Each ray is given as the cells it samples,
/// one per step outwards from the observer's cell. Every tile loses its
/// `visible` flag; then, ray by ray, each sampled cell is marked visible and
/// visited, until the ray leaves the grid (that sample is not marked) or
/// meets an opaque tile other than the observer's own (that one is marked).
/// Returns the observer's cell followed by every marked cell, in order.
pub fn fov(
    x_entity: i32,
    y_entity: i32,
    rays: &Vec<Vec<[i32; 2]>>,
    level_map: &mut Vec<Tile>,
    w: i32,
    h: i32,
) -> (in_fov: Vec<[i32; 2]>)
    requires
        grid_shape(old(level_map)@.len() as int, w as int, h as int),
    ensures
        ({
            let lit = lit_cells(
                sight_of(old(level_map)@),
                w as int,
                h as int,
                x_entity as int,
                y_entity as int,
                rays@,
            );
            &&& in_fov@ == seq![[x_entity, y_entity]] + lit
            &&& final(level_map)@.len() == old(level_map)@.len()
            &&& forall|z: int|
                0 <= z < old(level_map)@.len() ==> {
                    &&& same_terrain(#[trigger] final(level_map)@[z], old(level_map)@[z])
                    &&& final(level_map)@[z].visible == covers(lit, w as int, z)
                    &&& final(level_map)@[z].visited == (old(level_map)@[z].visited || covers(
                        lit,
                        w as int,
                        z,
                    ))
                }
        }),
        in_fov@[0] == [x_entity, y_entity],
        forall|z: int|
            0 <= z < final(level_map)@.len() ==> (#[trigger] final(level_map)@[z]).visible
                ==> final(level_map)@[z].visited,
        forall|z: int|
            0 <= z < old(level_map)@.len() ==> (#[trigger] old(level_map)@[z]).visited
                ==> final(level_map)@[z].visited,
{
    let ghost g0 = level_map@;
    let ghost sight = sight_of(g0);
    let n = level_map.len();

    // The observer's tile is always in view.
    let mut in_fov_tile: Vec<[i32; 2]> = Vec::new();
    in_fov_tile.push([x_entity, y_entity]);

    // Nothing is visible before the sweep.
    let mut i: usize = 0;
    while i < n
        invariant
            i <= n,
            n == g0.len(),
            level_map@.len() == n,
            forall|z: int| 0 <= z < i ==> #[trigger] level_map@[z] == (Tile { visible: false, ..g0[z] }),
            forall|z: int| i <= z < n ==> #[trigger] level_map@[z] == g0[z],
        decreases n - i,
    {
        level_map[i].visible = false;
        i = i + 1;
    }

    let mut a: usize = 0;
    while a < rays.len()
        invariant
            a <= rays@.len(),
            n == g0.len(),
            level_map@.len() == n,
            grid_shape(n as int, w as int, h as int),
            sight == sight_of(g0),
            in_fov_tile@ == seq![[x_entity, y_entity]] + lit_cells(
                sight,
                w as int,
                h as int,
                x_entity as int,
                y_entity as int,
                rays@.take(a as int),
            ),
            forall|z: int|
                0 <= z < n ==> {
                    let lit = lit_cells(
                        sight,
                        w as int,
                        h as int,
                        x_entity as int,
                        y_entity as int,
                        rays@.take(a as int),
                    );
                    &&& same_terrain(#[trigger] level_map@[z], g0[z])
                    &&& level_map@[z].visible == covers(lit, w as int, z)
                    &&& level_map@[z].visited == (g0[z].visited || covers(lit, w as int, z))
                },
        decreases rays@.len() - a,
    {
        let ghost lit_a = lit_cells(
            sight,
            w as int,
            h as int,
            x_entity as int,
            y_entity as int,
            rays@.take(a as int),
        );
        let ray = &rays[a];
        let ghost reach = ray_reach(sight, w as int, h as int, x_entity as int, y_entity as int, ray@, 0);
        let mut k: usize = 0;
        while k < ray.len()
            invariant_except_break
                k <= ray@.len(),
                ray_reach(sight, w as int, h as int, x_entity as int, y_entity as int, ray@, k as int)
                    == reach,
                in_fov_tile@ == seq![[x_entity, y_entity]] + (lit_a + ray@.take(k as int)),
                forall|z: int|
                    0 <= z < n ==> {
                        &&& same_terrain(#[trigger] level_map@[z], g0[z])
                        &&& level_map@[z].visible == covers(lit_a + ray@.take(k as int), w as int, z)
                        &&& level_map@[z].visited == (g0[z].visited || covers(
                            lit_a + ray@.take(k as int),
                            w as int,
                            z,
                        ))
                    },
            invariant
                n == g0.len(),
                level_map@.len() == n,
                grid_shape(n as int, w as int, h as int),
                sight == sight_of(g0),
                reach == ray_reach(sight, w as int, h as int, x_entity as int, y_entity as int, ray@, 0),
            ensures
                0 <= reach <= ray@.len(),
                in_fov_tile@ == seq![[x_entity, y_entity]] + (lit_a + ray@.take(reach)),
                forall|z: int|
                    0 <= z < n ==> {
                        &&& same_terrain(#[trigger] level_map@[z], g0[z])
                        &&& level_map@[z].visible == covers(lit_a + ray@.take(reach), w as int, z)
                        &&& level_map@[z].visited == (g0[z].visited || covers(
                            lit_a + ray@.take(reach),
                            w as int,
                            z,
                        ))
                    },
            decreases ray@.len() - k,
        {
            let p = ray[k];
            // Stop once the ray leaves the grid.
            if !(p[0] >= 0 && p[0] < w && p[1] >= 0 && p[1] < h) {
                break;
            }
            proof {
                lemma_index_in_bounds(p[0] as int, p[1] as int, w as int, h as int);
            }
            let z = p[1] as usize * w as usize + p[0] as usize;
            let ghost before = level_map@;
            let ghost cells = lit_a + ray@.take(k as int);
            level_map[z].visible = true;
            level_map[z].visited = true;
            in_fov_tile.push(p);
            proof {
                assert(cells.push(p) =~= lit_a + ray@.take(k as int + 1));
                assert forall|z2: int| 0 <= z2 < n implies {
                    &&& same_terrain(#[trigger] level_map@[z2], g0[z2])
                    &&& level_map@[z2].visible == covers(cells.push(p), w as int, z2)
                    &&& level_map@[z2].visited == (g0[z2].visited || covers(cells.push(p), w as int, z2))
                } by {
                    lemma_covers_push(cells, p, w as int, z2);
                }
                assert(in_fov_tile@ =~= seq![[x_entity, y_entity]] + cells.push(p));
                assert(sight[z as int] == g0[z as int].see_through);
            }
            // An opaque tile ends the ray, unless the observer stands on it.
            if !level_map[z].see_through && !(p[0] == x_entity && p[1] == y_entity) {
                break;
            }
            k = k + 1;
        }
        proof {
            let r2 = rays@.take(a as int + 1);
            assert(r2.drop_last() =~= rays@.take(a as int));
            assert(r2.last() == rays@[a as int]);
        }
        a = a + 1;
    }
    proof {
        assert(rays@.take(rays@.len() as int) =~= rays@);
    }
    in_fov_tile
}

/// Sweeping a second time from the same cell with the same rays, over a
/// grid that only the first sweep has touched, marks the same cells: a
/// sweep reads only which tiles let sight through, and changes nothing but
/// the `visible` and `visited` flags.
pub proof fn lemma_fov_repeatable(
    before: Seq<Tile>,
    after: Seq<Tile>,
    w: int,
    h: int,
    ox: int,
    oy: int,
    rays: Seq<Vec<[i32; 2]>>,
)
    requires
        after.len() == before.len(),
        forall|z: int| 0 <= z < before.len() ==> same_terrain(#[trigger] after[z], before[z]),
    ensures
        lit_cells(sight_of(after), w, h, ox, oy, rays) == lit_cells(
            sight_of(before),
            w,
            h,
            ox,
            oy,
            rays,
        ),
{
    assert(sight_of(after) =~= sight_of(before));
}

} // verus!
