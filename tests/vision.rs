use rogue_grid::engine::fov;
use rogue_grid::entity::{ItemType, Tile};

fn grid(w: i32, h: i32, walls: &[(i32, i32)]) -> Vec<Tile> {
    let mut tiles = Vec::new();
    for i in 0..(w * h) {
        let (x, y) = (i % w, i / w);
        let kind = if walls.contains(&(x, y)) { ItemType::StoneWall } else { ItemType::StoneFloor };
        tiles.push(Tile::new(x, y, kind));
    }
    tiles
}

/// The cells a ray of whole steps samples from the centre of `(x, y)`.
fn rays_from(x: i32, y: i32, range: i32) -> Vec<Vec<[i32; 2]>> {
    let mut rays = Vec::new();
    for a in 0..360 {
        let (dy, dx) = ((a as f32) * std::f32::consts::PI / 180.0).sin_cos();
        let mut px = x as f32 + 0.5;
        let mut py = y as f32 + 0.5;
        let mut ray = Vec::new();
        for _ in 0..range {
            ray.push([px.floor() as i32, py.floor() as i32]);
            px += dx;
            py += dy;
        }
        rays.push(ray);
    }
    rays
}

#[test]
fn ray_stops_after_first_wall() {
    let mut map = grid(8, 5, &[(4, 2)]);
    let rays = vec![vec![[2, 2], [3, 2], [4, 2], [5, 2]]];
    let seen = fov(2, 2, &rays, &mut map, 8, 5);
    assert_eq!(seen, vec![[2, 2], [2, 2], [3, 2], [4, 2]]);
    assert!(map[2 * 8 + 4].visible && map[2 * 8 + 4].visited);
    assert!(!map[2 * 8 + 5].visible && !map[2 * 8 + 5].visited);
    assert!(!map[0].visible);
}

#[test]
fn ray_stops_at_grid_edge() {
    let mut map = grid(4, 4, &[]);
    let rays = vec![vec![[2, 1], [3, 1], [4, 1], [5, 1]]];
    let seen = fov(2, 1, &rays, &mut map, 4, 4);
    assert_eq!(seen, vec![[2, 1], [2, 1], [3, 1]]);
}

#[test]
fn observer_on_wall_still_sees_out() {
    let mut map = grid(6, 3, &[(1, 1)]);
    let rays = vec![vec![[1, 1], [2, 1], [3, 1]]];
    let seen = fov(1, 1, &rays, &mut map, 6, 3);
    assert_eq!(seen, vec![[1, 1], [1, 1], [2, 1], [3, 1]]);
}

#[test]
fn zero_range_sees_only_observer() {
    let mut map = grid(5, 5, &[]);
    let seen = fov(2, 3, &rays_from(2, 3, 0), &mut map, 5, 5);
    assert_eq!(seen, vec![[2, 3]]);
    assert!(map.iter().all(|t| !t.visible));
}

#[test]
fn observer_always_first() {
    let mut map = grid(12, 12, &[(6, 5), (5, 6)]);
    let seen = fov(5, 5, &rays_from(5, 5, 10), &mut map, 12, 12);
    assert_eq!(seen[0], [5, 5]);
    assert!(map[5 * 12 + 5].visible);
}

#[test]
fn visible_implies_visited_and_visited_sticks() {
    let mut map = grid(20, 20, &[(10, 9), (11, 10)]);
    map[0].visited = true;
    let _ = fov(10, 10, &rays_from(10, 10, 4), &mut map, 20, 20);
    assert!(map[0].visited && !map[0].visible);
    assert!(map.iter().all(|t| !t.visible || t.visited));
    let far = 19 * 20 + 19;
    assert!(!map[far].visited);
    let _ = fov(17, 17, &rays_from(17, 17, 4), &mut map, 20, 20);
    assert!(map[far].visible);
    assert!(map[10 * 20 + 10].visited && !map[10 * 20 + 10].visible);
}

#[test]
fn repeated_sweep_sees_the_same() {
    let mut map = grid(15, 15, &[(8, 7), (6, 6), (7, 9)]);
    let rays = rays_from(7, 7, 10);
    let first = fov(7, 7, &rays, &mut map, 15, 15);
    let flags: Vec<bool> = map.iter().map(|t| t.visible).collect();
    let second = fov(7, 7, &rays, &mut map, 15, 15);
    assert_eq!(first, second);
    assert_eq!(flags, map.iter().map(|t| t.visible).collect::<Vec<bool>>());
}
