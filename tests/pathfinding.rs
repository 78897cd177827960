use rogue_grid::engine::path_finder;
use rogue_grid::entity::{ItemType, Tile};
use rogue_grid::grid::Point;

fn seen_grid(w: i32, h: i32, walls: &[(i32, i32)]) -> Vec<Tile> {
    let mut tiles = Vec::new();
    for i in 0..(w * h) {
        let (x, y) = (i % w, i / w);
        let kind = if walls.contains(&(x, y)) { ItemType::MudWall } else { ItemType::StoneFloor };
        let mut t = Tile::new(x, y, kind);
        t.visited = true;
        tiles.push(t);
    }
    tiles
}

fn adjacent(a: Point, b: Point) -> bool {
    (a.x - b.x).abs() <= 1 && (a.y - b.y).abs() <= 1 && a != b
}

/// The route as a walker takes it: from the start, without the start.
fn walk(mut path: Vec<Point>) -> Vec<Point> {
    path.reverse();
    if !path.is_empty() {
        path.remove(0);
    }
    path
}

#[test]
fn same_cell_needs_no_move() {
    let map = seen_grid(10, 10, &[]);
    let path = path_finder(5, 5, 5, 5, &map, 10, 10);
    assert_eq!(path, vec![Point { x: 5, y: 5 }]);
    assert!(walk(path).is_empty());
}

#[test]
fn two_steps_east() {
    let map = seen_grid(10, 10, &[]);
    let path = path_finder(0, 0, 2, 0, &map, 10, 10);
    assert_eq!(path, vec![Point { x: 2, y: 0 }, Point { x: 1, y: 0 }, Point { x: 0, y: 0 }]);
    assert_eq!(*path.last().unwrap(), Point { x: 0, y: 0 });
    let steps = walk(path);
    assert_eq!(steps.len(), 2);
    assert_eq!(steps[1], Point { x: 2, y: 0 });
    assert!(adjacent(Point { x: 0, y: 0 }, steps[0]));
    assert!(adjacent(steps[0], steps[1]));
}

#[test]
fn route_goes_around_a_wall() {
    let walls = [(3, 0), (3, 1), (3, 2), (3, 3), (3, 4)];
    let map = seen_grid(8, 8, &walls);
    let path = path_finder(1, 1, 6, 1, &map, 8, 8);
    assert_eq!(path[0], Point { x: 6, y: 1 });
    assert_eq!(*path.last().unwrap(), Point { x: 1, y: 1 });
    for pair in path.windows(2) {
        assert!(adjacent(pair[0], pair[1]));
    }
    for p in path.iter() {
        assert!(!walls.contains(&(p.x, p.y)));
    }
}

#[test]
fn unseen_goal_gives_empty_path() {
    let mut map = seen_grid(10, 10, &[]);
    map[4 * 10 + 7].visited = false;
    assert!(path_finder(0, 0, 7, 4, &map, 10, 10).is_empty());
}

#[test]
fn wall_or_off_grid_goal_gives_empty_path() {
    let map = seen_grid(10, 10, &[(4, 4)]);
    assert!(path_finder(0, 0, 4, 4, &map, 10, 10).is_empty());
    assert!(path_finder(0, 0, 10, 4, &map, 10, 10).is_empty());
    assert!(path_finder(0, 0, -1, 0, &map, 10, 10).is_empty());
}

#[test]
fn enclosed_goal_is_not_reached() {
    let walls = [(6, 6), (7, 6), (8, 6), (6, 7), (8, 7), (6, 8), (7, 8), (8, 8)];
    let map = seen_grid(10, 10, &walls);
    let path = path_finder(0, 0, 7, 7, &map, 10, 10);
    assert!(!path.is_empty());
    assert_ne!(path[0], Point { x: 7, y: 7 });
    assert_eq!(*path.last().unwrap(), Point { x: 0, y: 0 });
    for pair in path.windows(2) {
        assert!(adjacent(pair[0], pair[1]));
    }
}

#[test]
fn long_corridor_exhausts_search_budget() {
    // A serpentine corridor: every odd row is wall but for one gap, at the
    // east end and the west end in turn. The goal lies 5000 cells along it.
    let (w, h) = (100, 100);
    let mut walls = Vec::new();
    for y in (1..h).step_by(2) {
        let gap = if (y / 2) % 2 == 0 { w - 1 } else { 0 };
        for x in 0..w {
            if x != gap {
                walls.push((x, y));
            }
        }
    }
    let map = seen_grid(w, h, &walls);
    let goal = if ((h - 1) / 2) % 2 == 0 { (w - 1, h - 1) } else { (0, h - 1) };
    let near = path_finder(0, 0, 10, 0, &map, w, h);
    assert_eq!(near[0], Point { x: 10, y: 0 });
    assert!(path_finder(0, 0, goal.0, goal.1, &map, w, h).is_empty());
}

#[test]
fn route_cells_are_distinct() {
    let walls = [(4, 1), (4, 2), (4, 3), (4, 4), (4, 5), (4, 6), (2, 4), (3, 4)];
    let map = seen_grid(9, 9, &walls);
    let path = path_finder(1, 7, 7, 1, &map, 9, 9);
    assert_eq!(path[0], Point { x: 7, y: 1 });
    for i in 0..path.len() {
        for j in (i + 1)..path.len() {
            assert_ne!(path[i], path[j]);
        }
    }
    assert!(path.len() <= 4000);
}
