use rogue_grid::engine::{
    check_crossable_destination, delta_pos, distance, is_in_map, move_entity, orientation,
    visited_color, Direction,
};
use rogue_grid::entity::{Entity, EntityType, ItemType, Rgba, Tile};

fn grid_of(w: i32, h: i32, walls: &[(i32, i32)]) -> Vec<Tile> {
    let mut tiles = Vec::new();
    for i in 0..(w * h) {
        let (x, y) = (i % w, i / w);
        let kind = if walls.contains(&(x, y)) { ItemType::StoneWall } else { ItemType::StoneFloor };
        tiles.push(Tile::new(x, y, kind));
    }
    tiles
}

const ALL: [Direction; 9] = [
    Direction::Stay,
    Direction::North,
    Direction::NorthEast,
    Direction::NorthWest,
    Direction::South,
    Direction::SouthEast,
    Direction::SouthWest,
    Direction::East,
    Direction::West,
];

#[test]
fn delta_pos_gives_compass_steps() {
    assert_eq!(delta_pos(Direction::Stay), (0, 0));
    assert_eq!(delta_pos(Direction::North), (0, -1));
    assert_eq!(delta_pos(Direction::NorthEast), (1, -1));
    assert_eq!(delta_pos(Direction::NorthWest), (-1, -1));
    assert_eq!(delta_pos(Direction::South), (0, 1));
    assert_eq!(delta_pos(Direction::SouthEast), (1, 1));
    assert_eq!(delta_pos(Direction::SouthWest), (-1, 1));
    assert_eq!(delta_pos(Direction::East), (1, 0));
    assert_eq!(delta_pos(Direction::West), (-1, 0));
}

#[test]
fn orientation_inverts_delta_pos() {
    for d in ALL.iter() {
        assert_eq!(orientation(delta_pos(*d)), *d);
    }
}

#[test]
fn orientation_of_long_step_is_stay() {
    assert_eq!(orientation((2, 0)), Direction::Stay);
    assert_eq!(orientation((0, -5)), Direction::Stay);
    assert_eq!(orientation((1, 1)), Direction::SouthEast);
    assert_eq!(orientation((-1, 0)), Direction::West);
}

#[test]
fn is_in_map_bounds() {
    assert!(is_in_map(0, 0, 10, 5));
    assert!(is_in_map(9, 4, 10, 5));
    assert!(!is_in_map(10, 4, 10, 5));
    assert!(!is_in_map(9, 5, 10, 5));
    assert!(!is_in_map(-1, 0, 10, 5));
    assert!(!is_in_map(0, -1, 10, 5));
}

#[test]
fn distance_is_squared() {
    assert_eq!(distance(0, 0, 3, 4), 25);
    assert_eq!(distance(5, 5, 5, 5), 0);
    assert_eq!(distance(-2, 7, 1, 3), 25);
}

#[test]
fn visited_color_halves_channels() {
    assert_eq!(visited_color(Rgba::rgb8(200, 101, 0)), (100, 50, 0));
    assert_eq!(visited_color(Rgba::rgba8(255, 1, 3, 7)), (127, 0, 1));
}

#[test]
fn destination_check_respects_bounds_and_walls() {
    let map = grid_of(5, 5, &[(2, 1)]);
    assert!(check_crossable_destination(2, 2, Direction::South, &map, 5, 5));
    assert!(!check_crossable_destination(2, 2, Direction::North, &map, 5, 5));
    assert!(!check_crossable_destination(0, 0, Direction::West, &map, 5, 5));
    assert!(!check_crossable_destination(4, 4, Direction::SouthEast, &map, 5, 5));
    assert!(check_crossable_destination(4, 4, Direction::Stay, &map, 5, 5));
    assert!(!check_crossable_destination(i32::MAX, 0, Direction::East, &map, 5, 5));
}

#[test]
fn move_entity_applies_delta() {
    let mut e = Entity::new(3, 3, EntityType::Player);
    move_entity(&mut e, Direction::NorthWest);
    assert_eq!((e.x, e.y), (2, 2));
    move_entity(&mut e, Direction::Stay);
    assert_eq!((e.x, e.y), (2, 2));
    move_entity(&mut e, Direction::East);
    assert_eq!((e.x, e.y), (3, 2));
    assert_eq!(e.glyph, b'@');
}

#[test]
fn checked_move_lands_on_crossable_tile() {
    let map = grid_of(4, 4, &[(1, 0), (1, 1), (2, 2)]);
    for y in 0..4 {
        for x in 0..4 {
            for d in ALL.iter() {
                if check_crossable_destination(x, y, *d, &map, 4, 4) {
                    let mut e = Entity::new(x, y, EntityType::Zombie);
                    move_entity(&mut e, *d);
                    assert!(is_in_map(e.x, e.y, 4, 4));
                    assert!(map[(e.y * 4 + e.x) as usize].crossable);
                }
            }
        }
    }
}
