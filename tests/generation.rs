use rogue_grid::entity::{EntityType, ItemType, Tile};
use rogue_grid::world::{
    cave_level, floor_level, grow_cave, kinds_from_draws, place_zombies, random_level, seed_cave, spawn_npc,
    world_genration, GenerationType,
};

fn sector_offsets(dx: i32, dy: i32) -> Vec<(i32, i32)> {
    vec![(dx, dy); 48]
}

fn check_layout(tiles: &[Tile], w: i32, h: i32) {
    assert_eq!(tiles.len(), (w * h) as usize);
    for (i, t) in tiles.iter().enumerate() {
        assert_eq!(t.x, i as i32 % w);
        assert_eq!(t.y, i as i32 / w);
        assert!(t.visible && !t.visited);
    }
}

#[test]
fn seeding_marks_one_cell_per_sector() {
    let draft = seed_cave(48, 32, &sector_offsets(1, 2));
    assert_eq!(draft.len(), 48 * 32);
    let floors: Vec<usize> =
        (0..draft.len()).filter(|i| draft[*i] == ItemType::StoneFloor).collect();
    assert_eq!(floors.len(), 48);
    for i in 0..8 {
        for j in 0..6 {
            let (x, y) = (i * 6 + 1, j * 5 + 2);
            assert_eq!(draft[(y * 48 + x) as usize], ItemType::StoneFloor);
        }
    }
    let walls = draft.iter().filter(|k| **k == ItemType::MudWall).count();
    assert!(2 * walls >= draft.len());
}

#[test]
fn seeding_with_varied_offsets() {
    let offsets: Vec<(i32, i32)> = (0..48).map(|s| (1 + s % 5, 1 + s % 4)).collect();
    let draft = seed_cave(48, 32, &offsets);
    for s in 0..48 {
        let x = (s / 6) * 6 + offsets[s as usize].0;
        let y = (s % 6) * 5 + offsets[s as usize].1;
        assert_eq!(draft[(y * 48 + x) as usize], ItemType::StoneFloor);
    }
}

#[test]
fn growth_picks_the_chosen_neighbour() {
    let mut draft = vec![ItemType::MudWall; 9];
    draft[4] = ItemType::StoneFloor;
    let mut choices = vec![0u8; 9];
    choices[4] = 1;
    let next = grow_cave(3, 3, &draft, &choices);
    let floors: Vec<usize> = (0..9).filter(|i| next[*i] == ItemType::StoneFloor).collect();
    assert_eq!(floors, vec![4, 5]);
    choices[4] = 2;
    let next = grow_cave(3, 3, &draft, &choices);
    let floors: Vec<usize> = (0..9).filter(|i| next[*i] == ItemType::StoneFloor).collect();
    assert_eq!(floors, vec![1, 4]);
}

#[test]
fn growth_off_the_edge_does_nothing() {
    let mut draft = vec![ItemType::MudWall; 6];
    draft[3] = ItemType::StoneFloor;
    let choices = vec![0u8; 6];
    let next = grow_cave(3, 2, &draft, &choices);
    assert_eq!(next, draft);
}

#[test]
fn growth_reads_only_the_old_floor() {
    let draft = vec![ItemType::StoneFloor, ItemType::MudWall, ItemType::MudWall, ItemType::MudWall];
    let choices = vec![1u8, 1, 1, 1];
    let next = grow_cave(4, 1, &draft, &choices);
    assert_eq!(
        next,
        vec![ItemType::StoneFloor, ItemType::StoneFloor, ItemType::MudWall, ItemType::MudWall]
    );
}

#[test]
fn cave_has_floor_in_every_sector() {
    let level = cave_level(48, 32);
    check_layout(&level, 48, 32);
    for i in 0..8 {
        for j in 0..6 {
            let mut found = false;
            for y in (j * 5 + 1)..((j + 1) * 5) {
                for x in (i * 6 + 1)..((i + 1) * 6) {
                    let t = &level[(y * 48 + x) as usize];
                    if t.item == ItemType::StoneFloor {
                        found = true;
                    }
                }
            }
            assert!(found);
        }
    }
    assert!(level.iter().all(|t| t.item == ItemType::StoneFloor || t.item == ItemType::MudWall));
    assert!(level.iter().all(|t| t.crossable == (t.item == ItemType::StoneFloor)));
}

#[test]
fn random_level_is_floor_and_stone_wall() {
    let level = random_level(30, 20);
    check_layout(&level, 30, 20);
    assert!(level.iter().all(|t| t.item == ItemType::StoneFloor || t.item == ItemType::StoneWall));
    let walls = level.iter().filter(|t| t.item == ItemType::StoneWall).count();
    assert!(walls < 60);
}

#[test]
fn floor_level_is_open() {
    let level = floor_level(7, 4);
    check_layout(&level, 7, 4);
    assert!(level.iter().all(|t| t.item == ItemType::StoneFloor && t.crossable));
}

#[test]
fn generation_dispatch() {
    let f = world_genration(5, 5, GenerationType::Floor);
    assert!(f.iter().all(|t| t.item == ItemType::StoneFloor));
    let c = world_genration(16, 12, GenerationType::Cave);
    check_layout(&c, 16, 12);
    assert!(c.iter().any(|t| t.item == ItemType::StoneFloor));
    let r = world_genration(6, 6, GenerationType::Random);
    check_layout(&r, 6, 6);
    let empty = world_genration(0, 0, GenerationType::Random);
    assert!(empty.is_empty());
}

#[test]
fn zombies_only_on_crossable_picks() {
    let mut level = floor_level(4, 3);
    level[5] = Tile::new(1, 1, ItemType::StoneWall);
    let npc = place_zombies(&level, 4, 3, &vec![0, 5, 11, 5, 6]);
    let spots: Vec<(i32, i32)> = npc.iter().map(|e| (e.x, e.y)).collect();
    assert_eq!(spots, vec![(0, 0), (3, 2), (2, 1)]);
    assert!(npc.iter().all(|e| e.entity == EntityType::Zombie && e.glyph == b'Z'));
}

#[test]
fn spawn_on_open_floor_places_all() {
    let level = floor_level(10, 10);
    let npc = spawn_npc(&level, 10, 10);
    assert_eq!(npc.len(), 20);
    assert!(npc.iter().all(|e| e.x >= 0 && e.x < 10 && e.y >= 0 && e.y < 10));
}

#[test]
fn spawn_on_solid_rock_places_none() {
    let level: Vec<Tile> = (0..25).map(|i| Tile::new(i % 5, i / 5, ItemType::MudWall)).collect();
    assert!(spawn_npc(&level, 5, 5).is_empty());
}

#[test]
fn draws_below_one_make_walls() {
    let kinds = kinds_from_draws(&vec![0, 1, 100, 0, 57]);
    assert_eq!(
        kinds,
        vec![
            ItemType::StoneWall,
            ItemType::StoneFloor,
            ItemType::StoneFloor,
            ItemType::StoneWall,
            ItemType::StoneFloor
        ]
    );
    assert!(kinds_from_draws(&vec![]).is_empty());
}

#[test]
fn spawn_keeps_every_pick_on_open_floor() {
    let level = floor_level(3, 3);
    for _ in 0..5 {
        let npc = spawn_npc(&level, 3, 3);
        assert_eq!(npc.len(), 20);
        assert!(npc.iter().all(|e| e.entity == EntityType::Zombie));
    }
}
