use rogue_grid::entity::{Entity, EntityType, ItemType, Rgba, Tile};

#[test]
fn stone_floor_tile() {
    let t = Tile::new(3, 4, ItemType::StoneFloor);
    assert_eq!((t.x, t.y), (3, 4));
    assert!(t.crossable && t.see_through && t.visible && !t.visited);
    assert_eq!(t.glyph, b'.');
    assert_eq!(t.bg_color, Rgba::rgb8(0, 0, 0));
    assert!(t.fg_color.r >= 60 && t.fg_color.r < 100);
    assert_eq!(t.fg_color.r, t.fg_color.g);
    assert_eq!(t.fg_color.g, t.fg_color.b);
}

#[test]
fn wall_tiles_block() {
    let s = Tile::new(0, 0, ItemType::StoneWall);
    assert!(!s.crossable && !s.see_through);
    assert_eq!(s.glyph, b'#');
    assert!(s.bg_color.r >= 100 && s.bg_color.r < 150);
    assert!(s.fg_color.r >= 5 && s.fg_color.r < 20);
    let m = Tile::new(0, 0, ItemType::MudWall);
    assert!(!m.crossable && !m.see_through);
    assert_eq!(m.glyph, b'#');
    assert!(m.bg_color.r >= 100 && m.bg_color.r < 120);
    assert!(m.bg_color.g >= 80 && m.bg_color.g < 90);
    assert!(m.bg_color.b >= 58 && m.bg_color.b < 65);
}

#[test]
fn void_tile_keeps_defaults() {
    let t = Tile::new(1, 1, ItemType::Void);
    assert!(t.crossable && t.see_through);
    assert_eq!(t.glyph, 0);
    assert_eq!(t.fg_color, Rgba::rgb8(150, 100, 150));
}

#[test]
fn floor_shades_vary() {
    let shades: Vec<u8> = (0..60).map(|i| Tile::new(i, 0, ItemType::StoneFloor).fg_color.r).collect();
    assert!(shades.iter().any(|s| *s != shades[0]));
}

#[test]
fn entities_by_kind() {
    let p = Entity::new(1, 2, EntityType::Player);
    assert_eq!(p.glyph, b'@');
    assert_eq!(p.fg_color, Rgba::rgba8(150, 150, 150, 255));
    assert_eq!(p.bg_color, Rgba::rgba8(0, 0, 0, 0));
    assert!(p.data.is_empty());
    let z = Entity::new(5, 6, EntityType::Zombie);
    assert_eq!((z.x, z.y), (5, 6));
    assert_eq!(z.glyph, b'Z');
    assert_eq!(z.fg_color, Rgba::rgb8(150, 100, 80));
    assert_eq!(z.entity, EntityType::Zombie);
}
