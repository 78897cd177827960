use crate::chance::random_shade;
use std::collections::HashMap;
use vstd::prelude::*;

verus! {

/// A colour as four 8-bit channels.
#[derive(Copy, Clone, Debug, PartialEq, Eq, Structural)]
pub struct Rgba {
    pub r: u8,
    pub g: u8,
    pub b: u8,
    pub a: u8,
}

impl Rgba {
    /// An opaque colour.
    pub fn rgb8(r: u8, g: u8, b: u8) -> (c: Rgba)
        ensures
            c == (Rgba { r, g, b, a: 255 }),
    {
        Rgba { r, g, b, a: 255 }
    }

    /// A colour with its alpha channel.
    pub fn rgba8(r: u8, g: u8, b: u8, a: u8) -> (c: Rgba)
        ensures
            c == (Rgba { r, g, b, a }),
    {
        Rgba { r, g, b, a }
    }

    /// An opaque gray with all three channels equal.
    pub open spec fn is_gray(self, lo: int, hi: int) -> bool {
        &&& self.a == 255
        &&& self.r == self.g == self.b
        &&& lo <= self.r < hi
    }
}

/// The kind of terrain a tile holds.
#[derive(Copy, Clone, Debug, PartialEq, Eq, Structural)]
pub enum ItemType {
    Void,
    StoneFloor,
    StoneWall,
    MudWall,
}

/// Walls block movement and sight; everything else lets both through.
pub open spec fn is_wall(kind: ItemType) -> bool {
    kind is StoneWall || kind is MudWall
}

/// The glyph each kind of terrain is drawn with.
pub open spec fn glyph_of(kind: ItemType) -> u8 {
    match kind {
        ItemType::Void => 0,
        ItemType::StoneFloor => 46,
        ItemType::StoneWall => 35,
        ItemType::MudWall => 35,
    }
}

/// The kinds of mobile actor.
#[derive(Copy, Clone, Debug, PartialEq, Eq, Structural)]
pub enum EntityType {
    Zombie,
    Player,
}

/// A value held in an entity's attributes.
pub enum DataValue {
    Str(&'static str),
    Int(i32),
}

/// The keys of an entity's attributes.
#[derive(Copy, Clone, Debug, PartialEq, Eq, Hash)]
pub enum DataField {
    Gold,
}

/// A mobile actor on the grid.
pub struct Entity {
    pub entity: EntityType,
    pub x: i32,
    pub y: i32,
    pub glyph: u8,
    pub fg_color: Rgba,
    pub bg_color: Rgba,
    pub data: HashMap<DataField, DataValue>,
}

impl Entity {
    /// The glyph and foreground colour each kind of actor is drawn with.
    pub open spec fn looks_like(self, kind: EntityType) -> bool {
        &&& self.bg_color == (Rgba { r: 0, g: 0, b: 0, a: 0 })
        &&& match kind {
            EntityType::Player => self.glyph == 64 && self.fg_color == (Rgba {
                r: 150,
                g: 150,
                b: 150,
                a: 255,
            }),
            EntityType::Zombie => self.glyph == 90 && self.fg_color == (Rgba {
                r: 150,
                g: 100,
                b: 80,
                a: 255,
            }),
        }
    }

    pub fn new(x: i32, y: i32, e_type: EntityType) -> (e: Entity)
        ensures
            e.entity == e_type,
            e.x == x,
            e.y == y,
            e.looks_like(e_type),
            e.data@ == Map::<DataField, DataValue>::empty(),
    {
        let mut e = Entity {
            entity: e_type,
            x: x,
            y: y,
            glyph: 0,
            fg_color: Rgba::rgba8(150, 150, 150, 255),
            bg_color: Rgba::rgba8(0, 0, 0, 0),
            data: HashMap::new(),
        };
        match e_type {
            EntityType::Player => e.create_player(),
            EntityType::Zombie => e.create_zombie(),
        }
        e
    }

    fn create_player(&mut self)
        ensures
            final(self).glyph == 64,
            final(self).entity == old(self).entity,
            final(self).x == old(self).x,
            final(self).y == old(self).y,
            final(self).fg_color == old(self).fg_color,
            final(self).bg_color == old(self).bg_color,
            final(self).data@ == old(self).data@,
    {
        self.glyph = '@' as u8;
    }

    fn create_zombie(&mut self)
        ensures
            final(self).glyph == 90,
            final(self).fg_color == (Rgba { r: 150, g: 100, b: 80, a: 255 }),
            final(self).entity == old(self).entity,
            final(self).x == old(self).x,
            final(self).y == old(self).y,
            final(self).bg_color == old(self).bg_color,
            final(self).data@ == old(self).data@,
    {
        self.glyph = 'Z' as u8;
        self.fg_color = Rgba::rgb8(150, 100, 80);
    }
}

/// One cell of terrain.
pub struct Tile {
    pub item: ItemType,
    pub x: i32,
    pub y: i32,
    pub glyph: u8,
    pub fg_color: Rgba,
    pub bg_color: Rgba,
    pub visible: bool,
    pub see_through: bool,
    pub crossable: bool,
    pub visited: bool,
}

impl Tile {
    /// Passability, sight, glyph and shades agree with the kind of terrain.
    pub open spec fn wf(self) -> bool {
        &&& self.crossable == !is_wall(self.item)
        &&& self.see_through == !is_wall(self.item)
        &&& self.glyph == glyph_of(self.item)
        &&& match self.item {
            ItemType::Void => {
                &&& self.fg_color == (Rgba { r: 150, g: 100, b: 150, a: 255 })
                &&& self.bg_color == (Rgba { r: 0, g: 0, b: 0, a: 255 })
            },
            ItemType::StoneFloor => {
                &&& self.fg_color.is_gray(60, 100)
                &&& self.bg_color == (Rgba { r: 0, g: 0, b: 0, a: 255 })
            },
            ItemType::StoneWall => {
                &&& self.fg_color.is_gray(5, 20)
                &&& self.bg_color.is_gray(100, 150)
            },
            ItemType::MudWall => {
                &&& self.fg_color.is_gray(5, 20)
                &&& self.bg_color.a == 255
                &&& 100 <= self.bg_color.r < 120
                &&& 80 <= self.bg_color.g < 90
                &&& 58 <= self.bg_color.b < 65
            },
        }
    }

    /// A fresh tile of the given kind: visible, never seen yet, with its
    /// shade drawn at random within the kind's range.
    pub fn new(x: i32, y: i32, style: ItemType) -> (t: Tile)
        ensures
            t.item == style,
            t.x == x,
            t.y == y,
            t.visible,
            !t.visited,
            t.wf(),
    {
        let mut tile = Tile {
            item: style,
            x: x,
            y: y,
            glyph: 0,
            fg_color: Rgba::rgb8(150, 100, 150),
            bg_color: Rgba::rgb8(0, 0, 0),
            visible: true,
            see_through: true,
            crossable: true,
            visited: false,
        };
        match tile.item {
            ItemType::StoneFloor => tile.stone_floor(),
            ItemType::StoneWall => tile.stone_wall(),
            ItemType::MudWall => tile.mud_wall(),
            _ => {},
        }
        tile
    }

    fn stone_floor(&mut self)
        requires
            old(self).bg_color == (Rgba { r: 0, g: 0, b: 0, a: 255 }),
            old(self).crossable,
            old(self).see_through,
        ensures
            *final(self) == (Tile {
                fg_color: final(self).fg_color,
                glyph: 46,
                ..*old(self)
            }),
            final(self).fg_color.is_gray(60, 100),
    {
        let gray = random_shade(60, 100);
        self.fg_color = Rgba::rgb8(gray, gray, gray);
        self.glyph = '.' as u8;
    }

    fn mud_wall(&mut self)
        ensures
            *final(self) == (Tile {
                fg_color: final(self).fg_color,
                bg_color: final(self).bg_color,
                glyph: 35,
                crossable: false,
                see_through: false,
                ..*old(self)
            }),
            final(self).fg_color.is_gray(5, 20),
            final(self).bg_color.a == 255,
            100 <= final(self).bg_color.r < 120,
            80 <= final(self).bg_color.g < 90,
            58 <= final(self).bg_color.b < 65,
    {
        let rb = random_shade(100, 120);
        let gb = random_shade(80, 90);
        let bb = random_shade(58, 65);
        let black = random_shade(5, 20);
        self.glyph = '#' as u8;
        self.bg_color = Rgba::rgb8(rb, gb, bb);
        self.fg_color = Rgba::rgb8(black, black, black);
        self.crossable = false;
        self.see_through = false;
    }

    fn stone_wall(&mut self)
        ensures
            *final(self) == (Tile {
                fg_color: final(self).fg_color,
                bg_color: final(self).bg_color,
                glyph: 35,
                crossable: false,
                see_through: false,
                ..*old(self)
            }),
            final(self).fg_color.is_gray(5, 20),
            final(self).bg_color.is_gray(100, 150),
    {
        let gray = random_shade(100, 150);
        let black = random_shade(5, 20);
        self.glyph = '#' as u8;
        self.bg_color = Rgba::rgb8(gray, gray, gray);
        self.fg_color = Rgba::rgb8(black, black, black);
        self.crossable = false;
        self.see_through = false;
    }
}

} // verus!
