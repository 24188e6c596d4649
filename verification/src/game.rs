//! Plain game-state data carried by scene nodes: board coordinates, actors,
//! health, items and the display markers the producing game logic attaches.
//! The rendering core never interprets these; they are the values its
//! collaborators author.
use vstd::prelude::*;
use vstd::string::StringExecFns;
use crate::scene::Entity;

verus! {

/// Marks the node the player steers.
#[derive(Debug, Clone, Copy, PartialEq, Eq, Structural, Default)]
pub struct PlayerControlledCharacter;

/// Marks a node as an actor on the board.
#[derive(Debug, Clone, Copy, PartialEq, Eq, Structural, Default)]
pub struct Character;

/// A direction of movement on the board.
#[derive(Debug, Clone, Copy, PartialEq, Eq, Structural)]
pub enum Direction {
    Up,
    Down,
    Left,
    Right,
}

/// One decision of the player for a turn.
#[derive(Debug, Clone, Copy, PartialEq, Eq, Structural)]
pub enum PlayerAction {
    Move(Direction),
    Wait,
    Grab,
    Quit,
}

/// One actor striking another.
#[derive(Debug, Clone, Copy, PartialEq, Eq, Structural)]
pub struct Attack {
    pub attacker: Entity,
    pub target: Entity,
}

/// A position on the game board, in tiles.
#[derive(Debug, Clone, Copy, PartialEq, Eq, Structural, Default)]
pub struct WorldPosition {
    pub x: i32,
    pub y: i32,
}

impl WorldPosition {
    pub fn new(x: i32, y: i32) -> (r: Self)
        ensures
            r == (WorldPosition { x, y }),
    {
        WorldPosition { x, y }
    }

    /// The adjacent tile in the given direction.
    pub fn step_dir(&self, dir: Direction) -> (r: WorldPosition)
        requires
            i32::MIN < self.x < i32::MAX,
            i32::MIN < self.y < i32::MAX,
        ensures
            dir == Direction::Up ==> r == (WorldPosition { x: self.x, y: (self.y - 1) as i32 }),
            dir == Direction::Down ==> r == (WorldPosition { x: self.x, y: (self.y + 1) as i32 }),
            dir == Direction::Left ==> r == (WorldPosition { x: (self.x - 1) as i32, y: self.y }),
            dir == Direction::Right ==> r == (WorldPosition { x: (self.x + 1) as i32, y: self.y }),
    {
        let mut wp = *self;
        match dir {
            Direction::Up => {
                wp.y = wp.y - 1;
            },
            Direction::Down => {
                wp.y = wp.y + 1;
            },
            Direction::Left => {
                wp.x = wp.x - 1;
            },
            Direction::Right => {
                wp.x = wp.x + 1;
            },
        }
        wp
    }
}

/// Which side an actor fights for.
#[derive(Debug, Clone, Copy, PartialEq, Eq, Structural)]
pub struct Team(pub u32);

/// An actor that attacks members of the listed teams on sight.
#[derive(Debug, Clone)]
pub struct AggressiveAI {
    pub aggressive_against: Vec<u32>,
}

impl AggressiveAI {
    pub fn new(against: Vec<u32>) -> (r: Self)
        ensures
            r.aggressive_against == against,
    {
        AggressiveAI { aggressive_against: against }
    }
}

/// An actor that must skip turns.
#[derive(Debug, Clone, Copy, PartialEq, Eq, Structural, Default)]
pub struct Stunned {
    pub time: u32,
}

impl Stunned {
    pub fn new(time: u32) -> (r: Self)
        ensures
            r.time == time,
    {
        Stunned { time }
    }
}

/// Remaining hit points of an actor.
#[derive(Debug, Clone, Copy, PartialEq, Eq, Structural)]
pub struct Health {
    pub health: i32,
}

impl Health {
    pub fn new(health: i32) -> (r: Self)
        ensures
            r.health == health,
    {
        Health { health }
    }
}

/// Marks an actor as dead.
#[derive(Debug, Clone, Copy, PartialEq, Eq, Structural, Default)]
pub struct Dead;

/// Marks the node whose text block shows the event log.
#[derive(Debug, Clone, Copy, PartialEq, Eq, Structural, Default)]
pub struct LogDisplay;

/// Which inventory a display node shows.
#[derive(Debug, Clone, Copy, PartialEq, Eq, Structural)]
pub enum InventoryDisplayKind {
    Own,
    Ground,
}

/// Marks a node that renders an inventory, with an optional cursor row.
#[derive(Debug, Clone, Copy, PartialEq, Eq, Structural)]
pub struct InventoryDisplay {
    pub display_kind: InventoryDisplayKind,
    pub cursor_pos: Option<i32>,
}

impl InventoryDisplay {
    pub fn new(display_kind: InventoryDisplayKind) -> (r: Self)
        ensures
            r.display_kind == display_kind,
            r.cursor_pos is None,
    {
        InventoryDisplay { display_kind, cursor_pos: None }
    }
}

/// Marks the node that renders the game board.
#[derive(Debug, Clone, Copy, PartialEq, Eq, Structural, Default)]
pub struct BoardDisplay;

/// A weapon an actor can carry.
#[derive(Debug, Clone, PartialEq)]
pub struct Weapon {
    pub name: String,
    pub damage: i32,
}

impl Weapon {
    /// The weapon's display name.
    pub fn description(&self) -> (r: String)
        ensures
            r@ == self.name@,
    {
        String::from_str(self.name.as_str())
    }
}

/// A carriable item.
#[derive(Debug, Clone, PartialEq)]
pub enum Item {
    Weapon(Weapon),
}

impl Item {
    /// A one-line description of the item.
    pub fn description(&self) -> (r: String)
        ensures
            self matches Item::Weapon(w) ==> r@ == "Weapon: "@ + w.name@,
    {
        match self {
            Item::Weapon(wep) => {
                let mut s = String::from_str("Weapon: ");
                s.append(wep.description().as_str());
                s
            },
        }
    }
}

/// What an actor carries.
#[derive(Debug, Clone, PartialEq, Default)]
pub struct Inventory {
    pub items: Vec<Item>,
}

impl Inventory {
    pub fn new(items: Vec<Item>) -> (r: Self)
        ensures
            r.items == items,
    {
        Inventory { items }
    }
}

/// Marks a node the player currently controls.
#[derive(Debug, Clone, Copy, PartialEq, Eq, Structural, Default)]
pub struct Controlled;

/// A property sheet accumulated from an item's parts.
#[derive(Debug, Clone, PartialEq, Default)]
pub struct ItemProperties {
    pub name: String,
    pub damage: Option<i32>,
}

/// One contribution to an item's properties.
#[derive(Debug, Clone, PartialEq)]
pub enum ItemPart {
    Name(String),
    Damage(i32),
}

impl ItemPart {
    /// Folds this part into the property sheet: a name part is appended to
    /// the accumulated name, a damage part is added to the accumulated
    /// damage.
    pub fn collect_properties(&self, prop: &mut ItemProperties)
        requires
            *self matches ItemPart::Damage(d) ==> (old(prop).damage matches Some(v) ==> i32::MIN
                <= v + d <= i32::MAX),
        ensures
            *self matches ItemPart::Name(n) ==> final(prop).name@ == old(prop).name@ + n@ && final(prop).damage == old(prop).damage,
            *self matches ItemPart::Damage(d) ==> final(prop).name == old(prop).name && final(prop).damage == Some(
                (match old(prop).damage {
                    Some(v) => v + d,
                    None => d as int,
                }) as i32,
            ),
    {
        match self {
            ItemPart::Name(name) => {
                prop.name.append(name.as_str());
            },
            ItemPart::Damage(dmg) => {
                prop.damage = Some(
                    match prop.damage {
                        Some(v) => v + *dmg,
                        None => *dmg,
                    },
                );
            },
        }
    }
}

/// A tile of the game board: at most one standing actor and the items lying
/// there.
#[derive(Debug, Clone, Default)]
pub struct WorldTile {
    pub character: Option<Entity>,
    pub items: Vec<WorldItem>,
}

/// An item lying in the world.
#[derive(Debug, Clone)]
pub struct WorldItem {
    pub entity: Entity,
    pub item: Item,
}

/// The game board: a rectangle of tiles, indexed row first.
#[derive(Debug, Clone, Default)]
pub struct WorldMap {
    pub width: usize,
    pub height: usize,
    pub tiles: Vec<Vec<WorldTile>>,
}

impl WorldMap {
    /// A board is well formed when its tile grid matches its declared size.
    pub open spec fn wf(self) -> bool {
        &&& self.tiles@.len() == self.height
        &&& forall|y: int| 0 <= y < self.height ==> (#[trigger] self.tiles@[y])@.len() == self.width
    }

    /// A legal position: inside the rectangle.
    pub open spec fn legal(self, pos: WorldPosition) -> bool {
        0 <= pos.x < self.width && 0 <= pos.y < self.height
    }

    pub fn new(width: usize, height: usize) -> (r: Self)
        ensures
            r.wf(),
            r.width == width,
            r.height == height,
            forall|y: int, x: int|
                0 <= y < height && 0 <= x < width ==> (#[trigger] r.tiles@[y]@[x]).character is None
                    && r.tiles@[y]@[x].items@.len() == 0,
    {
        let mut tiles: Vec<Vec<WorldTile>> = Vec::new();
        let mut y: usize = 0;
        #[verifier::loop_isolation(false)]
        while y < height
            invariant
                y <= height,
                tiles@.len() == y,
                forall|yy: int| 0 <= yy < y ==> (#[trigger] tiles@[yy])@.len() == width,
                forall|yy: int, x: int|
                    0 <= yy < y && 0 <= x < width ==> (#[trigger] tiles@[yy]@[x]).character is None
                        && tiles@[yy]@[x].items@.len() == 0,
            decreases height - y,
        {
            let mut row: Vec<WorldTile> = Vec::new();
            let mut x: usize = 0;
            #[verifier::loop_isolation(false)]
            while x < width
                invariant
                    x <= width,
                    row@.len() == x,
                    forall|xx: int|
                        0 <= xx < x ==> (#[trigger] row@[xx]).character is None
                            && row@[xx].items@.len() == 0,
                decreases width - x,
            {
                row.push(WorldTile { character: None, items: Vec::new() });
                x += 1;
            }
            tiles.push(row);
            y += 1;
        }
        WorldMap { width, height, tiles }
    }

    /// Empties every tile.
    pub fn clear(&mut self)
        requires
            old(self).wf(),
        ensures
            final(self).wf(),
            final(self).width == old(self).width,
            final(self).height == old(self).height,
            forall|y: int, x: int|
                0 <= y < final(self).height && 0 <= x < final(self).width ==> (#[trigger] final(self).tiles@[y]@[x]).character is None && final(self).tiles@[y]@[x].items@.len() == 0,
    {
        let w = self.width;
        let h = self.height;
        let fresh = WorldMap::new(w, h);
        self.tiles = fresh.tiles;
    }

    /// The actor standing on a tile, if the position is legal and someone is
    /// there.
    pub fn read(&self, pos: &WorldPosition) -> (r: Option<Entity>)
        requires
            self.wf(),
        ensures
            self.legal(*pos) ==> r == self.tiles@[pos.y as int]@[pos.x as int].character,
            !self.legal(*pos) ==> r is None,
    {
        if self.is_legal_pos(pos) {
            self.tiles[pos.y as usize][pos.x as usize].character
        } else {
            None
        }
    }

    /// Borrows a tile, if the position is legal.
    pub fn get(&self, pos: &WorldPosition) -> (r: Option<&WorldTile>)
        requires
            self.wf(),
        ensures
            self.legal(*pos) ==> (r matches Some(t) && *t == self.tiles@[pos.y as int]@[pos.x as int]),
            !self.legal(*pos) ==> r is None,
    {
        if self.is_legal_pos(pos) {
            Some(&self.tiles[pos.y as usize][pos.x as usize])
        } else {
            None
        }
    }

    /// Borrows a tile mutably, if the position is legal.
    pub fn get_mut(&mut self, pos: &WorldPosition) -> (r: Option<&mut WorldTile>)
        requires
            old(self).wf(),
        ensures
            !old(self).legal(*pos) ==> r is None && *final(self) == *old(self),
    {
        if self.is_legal_pos(pos) {
            Some(&mut self.tiles[pos.y as usize][pos.x as usize])
        } else {
            None
        }
    }

    /// Whether the position lies inside the board.
    pub fn is_legal_pos(&self, pos: &WorldPosition) -> (r: bool)
        ensures
            r == self.legal(*pos),
    {
        pos.x >= 0 && (pos.x as usize) < self.width && pos.y >= 0 && (pos.y as usize)
            < self.height
    }
}

/// The accumulated in-game event log.
#[derive(Debug, Clone, Default)]
pub struct EventLog {
    pub events: Vec<String>,
}

/// One line for the event log.
#[derive(Debug, Clone)]
pub struct LogLine(pub String);

/// The node showing the board, if one is set.
#[derive(Debug, Clone, Copy, PartialEq, Eq, Structural, Default)]
pub struct Board(pub Option<Entity>);

/// The player's node, if one is set.
#[derive(Debug, Clone, Copy, PartialEq, Eq, Structural, Default)]
pub struct PlayerEntity(pub Option<Entity>);

/// Count of completed turns.
#[derive(Debug, Clone, Copy, PartialEq, Eq, Structural, Default)]
pub struct TurnCounter(pub i32);

} // verus!
