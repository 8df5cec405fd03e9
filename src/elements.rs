use crate::game::SandGame;
use crate::random::random_below;
use vstd::prelude::*;

verus! {

/// The element kinds. Each has a permanent numeric identity, its position
/// here, given by `id` and read back by `from_id`.
#[derive(Clone, Copy, PartialEq, Eq, Structural, Debug, Hash)]
pub enum Cell {
    Empty,
    Sand,
    Water,
    Stone,
    Wood,
    Dirt,
    RainbowSand,
    Steam,
}

/// How a kind moves during a tick.
#[derive(Clone, Copy, PartialEq, Eq, Structural, Debug)]
pub enum Behavior {
    /// Never moves (immobile solids and empty space).
    Inert,
    /// Falls straight down or down-diagonally.
    MovableSolid,
    /// Falls like a solid, and may take one sideways hop when blocked.
    Liquid,
    /// Rises straight up, else up-diagonally or sideways.
    Gas,
}

/// An RGB color.
pub type Rgb = (u8, u8, u8);

/// Number of kinds; ids are `0..KIND_COUNT`.
pub const KIND_COUNT: u8 = 8;

/// The seven hues that rainbow sand cycles through, in order.
pub open spec fn rainbow_palette() -> Seq<Rgb> {
    seq![(255, 0, 0), (255, 127, 0), (255, 255, 0), (0, 255, 0), (0, 0, 255), (75, 0, 130), (143, 0, 255)]
}

/// The palette of each kind: never empty.
pub open spec fn palette(k: Cell) -> Seq<Rgb> {
    match k {
        Cell::Empty => seq![(0u8, 0u8, 0u8)],
        Cell::Sand => seq![(207, 180, 120), (185, 160, 100), (160, 140, 80)],
        Cell::Water => seq![(28, 85, 205)],
        Cell::Stone => seq![(100, 100, 100), (120, 120, 120), (140, 140, 140)],
        Cell::Wood => seq![(117, 76, 36), (139, 101, 49), (160, 120, 60)],
        Cell::Dirt => seq![(133, 94, 66), (110, 78, 54), (90, 63, 45)],
        Cell::RainbowSand => rainbow_palette(),
        Cell::Steam => seq![(200, 200, 200)],
    }
}

/// The movement rule of each kind.
pub open spec fn behavior_of(k: Cell) -> Behavior {
    match k {
        Cell::Sand | Cell::Dirt | Cell::RainbowSand => Behavior::MovableSolid,
        Cell::Water => Behavior::Liquid,
        Cell::Steam => Behavior::Gas,
        Cell::Empty | Cell::Stone | Cell::Wood => Behavior::Inert,
    }
}

/// Density of each kind in hundredths. It is informational: movement never
/// consults it.
pub open spec fn density_of(k: Cell) -> u32 {
    match k {
        Cell::Empty => 0,
        Cell::Sand | Cell::Dirt | Cell::RainbowSand => 100,
        Cell::Water => 80,
        Cell::Stone | Cell::Wood => 10000,
        Cell::Steam => 50,
    }
}

/// The name of each kind.
pub open spec fn name_of(k: Cell) -> Seq<char> {
    match k {
        Cell::Empty => "Empty"@,
        Cell::Sand => "Sand"@,
        Cell::Water => "Water"@,
        Cell::Stone => "Stone"@,
        Cell::Wood => "Wood"@,
        Cell::Dirt => "Dirt"@,
        Cell::RainbowSand => "RainbowSand"@,
        Cell::Steam => "Steam"@,
    }
}

/// The id of each kind.
pub open spec fn id_of(k: Cell) -> u8 {
    match k {
        Cell::Empty => 0,
        Cell::Sand => 1,
        Cell::Water => 2,
        Cell::Stone => 3,
        Cell::Wood => 4,
        Cell::Dirt => 5,
        Cell::RainbowSand => 6,
        Cell::Steam => 7,
    }
}

/// The kind with a given id, if any.
pub open spec fn kind_of_id(id: u8) -> Option<Cell> {
    if id == 0 {
        Some(Cell::Empty)
    } else if id == 1 {
        Some(Cell::Sand)
    } else if id == 2 {
        Some(Cell::Water)
    } else if id == 3 {
        Some(Cell::Stone)
    } else if id == 4 {
        Some(Cell::Wood)
    } else if id == 5 {
        Some(Cell::Dirt)
    } else if id == 6 {
        Some(Cell::RainbowSand)
    } else if id == 7 {
        Some(Cell::Steam)
    } else {
        None
    }
}

/// What the element table holds for one kind.
pub struct ElementProperties {
    pub colors: Vec<Rgb>,
    pub movement_behavior: Behavior,
    /// In hundredths.
    pub density: u32,
}

impl Cell {
    /// The permanent id of this kind.
    pub fn id(self) -> (r: u8)
        ensures
            r == id_of(self),
            r < KIND_COUNT,
            kind_of_id(r) == Some(self),
    {
        match self {
            Cell::Empty => 0,
            Cell::Sand => 1,
            Cell::Water => 2,
            Cell::Stone => 3,
            Cell::Wood => 4,
            Cell::Dirt => 5,
            Cell::RainbowSand => 6,
            Cell::Steam => 7,
        }
    }

    /// The kind with id `id`; `None` for an id of no kind.
    pub fn from_id(id: u8) -> (r: Option<Cell>)
        ensures
            r == kind_of_id(id),
            r.is_some() <==> id < KIND_COUNT,
            r matches Some(k) ==> id_of(k) == id,
    {
        match id {
            0 => Some(Cell::Empty),
            1 => Some(Cell::Sand),
            2 => Some(Cell::Water),
            3 => Some(Cell::Stone),
            4 => Some(Cell::Wood),
            5 => Some(Cell::Dirt),
            6 => Some(Cell::RainbowSand),
            7 => Some(Cell::Steam),
            _ => None,
        }
    }

    /// The display name of this kind.
    pub fn name(self) -> (r: &'static str)
        ensures
            r@ == name_of(self),
    {
        match self {
            Cell::Empty => "Empty",
            Cell::Sand => "Sand",
            Cell::Water => "Water",
            Cell::Stone => "Stone",
            Cell::Wood => "Wood",
            Cell::Dirt => "Dirt",
            Cell::RainbowSand => "RainbowSand",
            Cell::Steam => "Steam",
        }
    }

    /// The movement rule of this kind.
    pub fn behavior(self) -> (r: Behavior)
        ensures
            r == behavior_of(self),
    {
        match self {
            Cell::Sand | Cell::Dirt | Cell::RainbowSand => Behavior::MovableSolid,
            Cell::Water => Behavior::Liquid,
            Cell::Steam => Behavior::Gas,
            Cell::Empty | Cell::Stone | Cell::Wood => Behavior::Inert,
        }
    }

    /// The element table's entry for this kind.
    pub fn properties(self) -> (r: ElementProperties)
        ensures
            r.colors@ == palette(self),
            r.movement_behavior == behavior_of(self),
            r.density == density_of(self),
    {
        let colors: Vec<Rgb> = match self {
            Cell::Empty => vec![(0, 0, 0)],
            Cell::Sand => vec![(207, 180, 120), (185, 160, 100), (160, 140, 80)],
            Cell::Water => vec![(28, 85, 205)],
            Cell::Stone => vec![(100, 100, 100), (120, 120, 120), (140, 140, 140)],
            Cell::Wood => vec![(117, 76, 36), (139, 101, 49), (160, 120, 60)],
            Cell::Dirt => vec![(133, 94, 66), (110, 78, 54), (90, 63, 45)],
            Cell::RainbowSand => rainbow_colors(),
            Cell::Steam => vec![(200, 200, 200)],
        };
        let density: u32 = match self {
            Cell::Empty => 0,
            Cell::Sand | Cell::Dirt | Cell::RainbowSand => 100,
            Cell::Water => 80,
            Cell::Stone | Cell::Wood => 10000,
            Cell::Steam => 50,
        };
        proof {
            assert(colors@ =~= palette(self));
        }
        ElementProperties { colors, movement_behavior: self.behavior(), density }
    }
}

fn rainbow_colors() -> (r: Vec<Rgb>)
    ensures
        r@ == rainbow_palette(),
{
    let r = vec![(255, 0, 0), (255, 127, 0), (255, 255, 0), (0, 255, 0), (0, 0, 255), (75, 0, 130), (143, 0, 255)];
    assert(r@ =~= rainbow_palette());
    r
}

/// The next hue of the rainbow cycle: the one at `counter` modulo the
/// cycle's length. `counter` advances by one, wrapping at `usize::MAX`.
pub fn next_rainbow_color(counter: &mut usize) -> (r: Rgb)
    ensures
        r == rainbow_palette()[*old(counter) as int % 7],
        *final(counter) == (*old(counter)).wrapping_add(1),
{
    let colors = rainbow_colors();
    let index = *counter % 7;
    *counter = (*counter).wrapping_add(1);
    colors[index]
}

impl SandGame {
    /// The name and id of every kind, in id order.
    pub fn get_element_types() -> (r: Vec<(&'static str, u8)>)
        ensures
            r@.len() == KIND_COUNT,
            forall|i: int| 0 <= i < r@.len() ==> (#[trigger] r@[i]).1 == i,
            forall|i: int| 0 <= i < r@.len() ==> (#[trigger] r@[i]).0@ == name_of(kind_of_id(i as u8)->0),
    {
        let r = vec![
            (Cell::Empty.name(), 0),
            (Cell::Sand.name(), 1),
            (Cell::Water.name(), 2),
            (Cell::Stone.name(), 3),
            (Cell::Wood.name(), 4),
            (Cell::Dirt.name(), 5),
            (Cell::RainbowSand.name(), 6),
            (Cell::Steam.name(), 7),
        ];
        r
    }
}

/// One grid cell: its kind, its color, its fall velocity in tenths of a cell
/// per tick, and the last tick in which the scheduler visited it.
#[derive(Clone, Copy)]
pub struct GridCell {
    pub cell_type: Cell,
    pub color: Rgb,
    pub velocity: u32,
    pub last_processed_frame: u64,
}

impl GridCell {
    /// A fresh cell of `cell_type` with the palette entry `pick`, at rest and
    /// never visited.
    pub fn from_palette(cell_type: Cell, pick: usize) -> (r: GridCell)
        requires
            pick < palette(cell_type).len(),
        ensures
            r == (GridCell { cell_type, color: palette(cell_type)[pick as int], velocity: 0, last_processed_frame: 0 }),
    {
        let props = cell_type.properties();
        GridCell { cell_type, color: props.colors[pick], velocity: 0, last_processed_frame: 0 }
    }

    /// A fresh cell of `cell_type`. Rainbow sand takes the next hue of the
    /// cycle at `rainbow_counter` and advances it; every other kind takes a
    /// random entry of its palette and leaves the counter as it is.
    pub fn new(cell_type: Cell, rainbow_counter: &mut usize) -> (r: GridCell)
        ensures
            r.cell_type == cell_type,
            r.velocity == 0,
            r.last_processed_frame == 0,
            palette(cell_type).contains(r.color),
            cell_type == Cell::RainbowSand ==> r.color == rainbow_palette()[*old(rainbow_counter) as int % 7]
                && *final(rainbow_counter) == (*old(rainbow_counter)).wrapping_add(1),
            cell_type != Cell::RainbowSand ==> *final(rainbow_counter) == *old(rainbow_counter),
    {
        match cell_type {
            Cell::RainbowSand => {
                let color = next_rainbow_color(rainbow_counter);
                assert(palette(cell_type)[*old(rainbow_counter) as int % 7] == color);
                GridCell { cell_type, color, velocity: 0, last_processed_frame: 0 }
            },
            _ => {
                let props = cell_type.properties();
                let pick = random_below(props.colors.len());
                let r = GridCell::from_palette(cell_type, pick);
                assert(palette(cell_type)[pick as int] == r.color);
                r
            },
        }
    }
}

} // verus!
