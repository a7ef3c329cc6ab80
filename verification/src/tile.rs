//! Cell states and the four axis directions.

use vstd::prelude::*;

verus! {

/// One of the four axis-aligned directions a piston can face.
#[derive(Clone, Copy, Debug, PartialEq, Eq, Structural)]
pub enum Direction {
    Up,
    Right,
    Down,
    Left,
}

impl Direction {
    /// The opposite direction.
    pub open spec fn spec_flip(self) -> Direction {
        match self {
            Direction::Up => Direction::Down,
            Direction::Right => Direction::Left,
            Direction::Down => Direction::Up,
            Direction::Left => Direction::Right,
        }
    }

    /// Reverses the direction (Up and Down swap, Right and Left swap).
    pub fn flip(self) -> (r: Direction)
        ensures
            r == self.spec_flip(),
    {
        match self {
            Direction::Up => Direction::Down,
            Direction::Right => Direction::Left,
            Direction::Down => Direction::Up,
            Direction::Left => Direction::Right,
        }
    }
}

/// The state of one grid cell.
#[derive(Clone, Copy, Debug, PartialEq, Eq, Structural)]
pub enum Tile {
    /// No occupant; pushable into.
    Empty,
    /// An inert movable block.
    Stone,
    /// An immovable boundary block: never displaced, never a push or pull
    /// target.
    Bedrock,
    /// A retracted piston facing the given direction; it attempts to extend
    /// on its tick.
    Piston(Direction),
    /// An extended piston's base; it retracts back to `Piston` on its next
    /// tick.
    PistonBase(Direction),
    /// The extended arm segment, one step in front of its `PistonBase`.
    PistonArm(Direction),
}

impl Tile {
    /// True only for `Empty`.
    pub open spec fn spec_is_empty(self) -> bool {
        self is Empty
    }

    /// True for every state except `PistonBase` and `PistonArm`.
    pub open spec fn spec_is_movable(self) -> bool {
        !(self is PistonBase || self is PistonArm)
    }

    /// Stops a push scan before any empty cell is found: `Bedrock` and the
    /// two extended-piston parts.
    pub open spec fn blocks_push(self) -> bool {
        self is Bedrock || self is PistonBase || self is PistonArm
    }

    /// A tile a push scan walks through: movable, occupied, and not a
    /// boundary block.
    pub open spec fn run_tile(self) -> bool {
        self is Stone || self is Piston
    }

    /// A tile a retracting sticky piston may drag back: movable and not a
    /// boundary block (pulling `Empty` is a harmless no-op).
    pub open spec fn can_pull(self) -> bool {
        self.spec_is_movable() && !(self is Bedrock)
    }

    /// A tile that takes no action of its own during a tick.
    pub open spec fn inert(self) -> bool {
        !(self is Piston || self is PistonBase)
    }

    /// True only for `Empty`.
    pub fn is_empty(self) -> (r: bool)
        ensures
            r == self.spec_is_empty(),
    {
        matches!(self, Tile::Empty)
    }

    /// True for every state except `PistonBase` and `PistonArm`.
    pub fn is_movable(self) -> (r: bool)
        ensures
            r == self.spec_is_movable(),
    {
        !matches!(self, Tile::PistonBase(_) | Tile::PistonArm(_))
    }
}

} // verus!
