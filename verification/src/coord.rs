//! Signed 2D coordinates, used both as grid indices (after bounds
//! validation) and as free vectors for direction arithmetic.

use vstd::prelude::*;

use crate::tile::Direction;

verus! {

/// The x component of `direction`'s unit displacement scaled by `value`.
pub open spec fn dir_offset_x(value: int, direction: Direction) -> int {
    match direction {
        Direction::Up => 0,
        Direction::Right => value,
        Direction::Down => 0,
        Direction::Left => -value,
    }
}

/// The y component of `direction`'s unit displacement scaled by `value`.
pub open spec fn dir_offset_y(value: int, direction: Direction) -> int {
    match direction {
        Direction::Up => -value,
        Direction::Right => 0,
        Direction::Down => value,
        Direction::Left => 0,
    }
}

/// A signed 2D integer pair. Direction arithmetic may transiently leave the
/// grid's bounds; every coordinate must be validated before indexing.
#[derive(Clone, Copy, Debug, PartialEq, Eq, Structural)]
pub struct Coord {
    pub x: i32,
    pub y: i32,
}

impl Coord {
    /// Builds the coordinate `(x, y)`.
    pub fn new(x: i32, y: i32) -> (r: Coord)
        ensures
            r.x == x,
            r.y == y,
    {
        Coord { x, y }
    }

    /// The unit displacement of `direction`, scaled by `value`:
    /// Up is `(0, -value)`, Right `(value, 0)`, Down `(0, value)`,
    /// Left `(-value, 0)`.
    pub fn from_direction(value: i32, direction: Direction) -> (r: Coord)
        requires
            i32::MIN < value,
        ensures
            r.x as int == dir_offset_x(value as int, direction),
            r.y as int == dir_offset_y(value as int, direction),
    {
        match direction {
            Direction::Up => Coord { x: 0, y: -value },
            Direction::Right => Coord { x: value, y: 0 },
            Direction::Down => Coord { x: 0, y: value },
            Direction::Left => Coord { x: -value, y: 0 },
        }
    }

    /// This coordinate displaced `value` steps in `direction`.
    pub fn add_direction(self, value: i32, direction: Direction) -> (r: Coord)
        requires
            i32::MIN < value,
            i32::MIN <= self.x + dir_offset_x(value as int, direction) <= i32::MAX,
            i32::MIN <= self.y + dir_offset_y(value as int, direction) <= i32::MAX,
        ensures
            r.x as int == self.x + dir_offset_x(value as int, direction),
            r.y as int == self.y + dir_offset_y(value as int, direction),
    {
        let step = Coord::from_direction(value, direction);
        Coord { x: self.x + step.x, y: self.y + step.y }
    }

    /// True iff the two coordinates lie on a common row or column.
    pub fn shares_axis(self, other: Coord) -> (r: bool)
        ensures
            r == (self.x == other.x || self.y == other.y),
    {
        self.x == other.x || self.y == other.y
    }
}

} // verus!
