//! A discrete-time cellular simulation of mechanical push/pull devices
//! ("pistons") acting on a 2D grid of typed cells.
//!
//! The grid owns a dense row-major array of [`tile::Tile`] states and advances
//! one step at a time: a retracted piston extends, pushing a contiguous line
//! of movable tiles one cell forward; an extended piston retracts, dragging
//! one trailing tile back with it ("sticky" behaviour).

pub mod coord;
pub mod grid;
pub mod laws;
pub mod model;
pub mod tile;
