//! A falling-sand cellular automaton: a grid of element cells, a chunk
//! activity map that limits each tick to regions with recent movement, and
//! per-element movement rules built on one cell-swap primitive.

mod random;

pub mod behavior;
pub mod elements;
pub mod game;
pub mod laws;
pub mod scan;
pub mod spawn;

pub use elements::{next_rainbow_color, Behavior, Cell, ElementProperties, GridCell};
pub use game::{GameView, SandGame, GRAVITY_ACCEL, MAX_VELOCITY, VELOCITY_SCALE};
