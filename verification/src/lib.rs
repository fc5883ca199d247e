//! A sliding-block puzzle on a square grid: vehicles block a target piece
//! from the exit, and a breadth-first search finds a shortest sequence of
//! slides that frees it.

pub mod board;
pub mod error;
pub mod fingerprint;
pub mod grid;
pub mod history;
pub mod inverse;
pub mod layout;
pub mod pattern;
pub mod position;
pub mod probe;
pub mod record;
pub mod search;
pub mod shortest;
pub mod slide;
pub mod solvers;
pub mod tile;
pub mod turn;
