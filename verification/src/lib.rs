//! A water-sort puzzle library: capacity-bounded containers of colored
//! units, pour-move semantics, legal-move enumeration, and a state-space
//! solver that returns a replayable sequence of moves.

pub mod color;
pub mod container;
pub mod game;
pub mod bounds;
pub mod solver;
pub mod laws;
pub mod level;
