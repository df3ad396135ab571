//! Rules engine for the game of mills (nine men's morris): board topology,
//! successor enumeration with captures, a heuristic evaluator, and the
//! eight symmetries of the board.
pub mod topology;
pub mod state;
pub mod laws;
