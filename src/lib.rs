//! Conway's Game of Life on a bounded, non-wrapping grid, together with the
//! decisions of the interactive control loop that drives it.
pub mod control;
pub mod world;
mod seqs;
