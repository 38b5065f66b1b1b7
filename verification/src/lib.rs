//! A two-player disc-flipping board game engine on a rectangular grid,
//! together with a single-ply greedy move advisor.
//!
//! The engine owns the grid of cell states and the ordered move history,
//! checks move legality, resolves directional captures, detects when a
//! player must pass, and tallies the score.  The advisor scans the board
//! for the candidate placement with the highest capture count, preferring
//! corner cells.  All interactive input and rendering live outside this
//! library.

pub mod ai;
pub mod math;
pub mod othello;
