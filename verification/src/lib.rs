//! A verified solver for the game of Connect Four on the standard 7 x 6 board.
//!
//! The solver computes the game-theoretic score of a position from the side to
//! move's point of view: positive when the mover can force a win, zero for a
//! draw, negative for a forced loss, with larger magnitudes for earlier ends.
//!
//! `model` holds the mathematical board model and the game value that every
//! contract refers to; `positions` holds the executable board encodings;
//! `solvers` holds the search engines; `transposition_table` the memoization
//! store; `move_sorter` the heuristic move ordering; `laws` the proofs of the
//! properties that relate the public operations to one another.

pub mod model;
pub mod positions;
pub mod solvers;
pub mod laws;
pub mod transposition_table;
pub mod move_sorter;
