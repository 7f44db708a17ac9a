//! A checkers engine: a bit-packed board, the generation of moves and forced
//! capture chains, turn execution, and depth-limited adversarial search.

pub mod bits;
pub mod board;
pub mod controller;
pub mod error;
pub mod game;
pub mod legal;
pub mod rules;
