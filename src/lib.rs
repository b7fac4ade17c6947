//! Rules engine and alpha-beta search agent for a Kalah-family sowing game.

pub mod board;
pub mod grid;
pub mod minimax;
pub mod protocol;
pub mod side;
