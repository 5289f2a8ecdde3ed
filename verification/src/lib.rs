//! Turn-resolution engine of a sliding-tile merge puzzle on a 4x4 board.

pub mod balance;
pub mod board;
pub mod game;
pub mod input;
pub mod lane;
pub mod line;
pub mod merge;
pub mod moves;
pub mod score;
pub mod spawn;
