//! Rule engine of a mine-clearing puzzle: the board and its tiles, deferred
//! mine placement, neighbour counts, the bounded flood reveal and the game's
//! phases.

pub mod game;
pub mod minefield;
pub mod tile;
