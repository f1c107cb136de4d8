//! The rules engine of a Minesweeper game: a grid of cells with mines placed
//! at random, adjacency numbers, and the reveal / flag / chord operations that
//! drive a game to a win or a loss; and the press state of the widgets that
//! turn mouse input into those operations.

pub mod abutton;
pub mod board;
pub mod cell;
pub mod fill;
pub mod game;
pub mod grid;
pub mod laws;
