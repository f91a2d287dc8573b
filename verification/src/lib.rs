//! An N-Queens board that keeps, for every empty square, the number of queens
//! attacking it, together with a backtracking search that fills the board.

pub mod attack;
pub mod board;
pub mod cell;
pub mod counter;
pub mod grid;
pub mod solver;
pub mod text;
