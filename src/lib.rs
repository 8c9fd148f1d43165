//! An 8x8 Reversi board: legality of a move and the flips that a move makes.

pub mod board;
mod outside;

pub use board::{Board, Cell, BOARD_WIDTH};
