//! A falling-block puzzle game: the board, the pieces, line clearing, the
//! random bag, the keyboard decisions and the frame-by-frame game rules,
//! each with a machine-checked contract.

pub mod block;
pub mod grid;
pub mod input;
pub mod piece;
pub mod board;
pub mod game;
pub mod render;
