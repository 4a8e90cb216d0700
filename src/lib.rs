//! Rules engine for two-player chess on bitboards: board state, pseudo-legal
//! move generation, check detection, legality filtering and move application.

pub mod bits;
pub mod chess;
pub mod geometry;
pub mod movegen;
pub mod engine;
pub mod laws;

pub use crate::bits::get_nth_bit;
pub use crate::chess::{Chess, EnPassant, Piece, PieceType, Side};
