//! The rules of Ataxx on a 7x7 board held in bitboards.

pub mod bitboard;
pub mod board;
pub mod fen;
pub mod fen_law;
pub mod movegen;
pub mod rules;
pub mod moves;
pub mod state;

pub use bitboard::Bitboard;
pub use board::{rand, Board, BoardModel, Side};
pub use moves::Move;
pub use state::GameState;
