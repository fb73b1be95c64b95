//! A Monte Carlo tree search engine core for Ataxx: the rules of the game,
//! the two-half node arena, the bookkeeping of one search iteration, the
//! limits of a search and the text protocol that drives it.
//!
//! Everything in this crate works on integers. Values that the networks
//! produce as floating-point numbers enter it already quantised.

pub mod ataxx;
pub mod datagen;
pub mod mcts;
pub mod networks;
pub mod text;
pub mod train;
pub mod tree;
pub mod uai;
