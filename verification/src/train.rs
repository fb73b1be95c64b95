//! What the training of the policy network needs of the game: the symmetries
//! of the board, the numbering of the moves, and a source of numbers to pick
//! by.

pub mod loader;
pub mod moves;

pub use loader::{
    augment, flip_diag, flip_hor, flip_vert, numbered, parse_into_buffer, shuffle, transform_bb,
    transform_move, transform_sq, DataLoader, DecompressedData, Rand, Transform,
};
pub use moves::{map_move_to_index, num_moves_count, MAX_MOVES};
