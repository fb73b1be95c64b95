//! The making of training data: the arguments of a run, the record of a game
//! and its bytes, and the tally of the games written.

pub mod args;
pub mod binpack;
pub mod dest;
pub mod format;

pub use args::{parse_args, Parsed, RunOptions};
pub use binpack::{Binpack, BinpackError};
pub use dest::{game_result, Destination, Pushed, Report};
pub use format::{FormatError, MontyAtaxxFormat, SearchData};
