//! The text protocol that drives the engine: what its command lines mean.

pub mod command;
pub mod go;
pub mod option;
pub mod position;
pub mod report;

pub use command::{classify, classify_interrupt, Command};
pub use go::{go_limits, parse_go, GoOptions, Mode};
pub use option::{setoption, OptionChange};
pub use position::position;
pub use report::{preamble, search_report, state_string, ReportScore};
