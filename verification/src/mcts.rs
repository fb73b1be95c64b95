//! What a search is run by: its tunable parameters, its limits and counters,
//! and the decisions on when it stops.

pub mod draws;
pub mod driver;
pub mod helpers;
pub mod limits;
pub mod params;
pub mod playout;
pub mod root;
pub mod search;

pub use helpers::SearchHelpers;
pub use limits::{check_limits, iteration_done, stability_due, Limits, SearchStats, Verdict};
pub use params::{param_default, param_name, MctsParams, NUM_PARAMS};
pub use driver::{on_playout, prepare_root, search_with, SearchOutcome, Step, Stop};
pub use search::{iterate, Playout};
