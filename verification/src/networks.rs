//! The integer layers of the networks: vectors of 16-bit numbers and sums of
//! rows of weights.

pub mod accumulator;
pub mod dense;
pub mod layer;

pub use accumulator::{Accumulator, Align64};
pub use dense::l2;
pub use layer::Layer;
