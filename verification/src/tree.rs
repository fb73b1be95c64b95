//! The search tree: its nodes, the two halves of the arena that holds them,
//! and the cache of leaf values.

pub mod arena;
pub mod backup;
pub mod best;
pub mod copy;
pub mod descent;
pub mod expand;
pub mod flip;
pub mod half;
pub mod laws;
pub mod hash;
pub mod node;
pub mod proven;
pub mod reuse;
pub mod shape;
pub mod size;
pub mod view;

pub use arena::Tree;
pub use best::Score;
pub use view::{NodeData, TreeView};
pub use descent::Phase;
pub use expand::Expansion;
pub use half::TreeHalf;
pub use hash::{HashEntry, HashTable};
pub use node::{Node, NodeModel, NodePtr, QUANT};
