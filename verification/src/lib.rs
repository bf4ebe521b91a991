//! State shared between a document model and its layout pass: the per-node
//! flags that drive incremental relayout, a tree that keeps those flags
//! propagated towards the root, and the descriptor of a canvas render target.

pub mod node_flags;
pub mod node_tree;
pub mod canvas;

pub use crate::canvas::HTMLCanvasData;
pub use crate::node_flags::{NodeFlag, NodeFlags};
pub use crate::node_tree::NodeTree;
