//! An ordered binary search tree walked in order by an explicit-stack
//! iterator, and a stack of booleans packed into one machine word.

pub mod bit_stack;
pub mod tree;

pub use bit_stack::Stack1;
pub use tree::{Node, NodeStatus, Tree, TreeIter};
