//! An intrusive-style red-black tree over an arena of nodes.
pub mod color;
pub mod key;
pub mod rb_iter;
pub mod rb_node;
pub mod rb_tree;

pub use color::Color;
pub use key::{KeyOrder, KeyQuery, TreeKey};
pub use rb_iter::RBTreeIter;
pub use rb_node::RBNode;
pub use rb_tree::RBTree;
