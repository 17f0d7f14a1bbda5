//! Read access to the linkage of the nodes of a tree.
use vstd::prelude::*;
use crate::color::Color;

verus! {

/// The linkage of the nodes of a red-black tree, read by slot.
///
/// Slot indices stand for nodes. A direction is `0` for the left child and
/// `1` for the right child.
pub trait RBNode {
    /// The key type that orders the nodes.
    type Key;

    /// Slot `node` holds a node.
    spec fn has_node(&self, node: usize) -> bool;

    /// Returns the parent of `node`.
    fn get_parent(&self, node: usize) -> usize
        requires
            self.has_node(node),
    ;

    /// Returns the color of `node`.
    fn get_color(&self, node: usize) -> Color
        requires
            self.has_node(node),
    ;

    /// Returns the child of `node` in direction `dir`.
    fn get_child(&self, node: usize, dir: usize) -> usize
        requires
            self.has_node(node),
            dir < 2,
    ;

    /// Borrows the key of `node`.
    fn get_key(&self, node: usize) -> &Self::Key
        requires
            self.has_node(node),
    ;
}

} // verus!
