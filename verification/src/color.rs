//! The color of a node in a red-black tree.
use vstd::prelude::*;

verus! {

/// Every node is either red or black. The sentinel (`nil`) node, which stands
/// for every leaf, is black.
#[allow(non_camel_case_types, clippy::upper_case_acronyms)]
#[derive(Clone, Copy, Debug, PartialEq, Eq, Structural, PartialOrd)]
pub enum Color {
    /// A red node; its children are black.
    RED,
    /// A black node; counts toward black height.
    BLACK,
}

} // verus!
