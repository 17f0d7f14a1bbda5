# intrusive_red_black_tree

A red-black tree whose nodes live in an arena of slots, verified with Verus.

Nodes are identified by slot indices. A node is created with `new_node`, linked
into the tree with `insert`, unlinked with `delete` or `delete_min`, and may be
linked again later; the tree never touches the links of a slot that is not in
it. Slot `0` is the sentinel (`nil`) that stands for every leaf.

Layout of `src/`:

- `color.rs`: node colors.
- `key.rs`: key ordering. Every key is viewed as a sequence of integers and
  compared lexicographically (integers as one-element sequences, strings by
  their UTF-8 bytes); `TreeKey` and `KeyQuery` carry that order to keys and to
  borrowed lookup forms such as `str`.
- `rb_node.rs`: the `RBNode` trait, read access to colors, parents, children
  and keys by slot.
- `rb_tree.rs`: the tree. Its view is the sequence of linked slots in ascending
  key order; each operation is specified against that view. The shape
  invariant is kept through ghost ranges (each node covers a contiguous range
  of the order) and ghost black heights, which make the binary-search-tree and
  red-black rules local to each node. Public proof functions state the laws:
  the view is sorted and is the in-order traversal of the links (`subtree`),
  the minimum is the leftmost node, the red-black rules, parent/child
  consistency, the logarithmic height bound, that removing and re-inserting
  undo each other, that repeated pops yield ascending keys, and that
  deleting every node empties the tree. Its submodules under `rb_tree/`:
  - `rotate.rs`: the rotation in either direction and the link setters;
  - `insert.rs`: insertion and its fix-up loop;
  - `unlink.rs`: `rb_transplant` and unlinking a node from the tree;
  - `delete_fix.rs`: the fix-up loop after a black node is removed;
  - `remove.rs`: `delete` and `delete_min`;
  - `traversal.rs`: subtree minimum and in-order successor;
  - `laws.rs`: the public laws.
- `rb_iter.rs`: in-order traversal.
