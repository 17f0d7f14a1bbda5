//! Laws of the tree: sorted order, the red-black rules and balance.
use vstd::prelude::*;
use vstd::arithmetic::power2::{lemma_pow2_strictly_increases, lemma_pow2_unfold, pow2};
use super::RBTree;
use crate::color::Color;
use crate::key::{
    lemma_i32_key_order, lemma_i64_key_order, lemma_seq_lt_irreflexive, lemma_seq_lt_transitive,
    lemma_string_views_equal, lemma_u32_key_order, lemma_u64_key_order, lemma_usize_key_order,
    seq_lt, TreeKey,
};

verus! {

impl<K: TreeKey> RBTree<K> {
    /// The keys of the linked nodes strictly ascend along `self@`: in-order
    /// traversal is sorted, and no key (and no node) occurs twice.
    pub proof fn lemma_inorder_sorted(&self)
        requires
            self.wf(),
        ensures
            forall|i: int, j: int|
                0 <= i < j < self@.len() ==> seq_lt(
                    #[trigger] self.key_of(self@[i]),
                    #[trigger] self.key_of(self@[j]),
                ),
            forall|i: int, j: int|
                0 <= i < self@.len() && 0 <= j < self@.len() && i != j ==> #[trigger] self@[i]
                    != #[trigger] self@[j],
            forall|i: int| 0 <= i < self@.len() ==> #[trigger] self@[i] != self.nil_spec(),
            forall|i: int| 0 <= i < self@.len() ==> #[trigger] self@[i] < self.slot_count(),
            forall|i: int, j: int|
                0 <= i < self@.len() && 0 <= j < self@.len() && i != j ==> #[trigger] self.key_of(
                    self@[i],
                ) != #[trigger] self.key_of(self@[j]),
    {
        assert forall|i: int, j: int|
            0 <= i < self@.len() && 0 <= j < self@.len() && i != j implies #[trigger] self.key_of(
                self@[i],
            ) != #[trigger] self.key_of(self@[j]) by {
            self.lemma_sorted_at(i, j);
        }
        assert forall|i: int, j: int| 0 <= i < j < self@.len() implies seq_lt(
            #[trigger] self.key_of(self@[i]),
            #[trigger] self.key_of(self@[j]),
        ) by {
            self.lemma_sorted_at(i, j);
        }
        assert forall|i: int, j: int|
            0 <= i < self@.len() && 0 <= j < self@.len() && i != j implies #[trigger] self@[i]
                != #[trigger] self@[j] by {
            self.lemma_sorted_at(i, j);
        }
        assert forall|i: int| 0 <= i < self@.len() implies #[trigger] self@[i] != self.nil_spec()
            && self@[i] < self.slot_count() by {
            self.lemma_at(i);
        }
    }

    /// Membership in `self@` is being linked.
    pub(crate) proof fn lemma_view_linked(&self, n: usize)
        requires
            self.shape_ok(),
        ensures
            self@.contains(n) == self.linked(n),
    {
        if self@.contains(n) {
            let i = choose|i: int| 0 <= i < self@.len() && self@[i] == n;
            self.lemma_at(i);
        }
        if self.linked(n) {
            self.lemma_children(n);
            assert(self@[self.pos@[n]] == n);
        }
    }

    /// Every slot below the slot count can be read.
    pub proof fn lemma_valid_slot(&self, n: usize)
        requires
            self.wf(),
        ensures
            self.valid_slot(n) == (n < self.slot_count()),
    {
    }

    /// Parents and children point at each other, a left child holds a smaller
    /// key and a right child a larger one, the root is the one node without a
    /// parent, and the sentinel's children are the sentinel itself.
    pub proof fn lemma_tree_links(&self)
        requires
            self.wf(),
        ensures
            self.child_of(self.nil_spec(), 0) == self.nil_spec(),
            self.child_of(self.nil_spec(), 1) == self.nil_spec(),
            (self.root_spec() == self.nil_spec()) == (self@.len() == 0),
            self@.len() > 0 ==> self@.contains(self.root_spec()) && self.parent_of(
                self.root_spec(),
            ) == self.nil_spec(),
            forall|n: usize, d: int|
                #![trigger self.child_of(n, d)]
                self@.contains(n) && 0 <= d < 2 && self.child_of(n, d) != self.nil_spec() ==> {
                    &&& self@.contains(self.child_of(n, d))
                    &&& self.parent_of(self.child_of(n, d)) == n
                    &&& (d == 0 ==> seq_lt(self.key_of(self.child_of(n, d)), self.key_of(n)))
                    &&& (d == 1 ==> seq_lt(self.key_of(n), self.key_of(self.child_of(n, d))))
                },
            forall|n: usize|
                #![trigger self.parent_of(n)]
                self@.contains(n) && n != self.root_spec() ==> self@.contains(self.parent_of(n)),
    {
        if self.order@.len() > 0 {
            assert(self.linked(self.root));
            self.lemma_view_linked(self.root);
        }
        assert forall|n: usize, d: int|
            #![trigger self.child_of(n, d)]
            self@.contains(n) && 0 <= d < 2 && self.child_of(n, d) != self.nil_spec() implies {
                &&& self@.contains(self.child_of(n, d))
                &&& self.parent_of(self.child_of(n, d)) == n
                &&& (d == 0 ==> seq_lt(self.key_of(self.child_of(n, d)), self.key_of(n)))
                &&& (d == 1 ==> seq_lt(self.key_of(n), self.key_of(self.child_of(n, d))))
            } by {
            self.lemma_view_linked(n);
            self.lemma_children(n);
            let c = self.child_of(n, d);
            self.lemma_view_linked(c);
            self.lemma_children(c);
            self.lemma_sorted_at(self.pos@[c], self.pos@[n]);
        }
        assert forall|n: usize|
            #![trigger self.parent_of(n)]
            self@.contains(n) && n != self.root_spec() implies self@.contains(self.parent_of(n)) by {
            self.lemma_view_linked(n);
            self.lemma_children(n);
            self.lemma_view_linked(self.parent_of(n));
        }
    }

    /// The red-black rules: the root and the sentinel are black, a red node
    /// has black children, and every node has the same black height through
    /// both of its children (so every path from a node down to a leaf meets
    /// the same number of black nodes).
    pub proof fn lemma_red_black(&self)
        requires
            self.wf(),
        ensures
            self.color_of(self.nil_spec()) == Color::BLACK,
            self.color_of(self.root_spec()) == Color::BLACK,
            self.black_height(self.nil_spec()) == 1,
            forall|n: usize|
                #![trigger self.color_of(n), self.child_of(n, 0)]
                self@.contains(n) && self.color_of(n) == Color::RED ==> self.color_of(
                    self.child_of(n, 0),
                ) == Color::BLACK && self.color_of(self.child_of(n, 1)) == Color::BLACK,
            forall|n: usize, d: int|
                #![trigger self.black_height(self.child_of(n, d))]
                self@.contains(n) && 0 <= d < 2 ==> self.black_height(n) == self.black_height(
                    self.child_of(n, d),
                ) + if self.color_of(n) == Color::BLACK {
                    1int
                } else {
                    0int
                },
    {
        assert forall|n: usize|
            #![trigger self.color_of(n), self.child_of(n, 0)]
            self@.contains(n) && self.color_of(n) == Color::RED implies self.color_of(
                self.child_of(n, 0),
            ) == Color::BLACK && self.color_of(self.child_of(n, 1)) == Color::BLACK by {
            self.lemma_rb_at(n);
        }
        assert forall|n: usize, d: int|
            #![trigger self.black_height(self.child_of(n, d))]
            self@.contains(n) && 0 <= d < 2 implies self.black_height(n) == self.black_height(
                self.child_of(n, d),
            ) + if self.color_of(n) == Color::BLACK {
                1int
            } else {
                0int
            } by {
            self.lemma_rb_at(n);
        }
    }

    /// The red-black rules at one node.
    pub(crate) proof fn lemma_rb_at(&self, n: usize)
        requires
            self.wf(),
            self@.contains(n),
        ensures
            self.color_of(n) == Color::RED ==> self.color_of(self.child_of(n, 0)) == Color::BLACK
                && self.color_of(self.child_of(n, 1)) == Color::BLACK,
            self.black_height(n) == self.black_height(self.child_of(n, 0)) + if self.color_of(n)
                == Color::BLACK {
                1int
            } else {
                0int
            },
            self.black_height(n) == self.black_height(self.child_of(n, 1)) + if self.color_of(n)
                == Color::BLACK {
                1int
            } else {
                0int
            },
    {
        self.lemma_view_linked(n);
        assert(self.node_rb(n));
        self.lemma_children(n);
    }

    /// The parent of a non-root node covers a strictly larger range.
    pub(crate) proof fn lemma_parent_bigger(&self, n: usize)
        requires
            self.shape_ok(),
            self.linked(n),
            n != self.root,
        ensures
            self.linked(self.lk(n).parent),
            self.hi@[n] - self.lo@[n] < self.hi@[self.lk(n).parent] - self.lo@[self.lk(
                n,
            ).parent] <= self.order@.len(),
            0 < self.hi@[n] - self.lo@[n],
    {
        self.lemma_children(n);
        self.lemma_children(self.lk(n).parent);
    }

    /// The number of edges on the path from the root down to node `n`.
    pub closed spec fn depth(&self, n: usize) -> nat {
        self.depth_of(n)
    }

    pub(crate) open spec fn depth_of(&self, n: usize) -> nat
        decreases self.order@.len() - (self.hi@[n] - self.lo@[n]),
        when self.shape_ok() && self.linked(n)
    {
        if n == self.root {
            0
        } else {
            proof {
                self.lemma_parent_bigger(n);
            }
            1 + self.depth_of(self.lk(n).parent)
        }
    }

    /// A subtree of black height `b` holds at least `2^(b-1) - 1` nodes.
    pub(crate) proof fn lemma_size_black_height(&self, n: usize)
        requires
            self.wf(),
            self.linked(n),
        ensures
            self.bh@[n] >= 1,
            pow2((self.bh@[n] - 1) as nat) <= self.hi@[n] - self.lo@[n] + 1,
        decreases self.hi@[n] - self.lo@[n],
    {
        self.lemma_children(n);
        assert(self.node_rb(n));
        let l = self.lk(n).left;
        let r = self.lk(n).right;
        let b = self.bh@[n];
        let sl = if l == self.nil {
            0
        } else {
            self.hi@[l] - self.lo@[l]
        };
        let sr = if r == self.nil {
            0
        } else {
            self.hi@[r] - self.lo@[r]
        };
        assert(self.hi@[n] - self.lo@[n] == sl + sr + 1);
        if l != self.nil {
            self.lemma_size_black_height(l);
        }
        if r != self.nil {
            self.lemma_size_black_height(r);
        }
        // Both children have black height `c`, and pow2(c - 1) <= size + 1.
        let c = self.bhv(l);
        assert(c >= 1);
        assert(pow2((c - 1) as nat) <= sl + 1) by {
            if l == self.nil {
                assert(pow2(0) == 1) by {
                    vstd::arithmetic::power2::lemma_pow2(0);
                    vstd::arithmetic::power::lemma_pow0(2);
                }
            }
        }
        assert(pow2((c - 1) as nat) <= sr + 1) by {
            if r == self.nil {
                assert(pow2(0) == 1) by {
                    vstd::arithmetic::power2::lemma_pow2(0);
                    vstd::arithmetic::power::lemma_pow0(2);
                }
            }
        }
        if self.is_black(n) {
            lemma_pow2_unfold(c as nat);
            assert(b - 1 == c);
        } else {
            assert(b - 1 == c - 1);
        }
    }

    /// Along the path from the root, every black node below adds one to
    /// the depth budget `2 * (bh(root) - bh(n))`, and red nodes never follow
    /// each other.
    pub(crate) proof fn lemma_depth_black(&self, n: usize)
        requires
            self.wf(),
            self.linked(n),
        ensures
            self.depth(n) + 2 * self.bh@[n] + (if self.is_red(n) {
                1int
            } else {
                0int
            }) <= 2 * self.bh@[self.root],
        decreases self.order@.len() - (self.hi@[n] - self.lo@[n]),
    {
        self.lemma_children(n);
        if n == self.root {
        } else {
            let p = self.lk(n).parent;
            self.lemma_parent_bigger(n);
            self.lemma_depth_black(p);
            assert(self.depth_of(n) == 1 + self.depth_of(p));
            assert(self.node_rb(p));
            self.lemma_children(p);
            if self.is_red(n) {
                assert(self.is_black(p));
            }
        }
    }

    /// Removing a node and linking it again undo each other: when `mid` is
    /// `before` with the node at index `i` removed (as `delete` and
    /// `delete_min` leave it), and `after` is `mid` with that node linked
    /// again (as a successful `insert` leaves it), with the keys unchanged
    /// throughout, then `after` lists the same nodes in the same order as
    /// `before`.
    pub proof fn lemma_remove_then_insert(before: &Self, mid: &Self, after: &Self, i: int, g: int)
        requires
            before.wf(),
            after.wf(),
            0 <= i < before@.len(),
            mid@ == before@.remove(i),
            0 <= g <= mid@.len(),
            after@ == mid@.insert(g, before@[i]),
            forall|n: usize| #[trigger] after.key_at(n) == before.key_at(n),
        ensures
            after@ == before@,
    {
        let z = before@[i];
        before.lemma_inorder_sorted();
        after.lemma_inorder_sorted();
        if g < i {
            let w = before@[g];
            assert(after@[g] == z);
            assert(after@[g + 1] == w);
            assert(seq_lt(after.key_of(z), after.key_of(w)));
            assert(seq_lt(before.key_of(w), before.key_of(z)));
            assert(after.key_of(z) == before.key_of(z));
            assert(after.key_of(w) == before.key_of(w));
            lemma_seq_lt_transitive(before.key_of(z), before.key_of(w), before.key_of(z));
            lemma_seq_lt_irreflexive(before.key_of(z));
        } else if g > i {
            let w = before@[g];
            assert(after@[g - 1] == w);
            assert(after@[g] == z);
            assert(seq_lt(after.key_of(w), after.key_of(z)));
            assert(seq_lt(before.key_of(z), before.key_of(w)));
            assert(after.key_of(z) == before.key_of(z));
            assert(after.key_of(w) == before.key_of(w));
            lemma_seq_lt_transitive(before.key_of(z), before.key_of(w), before.key_of(z));
            lemma_seq_lt_irreflexive(before.key_of(z));
        }
        assert(after@ =~= before@);
    }

    /// Linking a node and removing it again undo each other: when `mid` is
    /// `before` with `node` linked at index `g` (as a successful `insert`
    /// leaves it), and `after` is `mid` with `node` removed (as `delete` leaves
    /// it), then `after` lists the same nodes in the same order as `before`.
    pub proof fn lemma_insert_then_remove(before: &Self, mid: &Self, after: &Self, node: usize, g: int, j: int)
        requires
            mid.wf(),
            0 <= g <= before@.len(),
            mid@ == before@.insert(g, node),
            0 <= j < mid@.len(),
            mid@[j] == node,
            after@ == mid@.remove(j),
        ensures
            after@ == before@,
    {
        mid.lemma_inorder_sorted();
        assert(mid@[g] == node);
        assert(j == g);
        assert(after@ =~= before@);
    }

    /// The nodes of the subtree rooted at `n`, in ascending key order (empty
    /// for the sentinel and for a slot that is not linked).
    pub closed spec fn subtree(&self, n: usize) -> Seq<usize> {
        if n != self.nil && self.linked(n) {
            self.order@.subrange(self.lo@[n], self.hi@[n])
        } else {
            Seq::empty()
        }
    }

    /// The node reached from `n` by following left children `k` times.
    pub open spec fn left_descent(&self, n: usize, k: nat) -> usize
        decreases k,
    {
        if k == 0 {
            n
        } else {
            self.left_descent(self.child_of(n, 0), (k - 1) as nat)
        }
    }

    /// The view is the in-order traversal of the links: the subtree of the
    /// root lists exactly `self@`, the sentinel's subtree is empty, and the
    /// subtree of every linked node is its left subtree, then the node, then
    /// its right subtree. So every node of the left (right) subtree of `n`
    /// comes before (after) `n` in `self@` and holds a smaller (larger) key.
    pub proof fn lemma_inorder_links(&self)
        requires
            self.wf(),
        ensures
            self.subtree(self.nil_spec()) == Seq::<usize>::empty(),
            self.subtree(self.root_spec()) == self@,
            forall|n: usize|
                self@.contains(n) ==> #[trigger] self.subtree(n) == self.subtree(
                    self.child_of(n, 0),
                ) + seq![n] + self.subtree(self.child_of(n, 1)),
    {
        if self.order@.len() > 0 {
            assert(self.linked(self.root));
            self.lemma_children(self.root);
            assert(self.subtree(self.root) =~= self.order@);
        } else {
            assert(self.subtree(self.root) =~= self.order@);
        }
        assert forall|n: usize| self@.contains(n) implies #[trigger] self.subtree(n)
            == self.subtree(self.child_of(n, 0)) + seq![n] + self.subtree(self.child_of(n, 1)) by {
            self.lemma_view_linked(n);
            self.lemma_children(n);
            let l = self.lk(n).left;
            let r = self.lk(n).right;
            let p = self.pos@[n];
            assert(self.subtree(l) =~= self.order@.subrange(self.lo@[n], p));
            assert(self.subtree(r) =~= self.order@.subrange(p + 1, self.hi@[n]));
            assert(self.subtree(n) =~= self.order@.subrange(self.lo@[n], p) + seq![n]
                + self.order@.subrange(p + 1, self.hi@[n]));
        }
    }

    /// The first node of the subtree of a linked node `n` has no left child
    /// and is reached from `n` by following left children.
    pub proof fn lemma_subtree_leftmost(&self, n: usize)
        requires
            self.wf(),
            self@.contains(n),
        ensures
            self.subtree(n).len() > 0,
            self.child_of(self.subtree(n)[0], 0) == self.nil_spec(),
            exists|k: nat| #[trigger] self.left_descent(n, k) == self.subtree(n)[0],
        decreases self.subtree(n).len(),
    {
        self.lemma_view_linked(n);
        self.lemma_children(n);
        let l = self.lk(n).left;
        if l == self.nil {
            assert(self.subtree(n)[0] == n);
            assert(self.left_descent(n, 0) == n);
        } else {
            self.lemma_view_linked(l);
            self.lemma_children(l);
            assert(self.subtree(l).len() < self.subtree(n).len());
            self.lemma_subtree_leftmost(l);
            let k = choose|k: nat| #[trigger] self.left_descent(l, k) == self.subtree(l)[0];
            assert(self.subtree(l)[0] == self.subtree(n)[0]);
            assert(self.left_descent(n, k + 1) == self.left_descent(l, k));
        }
    }

    /// The minimum is the leftmost node: in a non-empty tree, the first node
    /// of `self@` (the cached minimum) has no left child and is reached from
    /// the root by following left children.
    pub proof fn lemma_min_leftmost(&self)
        requires
            self.wf(),
            self@.len() > 0,
        ensures
            self.child_of(self@[0], 0) == self.nil_spec(),
            exists|k: nat| #[trigger] self.left_descent(self.root_spec(), k) == self@[0],
    {
        self.lemma_inorder_links();
        self.lemma_tree_links();
        self.lemma_subtree_leftmost(self.root_spec());
    }

    /// A chain of pops from the front: `trees[i + 1]@` is `trees[i]@` without
    /// its first node `popped[i]`, as `delete_min` leaves it.
    pub open spec fn pop_chain(trees: Seq<Self>, popped: Seq<usize>) -> bool {
        &&& trees.len() == popped.len() + 1
        &&& forall|i: int|
            0 <= i < popped.len() ==> {
                &&& (#[trigger] trees[i])@.len() > 0
                &&& popped[i] == trees[i]@[0]
                &&& trees[i + 1]@ == trees[i]@.remove(0)
            }
    }

    proof fn lemma_pop_chain_suffix(trees: Seq<Self>, popped: Seq<usize>, i: int)
        requires
            Self::pop_chain(trees, popped),
            0 <= i <= popped.len(),
        ensures
            i <= trees[0]@.len(),
            trees[i]@ == trees[0]@.skip(i),
        decreases i,
    {
        if i > 0 {
            Self::lemma_pop_chain_suffix(trees, popped, i - 1);
            assert(trees[i - 1]@.len() > 0);
            assert(trees[i]@ =~= trees[0]@.skip(i));
        } else {
            assert(trees[0]@ =~= trees[0]@.skip(0));
        }
    }

    /// Repeated `delete_min` yields the nodes in ascending key order: along a
    /// chain of pops starting at a well-formed tree, the popped nodes are the
    /// first nodes of the starting view in order, their keys strictly
    /// ascend, and what is left is the rest of the view (nothing, once as
    /// many nodes were popped as the tree held).
    pub proof fn lemma_pops_ascend(trees: Seq<Self>, popped: Seq<usize>)
        requires
            trees.len() > 0,
            trees[0].wf(),
            Self::pop_chain(trees, popped),
        ensures
            popped.len() <= trees[0]@.len(),
            popped == trees[0]@.take(popped.len() as int),
            forall|i: int, j: int|
                0 <= i < j < popped.len() ==> seq_lt(
                    #[trigger] trees[0].key_of(popped[i]),
                    #[trigger] trees[0].key_of(popped[j]),
                ),
            trees.last()@ == trees[0]@.skip(popped.len() as int),
            popped.len() == trees[0]@.len() ==> trees.last()@.len() == 0,
    {
        let m = popped.len() as int;
        Self::lemma_pop_chain_suffix(trees, popped, m);
        assert forall|i: int| 0 <= i < m implies popped[i] == trees[0]@[i] by {
            Self::lemma_pop_chain_suffix(trees, popped, i);
            assert(trees[i]@.len() > 0);
        }
        if m > 0 {
            Self::lemma_pop_chain_suffix(trees, popped, m - 1);
            assert(trees[m - 1]@.len() > 0);
        }
        assert(popped =~= trees[0]@.take(m));
        trees[0].lemma_inorder_sorted();
        assert forall|i: int, j: int| 0 <= i < j < popped.len() implies seq_lt(
            #[trigger] trees[0].key_of(popped[i]),
            #[trigger] trees[0].key_of(popped[j]),
        ) by {
            assert(popped[i] == trees[0]@[i]);
            assert(popped[j] == trees[0]@[j]);
        }
    }

    /// A chain of removals: `trees[i + 1]@` is `trees[i]@` without the node
    /// `removed[i]`, as `delete` leaves it when it returns that node.
    pub open spec fn removal_chain(trees: Seq<Self>, removed: Seq<usize>) -> bool {
        &&& trees.len() == removed.len() + 1
        &&& forall|i: int|
            0 <= i < removed.len() ==> exists|j: int|
                0 <= j < (#[trigger] trees[i])@.len() && trees[i]@[j] == removed[i]
                    && trees[i + 1]@ == trees[i]@.remove(j)
    }

    proof fn lemma_removal_chain_len(trees: Seq<Self>, removed: Seq<usize>, i: int)
        requires
            Self::removal_chain(trees, removed),
            0 <= i <= removed.len(),
        ensures
            trees[i]@.len() + i == trees[0]@.len(),
            forall|n: usize| trees[i]@.contains(n) ==> trees[0]@.contains(n),
        decreases i,
    {
        if i > 0 {
            Self::lemma_removal_chain_len(trees, removed, i - 1);
            let t = trees[i - 1];
            let j = choose|j: int|
                0 <= j < t@.len() && t@[j] == removed[i - 1] && trees[i]@ == t@.remove(j);
            assert forall|n: usize| trees[i]@.contains(n) implies trees[0]@.contains(n) by {
                let k = choose|k: int| 0 <= k < trees[i]@.len() && trees[i]@[k] == n;
                if k < j {
                    assert(t@[k] == n);
                } else {
                    assert(t@[k + 1] == n);
                }
            }
        }
    }

    /// Deleting nodes one by one: along a chain of removals, every removed
    /// node was in the starting view, and once as many nodes were removed as
    /// the starting tree held, the last tree is empty; when it is well formed
    /// its root is then the sentinel.
    pub proof fn lemma_removals_empty(trees: Seq<Self>, removed: Seq<usize>)
        requires
            Self::removal_chain(trees, removed),
        ensures
            trees.last()@.len() + removed.len() == trees[0]@.len(),
            forall|i: int| 0 <= i < removed.len() ==> trees[0]@.contains(#[trigger] removed[i]),
            removed.len() == trees[0]@.len() ==> trees.last()@.len() == 0,
            removed.len() == trees[0]@.len() && trees.last().wf() ==> trees.last().root_spec()
                == trees.last().nil_spec(),
    {
        let m = removed.len() as int;
        Self::lemma_removal_chain_len(trees, removed, m);
        assert forall|i: int| 0 <= i < removed.len() implies trees[0]@.contains(
            #[trigger] removed[i],
        ) by {
            Self::lemma_removal_chain_len(trees, removed, i);
            let t = trees[i];
            let j = choose|j: int|
                0 <= j < t@.len() && t@[j] == removed[i] && trees[i + 1]@ == t@.remove(j);
            assert(t@.contains(removed[i]));
        }
        if removed.len() == trees[0]@.len() && trees.last().wf() {
            trees.last().lemma_tree_links();
        }
    }

    /// Balance: the path from the root to any node has at most
    /// `2 * log2(n + 1)` edges, where `n` is the number of linked nodes.
    /// `depth` counts the edges up the parent links to the root.
    pub proof fn lemma_height_bound(&self, n: usize)
        requires
            self.wf(),
            self@.contains(n),
        ensures
            n == self.root_spec() ==> self.depth(n) == 0,
            n != self.root_spec() ==> self@.contains(self.parent_of(n)) && self.depth(n) == 1
                + self.depth(self.parent_of(n)),
            pow2(self.depth(n) / 2) <= self@.len() + 1,
    {
        self.lemma_view_linked(n);
        self.lemma_children(n);
        if n != self.root {
            self.lemma_parent_bigger(n);
            self.lemma_view_linked(self.lk(n).parent);
        }
        assert(self.order@.len() > 0);
        assert(self.linked(self.root));
        self.lemma_depth_black(n);
        self.lemma_size_black_height(self.root);
        assert(self.node_rb(n));
        let b = self.bh@[self.root];
        assert(self.depth(n) / 2 <= b - 1);
        if self.depth(n) / 2 < b - 1 {
            lemma_pow2_strictly_increases(self.depth(n) / 2, (b - 1) as nat);
        }
    }
}

/// In a tree with `i32` keys the nodes of the view hold strictly increasing
/// values: iteration ascends by value and the first node (the one
/// `delete_min` pops) holds the smallest value.
pub proof fn lemma_i32_tree_ascends(t: &RBTree<i32>)
    requires
        t.wf(),
    ensures
        forall|i: int, j: int|
            0 <= i < j < t@.len() ==> #[trigger] t.key_at(t@[i]) < #[trigger] t.key_at(t@[j]),
{
    t.lemma_inorder_sorted();
    assert forall|i: int, j: int| 0 <= i < j < t@.len() implies #[trigger] t.key_at(t@[i])
        < #[trigger] t.key_at(t@[j]) by {
        assert(seq_lt(t.key_of(t@[i]), t.key_of(t@[j])));
        lemma_i32_key_order(t.key_at(t@[i]), t.key_at(t@[j]));
    }
}

/// In a tree with `i64` keys the nodes of the view hold strictly increasing
/// values: iteration ascends by value and the first node (the one
/// `delete_min` pops) holds the smallest value.
pub proof fn lemma_i64_tree_ascends(t: &RBTree<i64>)
    requires
        t.wf(),
    ensures
        forall|i: int, j: int|
            0 <= i < j < t@.len() ==> #[trigger] t.key_at(t@[i]) < #[trigger] t.key_at(t@[j]),
{
    t.lemma_inorder_sorted();
    assert forall|i: int, j: int| 0 <= i < j < t@.len() implies #[trigger] t.key_at(t@[i])
        < #[trigger] t.key_at(t@[j]) by {
        assert(seq_lt(t.key_of(t@[i]), t.key_of(t@[j])));
        lemma_i64_key_order(t.key_at(t@[i]), t.key_at(t@[j]));
    }
}

/// In a tree with `u32` keys the nodes of the view hold strictly increasing
/// values: iteration ascends by value and the first node (the one
/// `delete_min` pops) holds the smallest value.
pub proof fn lemma_u32_tree_ascends(t: &RBTree<u32>)
    requires
        t.wf(),
    ensures
        forall|i: int, j: int|
            0 <= i < j < t@.len() ==> #[trigger] t.key_at(t@[i]) < #[trigger] t.key_at(t@[j]),
{
    t.lemma_inorder_sorted();
    assert forall|i: int, j: int| 0 <= i < j < t@.len() implies #[trigger] t.key_at(t@[i])
        < #[trigger] t.key_at(t@[j]) by {
        assert(seq_lt(t.key_of(t@[i]), t.key_of(t@[j])));
        lemma_u32_key_order(t.key_at(t@[i]), t.key_at(t@[j]));
    }
}

/// In a tree with `u64` keys the nodes of the view hold strictly increasing
/// values: iteration ascends by value and the first node (the one
/// `delete_min` pops) holds the smallest value.
pub proof fn lemma_u64_tree_ascends(t: &RBTree<u64>)
    requires
        t.wf(),
    ensures
        forall|i: int, j: int|
            0 <= i < j < t@.len() ==> #[trigger] t.key_at(t@[i]) < #[trigger] t.key_at(t@[j]),
{
    t.lemma_inorder_sorted();
    assert forall|i: int, j: int| 0 <= i < j < t@.len() implies #[trigger] t.key_at(t@[i])
        < #[trigger] t.key_at(t@[j]) by {
        assert(seq_lt(t.key_of(t@[i]), t.key_of(t@[j])));
        lemma_u64_key_order(t.key_at(t@[i]), t.key_at(t@[j]));
    }
}

/// In a tree with `usize` keys the nodes of the view hold strictly increasing
/// values: iteration ascends by value and the first node (the one
/// `delete_min` pops) holds the smallest value.
pub proof fn lemma_usize_tree_ascends(t: &RBTree<usize>)
    requires
        t.wf(),
    ensures
        forall|i: int, j: int|
            0 <= i < j < t@.len() ==> #[trigger] t.key_at(t@[i]) < #[trigger] t.key_at(t@[j]),
{
    t.lemma_inorder_sorted();
    assert forall|i: int, j: int| 0 <= i < j < t@.len() implies #[trigger] t.key_at(t@[i])
        < #[trigger] t.key_at(t@[j]) by {
        assert(seq_lt(t.key_of(t@[i]), t.key_of(t@[j])));
        lemma_usize_key_order(t.key_at(t@[i]), t.key_at(t@[j]));
    }
}

/// In a tree with `String` keys no two nodes of the view hold equal strings.
pub proof fn lemma_string_tree_distinct(t: &RBTree<String>)
    requires
        t.wf(),
    ensures
        forall|i: int, j: int|
            0 <= i < t@.len() && 0 <= j < t@.len() && i != j ==> #[trigger] t.key_at(t@[i])@
                != #[trigger] t.key_at(t@[j])@,
{
    t.lemma_inorder_sorted();
    assert forall|i: int, j: int|
        0 <= i < t@.len() && 0 <= j < t@.len() && i != j implies #[trigger] t.key_at(t@[i])@
            != #[trigger] t.key_at(t@[j])@ by {
        assert(t.key_of(t@[i]) != t.key_of(t@[j]));
        lemma_string_views_equal(t.key_at(t@[i])@, t.key_at(t@[j])@);
    }
}

} // verus!
