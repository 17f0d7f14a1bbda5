//! A red-black tree whose nodes live in an arena of slots.
//!
//! A node is identified by its slot index. Slot indices play the part of node
//! pointers: a node is created once, can be linked into the tree by `insert`,
//! unlinked by `delete` or `delete_min`, and linked again later. The slot of the
//! sentinel (`nil`) stands for every leaf and for the parent of the root.
use vstd::prelude::*;
use crate::color::Color;
use crate::rb_node::RBNode;
use crate::key::{
    lemma_compare_views, lemma_seq_lt_irreflexive, lemma_seq_lt_total, seq_lt, KeyOrder,
    KeyQuery, TreeKey,
};

mod delete_fix;
mod insert;
mod laws;
mod remove;
mod rotate;
mod traversal;
mod unlink;

verus! {

/// The linkage of one node: its color, its parent and its two children.
#[derive(Clone, Copy)]
pub(crate) struct Link {
    pub(crate) color: Color,
    pub(crate) parent: usize,
    pub(crate) left: usize,
    pub(crate) right: usize,
}

impl Link {
    /// The child in direction `dir` (`0` is left, `1` is right).
    pub(crate) open spec fn child(self, dir: int) -> usize {
        if dir == 0 {
            self.left
        } else {
            self.right
        }
    }

    /// The same linkage with the child in direction `dir` replaced by `c`.
    pub(crate) open spec fn with_child(self, dir: int, c: usize) -> Link {
        if dir == 0 {
            Link { left: c, ..self }
        } else {
            Link { right: c, ..self }
        }
    }
}

/// A red-black tree over the nodes of its own arena.
///
/// Besides the executable fields, the tree carries a ghost description of its
/// shape: `order` lists the linked nodes in ascending key order; for a linked
/// node `n`, `pos[n]` is its index in `order`, `[lo[n], hi[n])` is the range of
/// `order` that its subtree covers, and `bh[n]` is its black height (the number
/// of black nodes on any path from `n` down to a leaf, both ends included).
pub struct RBTree<K: TreeKey> {
    pub(crate) keys: Vec<K>,
    pub(crate) links: Vec<Link>,
    pub(crate) root: usize,
    pub(crate) nil: usize,
    pub(crate) minimum: usize,
    pub(crate) order: Ghost<Seq<usize>>,
    pub(crate) pos: Ghost<Map<usize, int>>,
    pub(crate) lo: Ghost<Map<usize, int>>,
    pub(crate) hi: Ghost<Map<usize, int>>,
    pub(crate) bh: Ghost<Map<usize, int>>,
}

impl<K: TreeKey> View for RBTree<K> {
    /// The linked nodes in ascending key order.
    type V = Seq<usize>;

    closed spec fn view(&self) -> Seq<usize> {
        self.order@
    }
}

impl<K: TreeKey> RBTree<K> {
    // ------------------------------------------------------------------
    // Public model
    // ------------------------------------------------------------------
    /// Number of node slots (the sentinel included).
    pub closed spec fn slot_count(&self) -> nat {
        self.links@.len()
    }

    /// The sentinel slot.
    pub closed spec fn nil_spec(&self) -> usize {
        self.nil
    }

    /// The root node (the sentinel when the tree is empty).
    pub closed spec fn root_spec(&self) -> usize {
        self.root
    }

    /// The key stored in slot `n`.
    pub closed spec fn key_at(&self, n: usize) -> K {
        self.keys@[n as int]
    }

    /// The ordering view of the key stored in slot `n`.
    pub open spec fn key_of(&self, n: usize) -> Seq<int> {
        self.key_at(n).key_view()
    }

    /// The color of slot `n`.
    pub closed spec fn color_of(&self, n: usize) -> Color {
        self.links@[n as int].color
    }

    /// The parent of slot `n`.
    pub closed spec fn parent_of(&self, n: usize) -> usize {
        self.links@[n as int].parent
    }

    /// The child of slot `n` in direction `dir` (`0` is left, `1` is right).
    pub closed spec fn child_of(&self, n: usize, dir: int) -> usize {
        self.links@[n as int].child(dir)
    }

    /// Slot `i` has the same color, parent and children in both trees.
    pub open spec fn slot_unchanged(&self, other: Self, i: usize) -> bool {
        &&& self.color_of(i) == other.color_of(i)
        &&& self.parent_of(i) == other.parent_of(i)
        &&& self.child_of(i, 0) == other.child_of(i, 0)
        &&& self.child_of(i, 1) == other.child_of(i, 1)
    }

    /// Slot `n` holds a key and a link.
    pub closed spec fn valid_slot(&self, n: usize) -> bool {
        n < self.links@.len() && n < self.keys@.len()
    }

    /// The black height of a node of the tree: the number of black nodes on
    /// every path from it down to a leaf, both ends included (`1` for `nil`).
    pub closed spec fn black_height(&self, n: usize) -> int {
        self.bhv(n)
    }

    /// The tree is well formed: a binary search tree over `self@` whose nodes
    /// satisfy the red-black rules, with the cached minimum up to date.
    pub closed spec fn wf(&self) -> bool {
        &&& self.shape_ok()
        &&& self.min_ok()
        &&& self.rb_ok()
    }

    // ------------------------------------------------------------------
    // Internal model
    // ------------------------------------------------------------------
    pub(crate) open spec fn lk(&self, n: usize) -> Link {
        self.links@[n as int]
    }

    pub(crate) open spec fn linked(&self, n: usize) -> bool {
        self.pos@.dom().contains(n)
    }

    pub(crate) open spec fn kv(&self, n: usize) -> Seq<int> {
        self.keys@[n as int].key_view()
    }

    pub(crate) open spec fn is_black(&self, n: usize) -> bool {
        self.lk(n).color == Color::BLACK
    }

    pub(crate) open spec fn is_red(&self, n: usize) -> bool {
        self.lk(n).color == Color::RED
    }

    pub(crate) open spec fn bw(&self, n: usize) -> int {
        if self.is_black(n) {
            1
        } else {
            0
        }
    }

    pub(crate) open spec fn bhv(&self, n: usize) -> int {
        if n == self.nil {
            1
        } else {
            self.bh@[n]
        }
    }

    /// Local shape of a linked node: its place in `order`, the ranges of its
    /// children, and the link back from its parent.
    pub(crate) open spec fn node_shape(&self, n: usize) -> bool {
        let l = self.lk(n);
        &&& n != self.nil
        &&& n < self.links@.len()
        &&& 0 <= self.pos@[n] < self.order@.len()
        &&& self.order@[self.pos@[n]] == n
        &&& 0 <= self.lo@[n] <= self.pos@[n] < self.hi@[n] <= self.order@.len()
        &&& (l.left == self.nil ==> self.lo@[n] == self.pos@[n])
        &&& (l.left != self.nil ==> {
            &&& self.linked(l.left)
            &&& self.lk(l.left).parent == n
            &&& self.lo@[l.left] == self.lo@[n]
            &&& self.hi@[l.left] == self.pos@[n]
        })
        &&& (l.right == self.nil ==> self.pos@[n] + 1 == self.hi@[n])
        &&& (l.right != self.nil ==> {
            &&& self.linked(l.right)
            &&& self.lk(l.right).parent == n
            &&& self.lo@[l.right] == self.pos@[n] + 1
            &&& self.hi@[l.right] == self.hi@[n]
        })
        &&& (n != self.root ==> {
            &&& self.linked(l.parent)
            &&& (self.lk(l.parent).left == n || self.lk(l.parent).right == n)
        })
    }

    pub(crate) open spec fn links_in_range(&self) -> bool {
        forall|i: int|
            0 <= i < self.links@.len() ==> {
                &&& (#[trigger] self.links@[i]).parent < self.links@.len()
                &&& self.links@[i].left < self.links@.len()
                &&& self.links@[i].right < self.links@.len()
            }
    }

    pub(crate) open spec fn order_ok(&self) -> bool {
        forall|i: int|
            0 <= i < self.order@.len() ==> self.linked(#[trigger] self.order@[i]) && self.pos@[
                self.order@[i]
            ] == i
    }

    pub(crate) open spec fn all_shaped(&self) -> bool {
        forall|n: usize| self.linked(n) ==> #[trigger] self.node_shape(n)
    }

    pub(crate) open spec fn root_ok(&self) -> bool {
        if self.order@.len() == 0 {
            self.root == self.nil
        } else {
            &&& self.linked(self.root)
            &&& self.lo@[self.root] == 0
            &&& self.hi@[self.root] == self.order@.len()
            &&& self.lk(self.root).parent == self.nil
        }
    }

    pub(crate) open spec fn sorted(&self) -> bool {
        forall|i: int, j: int|
            0 <= i < j < self.order@.len() ==> seq_lt(
                #[trigger] self.kv(self.order@[i]),
                #[trigger] self.kv(self.order@[j]),
            )
    }

    /// Everything but colors and black heights.
    pub(crate) open spec fn shape_ok(&self) -> bool {
        &&& self.keys@.len() == self.links@.len()
        &&& self.nil < self.links@.len()
        &&& !self.linked(self.nil)
        &&& self.lk(self.nil).left == self.nil
        &&& self.lk(self.nil).right == self.nil
        &&& self.links_in_range()
        &&& self.order_ok()
        &&& self.all_shaped()
        &&& self.root_ok()
        &&& self.sorted()
    }

    pub(crate) open spec fn min_ok(&self) -> bool {
        self.minimum == if self.order@.len() == 0 {
            self.nil
        } else {
            self.order@[0]
        }
    }

    /// A red node has black children.
    pub(crate) open spec fn red_ok(&self, n: usize) -> bool {
        self.is_red(n) ==> self.is_black(self.lk(n).left) && self.is_black(self.lk(n).right)
    }

    /// The black height of `n` agrees with both of its children.
    pub(crate) open spec fn bh_ok(&self, n: usize) -> bool {
        &&& self.bh@[n] >= 1
        &&& self.bh@[n] == self.bhv(self.lk(n).left) + self.bw(n)
        &&& self.bh@[n] == self.bhv(self.lk(n).right) + self.bw(n)
    }

    pub(crate) open spec fn rb_ok(&self) -> bool {
        &&& self.is_black(self.nil)
        &&& self.is_black(self.root)
        &&& forall|n: usize| self.linked(n) ==> #[trigger] self.node_rb(n)
    }

    pub(crate) open spec fn node_rb(&self, n: usize) -> bool {
        self.red_ok(n) && self.bh_ok(n)
    }

    // ------------------------------------------------------------------
    // Basic facts
    // ------------------------------------------------------------------
    /// A linked node's children are linked or nil, and distinct from it.
    pub(crate) proof fn lemma_children(&self, n: usize)
        requires
            self.shape_ok(),
            self.linked(n),
        ensures
            self.node_shape(n),
            self.lk(n).left != n,
            self.lk(n).right != n,
            self.lk(n).left != self.nil ==> self.linked(self.lk(n).left) && self.hi@[self.lk(
                n,
            ).left] - self.lo@[self.lk(n).left] < self.hi@[n] - self.lo@[n],
            self.lk(n).right != self.nil ==> self.linked(self.lk(n).right) && self.hi@[self.lk(
                n,
            ).right] - self.lo@[self.lk(n).right] < self.hi@[n] - self.lo@[n],
            self.lk(n).left != self.nil || self.lk(n).right != self.nil ==> self.lk(n).left
                != self.lk(n).right,
    {
        assert(self.linked(n));
    }

    /// Every link of a slot points at a slot.
    pub(crate) proof fn lemma_in_range(&self, n: usize)
        requires
            self.links_in_range(),
            n < self.links@.len(),
        ensures
            self.lk(n).parent < self.links@.len(),
            self.lk(n).left < self.links@.len(),
            self.lk(n).right < self.links@.len(),
    {
        assert(self.links@[n as int].parent < self.links@.len());
    }

    /// The node at index `i` of the order holds the `i`-th key.
    pub(crate) proof fn lemma_at(&self, i: int)
        requires
            self.shape_ok(),
            0 <= i < self.order@.len(),
        ensures
            self.linked(self.order@[i]),
            self.pos@[self.order@[i]] == i,
            self.node_shape(self.order@[i]),
    {
        assert(self.linked(self.order@[i]));
    }

    /// Keys compare as their positions in the order do.
    pub(crate) proof fn lemma_sorted_at(&self, i: int, j: int)
        requires
            self.shape_ok(),
            0 <= i < self.order@.len(),
            0 <= j < self.order@.len(),
        ensures
            i < j ==> seq_lt(self.kv(self.order@[i]), self.kv(self.order@[j])),
            i < j ==> !seq_lt(self.kv(self.order@[j]), self.kv(self.order@[i])),
            i != j ==> self.kv(self.order@[i]) != self.kv(self.order@[j]),
            i != j ==> self.order@[i] != self.order@[j],
    {
        if i < j {
            assert(seq_lt(self.kv(self.order@[i]), self.kv(self.order@[j])));
            lemma_seq_lt_total(self.kv(self.order@[i]), self.kv(self.order@[j]));
        } else if j < i {
            assert(seq_lt(self.kv(self.order@[j]), self.kv(self.order@[i])));
            lemma_seq_lt_total(self.kv(self.order@[j]), self.kv(self.order@[i]));
        }
        self.lemma_at(i);
        self.lemma_at(j);
    }

    // ------------------------------------------------------------------
    // Construction and accessors
    // ------------------------------------------------------------------
    /// Constructs an empty tree whose sentinel (`nil`) node carries
    /// `sentinel_key`. The sentinel is black and is its own parent and children.
    pub fn new(sentinel_key: K) -> (t: RBTree<K>)
        ensures
            t.wf(),
            t@ == Seq::<usize>::empty(),
            t.slot_count() == 1,
            t.nil_spec() == 0,
            t.root_spec() == 0,
            t.key_at(0) == sentinel_key,
            t.color_of(0) == Color::BLACK,
            t.parent_of(0) == 0,
            t.child_of(0, 0) == 0,
            t.child_of(0, 1) == 0,
    {
        let mut keys: Vec<K> = Vec::new();
        keys.push(sentinel_key);
        let mut links: Vec<Link> = Vec::new();
        links.push(Link { color: Color::BLACK, parent: 0, left: 0, right: 0 });
        let t = RBTree {
            keys,
            links,
            root: 0,
            nil: 0,
            minimum: 0,
            order: Ghost(Seq::empty()),
            pos: Ghost(Map::empty()),
            lo: Ghost(Map::empty()),
            hi: Ghost(Map::empty()),
            bh: Ghost(Map::empty()),
        };
        assert(t.links@[0] == Link { color: Color::BLACK, parent: 0, left: 0, right: 0 });
        t
    }

    /// Creates a detached red node holding `key` and returns its slot. Its
    /// parent and children are the sentinel. The tree itself is unchanged.
    pub fn new_node(&mut self, key: K) -> (n: usize)
        requires
            old(self).wf(),
        ensures
            final(self).wf(),
            n == old(self).slot_count(),
            final(self).slot_count() == old(self).slot_count() + 1,
            final(self)@ == old(self)@,
            final(self).nil_spec() == old(self).nil_spec(),
            final(self).root_spec() == old(self).root_spec(),
            final(self).key_at(n) == key,
            final(self).color_of(n) == Color::RED,
            final(self).parent_of(n) == old(self).nil_spec(),
            final(self).child_of(n, 0) == old(self).nil_spec(),
            final(self).child_of(n, 1) == old(self).nil_spec(),
            forall|i: usize|
                i < old(self).slot_count() ==> {
                    &&& final(self).key_at(i) == old(self).key_at(i)
                    &&& final(self).color_of(i) == old(self).color_of(i)
                    &&& final(self).parent_of(i) == old(self).parent_of(i)
                    &&& final(self).child_of(i, 0) == old(self).child_of(i, 0)
                    &&& final(self).child_of(i, 1) == old(self).child_of(i, 1)
                },
    {
        let n = self.links.len();
        let nil = self.nil;
        self.keys.push(key);
        self.links.push(Link { color: Color::RED, parent: nil, left: nil, right: nil });
        proof {
            let t0 = *old(self);
            assert(!self.linked(n as usize)) by {
                if self.linked(n as usize) {
                    assert(t0.linked(n as usize));
                    assert(t0.node_shape(n as usize));
                }
            }
            assert forall|m: usize| self.linked(m) implies #[trigger] self.node_shape(m) by {
                assert(t0.node_shape(m));
                t0.lemma_children(m);
                if m != t0.root {
                    assert(t0.linked(t0.lk(m).parent));
                    assert(t0.node_shape(t0.lk(m).parent));
                }
            }
            assert forall|m: usize| self.linked(m) implies #[trigger] self.node_rb(m) by {
                assert(t0.node_rb(m));
                t0.lemma_children(m);
            }
            assert(self.links_in_range()) by {
                assert forall|i: int| 0 <= i < self.links@.len() implies {
                    &&& (#[trigger] self.links@[i]).parent < self.links@.len()
                    &&& self.links@[i].left < self.links@.len()
                    &&& self.links@[i].right < self.links@.len()
                } by {
                    if i < t0.links@.len() {
                        assert(self.links@[i] == t0.links@[i]);
                    }
                }
            }
            assert(self.sorted()) by {
                assert forall|i: int, j: int| 0 <= i < j < self.order@.len() implies seq_lt(
                    #[trigger] self.kv(self.order@[i]),
                    #[trigger] self.kv(self.order@[j]),
                ) by {
                    t0.lemma_at(i);
                    t0.lemma_at(j);
                    assert(seq_lt(t0.kv(t0.order@[i]), t0.kv(t0.order@[j])));
                }
            }
            if t0.order@.len() > 0 {
                t0.lemma_at(0);
                t0.lemma_children(t0.root);
            }
            assert(self.links@[t0.nil as int] == t0.links@[t0.nil as int]);
            assert(self.links@[t0.root as int] == t0.links@[t0.root as int]);
            assert(self.order_ok());
            assert(self.all_shaped());
            assert(self.root_ok());
            assert(self.shape_ok());
            assert(self.min_ok());
            assert(self.rb_ok());
        }
        n
    }

    /// Returns the sentinel `nil` node.
    pub fn nil_node(&self) -> (r: usize)
        ensures
            r == self.nil_spec(),
    {
        self.nil
    }

    /// Returns the root node (`nil` when the tree is empty).
    pub fn root_node(&self) -> (r: usize)
        ensures
            r == self.root_spec(),
    {
        self.root
    }

    /// Returns the cached minimum node (`nil` when the tree is empty).
    pub fn min_node(&self) -> (r: usize)
        requires
            self.wf(),
        ensures
            r == if self@.len() == 0 {
                self.nil_spec()
            } else {
                self@[0]
            },
    {
        self.minimum
    }

    // ------------------------------------------------------------------
    // Lookup
    // ------------------------------------------------------------------
    /// Searches for the node whose key equals `key`.
    pub fn search<Q: KeyQuery<K> + ?Sized>(&self, key: &Q) -> (r: Option<usize>)
        requires
            self.wf(),
        ensures
            match r {
                Some(n) => self@.contains(n) && self.key_of(n) == key.query_view(),
                None => forall|i: int|
                    0 <= i < self@.len() ==> self.key_of(#[trigger] self@[i]) != key.query_view(),
            },
    {
        let mut current = self.root;
        proof {
            if self.order@.len() > 0 {
                assert(self.linked(self.root));
            }
        }
        while current != self.nil
            invariant
                self.wf(),
                current == self.nil || self.linked(current),
                forall|i: int|
                    0 <= i < self.order@.len() && #[trigger] self.kv(self.order@[i])
                        == key.query_view() ==> current != self.nil && self.lo@[current] <= i
                        < self.hi@[current],
            decreases
                if current == self.nil {
                    0
                } else {
                    self.hi@[current] - self.lo@[current]
                },
        {
            proof {
                self.lemma_children(current);
            }
            let c = key.compare_key(&self.keys[current]);
            proof {
                lemma_compare_views(key.query_view(), self.kv(current));
            }
            match c {
                KeyOrder::Equal => {
                    proof {
                        assert(self.order@[self.pos@[current]] == current);
                    }
                    return Some(current);
                },
                KeyOrder::Less => {
                    proof {
                        let p = self.pos@[current];
                        assert forall|i: int|
                            0 <= i < self.order@.len() && #[trigger] self.kv(self.order@[i])
                                == key.query_view() implies i < p by {
                            self.lemma_sorted_at(p, i);
                            lemma_seq_lt_irreflexive(key.query_view());
                        }
                    }
                    current = self.links[current].left;
                },
                KeyOrder::Greater => {
                    proof {
                        let p = self.pos@[current];
                        assert forall|i: int|
                            0 <= i < self.order@.len() && #[trigger] self.kv(self.order@[i])
                                == key.query_view() implies i > p by {
                            self.lemma_sorted_at(i, p);
                            lemma_seq_lt_irreflexive(key.query_view());
                        }
                    }
                    current = self.links[current].right;
                },
            }
        }
        proof {
            assert forall|i: int| 0 <= i < self@.len() implies self.key_of(#[trigger] self@[i])
                != key.query_view() by {
                assert(self.kv(self.order@[i]) == self.key_of(self@[i]));
            }
        }
        None
    }

    /// Checks whether a node with the given key is linked in the tree.
    pub fn exist<Q: KeyQuery<K> + ?Sized>(&self, key: &Q) -> (r: bool)
        requires
            self.wf(),
        ensures
            r == exists|i: int| 0 <= i < self@.len() && self.key_of(#[trigger] self@[i]) == key.query_view(),
    {
        let r = self.search(key);
        proof {
            if let Some(n) = r {
                let i = choose|i: int| 0 <= i < self@.len() && self@[i] == n;
                assert(self.key_of(self@[i]) == key.query_view());
            }
        }
        r.is_some()
    }

}

impl<K: TreeKey> RBNode for RBTree<K> {
    type Key = K;

    open spec fn has_node(&self, node: usize) -> bool {
        self.valid_slot(node)
    }

    fn get_parent(&self, node: usize) -> (r: usize)
        ensures
            r == self.parent_of(node),
    {
        self.links[node].parent
    }

    fn get_color(&self, node: usize) -> (r: Color)
        ensures
            r == self.color_of(node),
    {
        self.links[node].color
    }

    fn get_child(&self, node: usize, dir: usize) -> (r: usize)
        ensures
            r == self.child_of(node, dir as int),
    {
        self.child(node, dir)
    }

    fn get_key(&self, node: usize) -> (r: &K)
        ensures
            *r == self.key_at(node),
    {
        &self.keys[node]
    }
}

} // verus!
