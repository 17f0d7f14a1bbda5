//! Unlinking a node: splicing out a node with an empty child slot, or replacing
//! a node with two children by its successor.
use vstd::prelude::*;
use super::{Link, RBTree};
use crate::color::Color;
use crate::key::{seq_lt, TreeKey};

verus! {

impl<K: TreeKey> RBTree<K> {
    /// The links after the subtree at `u` is replaced by the one at `v`.
    pub(crate) open spec fn transplant_links(&self, u: usize, v: usize) -> Seq<Link> {
        let p = self.lk(u).parent;
        let mid = if p == self.nil {
            self.links@
        } else {
            self.links@.update(
                p as int,
                self.lk(p).with_child(
                    if self.lk(p).right == u {
                        1
                    } else {
                        0
                    },
                    v,
                ),
            )
        };
        mid.update(v as int, Link { parent: p, ..mid[v as int] })
    }

    /// Replaces the subtree rooted at node `u` with the subtree rooted at `v`.
    pub(crate) fn rb_transplant(&mut self, u: usize, v: usize)
        requires
            u < old(self).links@.len(),
            v < old(self).links@.len(),
            old(self).lk(u).parent < old(self).links@.len(),
        ensures
            final(self).links@ == old(self).transplant_links(u, v),
            final(self).root == (if old(self).lk(u).parent == old(self).nil {
                v
            } else {
                old(self).root
            }),
            final(self).keys == old(self).keys,
            final(self).nil == old(self).nil,
            final(self).minimum == old(self).minimum,
            final(self).order == old(self).order,
            final(self).pos == old(self).pos,
            final(self).lo == old(self).lo,
            final(self).hi == old(self).hi,
            final(self).bh == old(self).bh,
    {
        let u_parent = self.links[u].parent;
        if u_parent == self.nil {
            self.root = v;
        } else {
            let dir: usize = if self.links[u_parent].right == u {
                1
            } else {
                0
            };
            self.set_child(u_parent, dir, v);
        }
        self.set_parent(v, u_parent);
    }

    /// Positions after node `z` leaves the order.
    pub(crate) open spec fn del_pos(&self, z: usize) -> Map<usize, int> {
        Map::new(
            |m: usize| self.linked(m) && m != z,
            |m: usize|
                if self.pos@[m] > self.pos@[z] {
                    self.pos@[m] - 1
                } else {
                    self.pos@[m]
                },
        )
    }

    /// Range starts after the element at index `e` leaves every range.
    pub(crate) open spec fn del_lo(&self, z: usize, e: int) -> Map<usize, int> {
        Map::new(
            |m: usize| self.linked(m) && m != z,
            |m: usize|
                if self.lo@[m] > e {
                    self.lo@[m] - 1
                } else {
                    self.lo@[m]
                },
        )
    }

    /// Range ends after the element at index `e` leaves every range.
    pub(crate) open spec fn del_hi(&self, z: usize, e: int) -> Map<usize, int> {
        Map::new(
            |m: usize| self.linked(m) && m != z,
            |m: usize|
                if self.hi@[m] > e {
                    self.hi@[m] - 1
                } else {
                    self.hi@[m]
                },
        )
    }

    /// The exact changes made when node `z`, whose child in direction `s` is
    /// empty, is replaced by its other child `x`.
    pub(crate) open spec fn spliced(&self, t0: Self, z: usize, s: int) -> bool {
        let x = t0.lk(z).child(1 - s);
        let zp = t0.lk(z).parent;
        let k = t0.pos@[z];
        &&& self.links@ == t0.transplant_links(z, x)
        &&& self.root == (if zp == t0.nil {
            x
        } else {
            t0.root
        })
        &&& self.keys == t0.keys
        &&& self.nil == t0.nil
        &&& self.order@ == t0.order@.remove(k)
        &&& self.pos@ == t0.del_pos(z)
        &&& self.lo@ == t0.del_lo(z, k)
        &&& self.hi@ == t0.del_hi(z, k)
    }

    /// Local shape of every node after a splice.
    #[verifier::rlimit(80)]
    pub(crate) proof fn lemma_splice_node_shape(&self, t0: Self, z: usize, s: int, m: usize)
        requires
            t0.shape_ok(),
            t0.linked(z),
            0 <= s < 2,
            t0.lk(z).child(s) == t0.nil,
            self.spliced(t0, z, s),
            self.linked(m),
        ensures
            self.node_shape(m),
    {
        let x = t0.lk(z).child(1 - s);
        let zp = t0.lk(z).parent;
        let k = t0.pos@[z];
        t0.lemma_children(z);
        assert(t0.linked(m));
        t0.lemma_children(m);
        if x != t0.nil {
            t0.lemma_children(x);
        }
        if zp != t0.nil {
            t0.lemma_children(zp);
        } else {
            assert(z == t0.root);
        }
        let l = t0.lk(m).left;
        let r = t0.lk(m).right;
        let p = t0.lk(m).parent;
        if l != t0.nil {
            t0.lemma_children(l);
        }
        if r != t0.nil {
            t0.lemma_children(r);
        }
        if m != t0.root {
            t0.lemma_children(p);
        }
        assert(self.order@[self.pos@[m]] == m) by {
            t0.lemma_at(t0.pos@[m]);
        }
        if m == x {
        } else if m == zp {
        } else {
            assert(self.lk(m) == t0.lk(m));
        }
    }

    /// The rest of the shape after a splice.
    pub(crate) proof fn lemma_splice_shape(&self, t0: Self, z: usize, s: int)
        requires
            t0.shape_ok(),
            t0.linked(z),
            0 <= s < 2,
            t0.lk(z).child(s) == t0.nil,
            self.spliced(t0, z, s),
        ensures
            self.shape_ok(),
    {
        let x = t0.lk(z).child(1 - s);
        let zp = t0.lk(z).parent;
        let k = t0.pos@[z];
        t0.lemma_children(z);
        if zp != t0.nil {
            t0.lemma_children(zp);
        }
        assert forall|m: usize| self.linked(m) implies #[trigger] self.node_shape(m) by {
            self.lemma_splice_node_shape(t0, z, s, m);
        }
        assert(self.links_in_range()) by {
            assert forall|i: int| 0 <= i < self.links@.len() implies {
                &&& (#[trigger] self.links@[i]).parent < self.links@.len()
                &&& self.links@[i].left < self.links@.len()
                &&& self.links@[i].right < self.links@.len()
            } by {
                assert(t0.links@[i].parent < t0.links@.len());
            }
        }
        assert(self.order_ok()) by {
            assert forall|i: int| 0 <= i < self.order@.len() implies self.linked(
                #[trigger] self.order@[i],
            ) && self.pos@[self.order@[i]] == i by {
                if i < k {
                    t0.lemma_at(i);
                    t0.lemma_sorted_at(i, k);
                } else {
                    t0.lemma_at(i + 1);
                    t0.lemma_sorted_at(i + 1, k);
                }
            }
        }
        assert(self.sorted()) by {
            assert forall|i: int, j: int| 0 <= i < j < self.order@.len() implies seq_lt(
                #[trigger] self.kv(self.order@[i]),
                #[trigger] self.kv(self.order@[j]),
            ) by {
                let i0 = if i < k {
                    i
                } else {
                    i + 1
                };
                let j0 = if j < k {
                    j
                } else {
                    j + 1
                };
                assert(self.order@[i] == t0.order@[i0]);
                assert(self.order@[j] == t0.order@[j0]);
                assert(seq_lt(t0.kv(t0.order@[i0]), t0.kv(t0.order@[j0])));
            }
        }
        t0.lemma_children(t0.root);
        if x != t0.nil {
            t0.lemma_children(x);
        }
        if zp == t0.nil {
            assert(z == t0.root);
            if x == t0.nil {
                assert(self.order@.len() == 0);
            } else {
                assert(self.linked(x));
            }
        } else {
            assert(t0.root != z);
            assert(self.linked(t0.root));
        }
        assert(self.root_ok());
    }

    /// After splicing out `z`: if `z` was red nothing is broken; if it was
    /// black, its replacement carries a missing black.
    #[verifier::rlimit(80)]
    pub(crate) proof fn lemma_splice_rb(&self, t0: Self, z: usize, s: int)
        requires
            t0.shape_ok(),
            t0.rb_ok(),
            t0.linked(z),
            0 <= s < 2,
            t0.lk(z).child(s) == t0.nil,
            self.spliced(t0, z, s),
            self.bh == t0.bh,
            self.shape_ok(),
        ensures
            t0.is_red(z) ==> self.rb_nodes() && self.is_black(self.root),
            t0.is_black(z) ==> self.del_inv(t0.lk(z).child(1 - s), t0.lk(z).parent),
    {
        let x = t0.lk(z).child(1 - s);
        let zp = t0.lk(z).parent;
        t0.lemma_children(z);
        assert(t0.node_rb(z));
        if zp != t0.nil {
            t0.lemma_children(zp);
            assert(t0.node_rb(zp));
        } else {
            assert(z == t0.root);
        }
        if x != t0.nil {
            t0.lemma_children(x);
        }
        assert(self.lk(t0.nil).color == t0.lk(t0.nil).color);
        assert forall|n: usize| self.linked(n) && n != zp implies #[trigger] self.bh_ok(n) by {
            assert(t0.node_rb(n));
            t0.lemma_children(n);
        }
        assert forall|n: usize| self.linked(n) && n != zp && n != x implies #[trigger] self.red_ok(
            n,
        ) by {
            assert(t0.node_rb(n));
            t0.lemma_children(n);
        }
        if zp != t0.nil {
            t0.lemma_children(t0.root);
            assert(self.root == t0.root);
            assert(self.lk(t0.root) == t0.lk(t0.root) || t0.root == zp);
            if t0.is_red(z) {
                assert(self.bh_ok(zp));
                assert(self.red_ok(zp));
                if x != t0.nil {
                    assert(self.red_ok(x));
                }
            }
        }
    }

    /// The link of slot `i` after node `z`, which has two children, is
    /// replaced by its successor `y` (the leftmost node of its right subtree),
    /// whose place in turn goes to the right child `x` of `y`.
    pub(crate) open spec fn replaced_link(&self, z: usize, y: usize, i: usize) -> Link {
        let zp = self.lk(z).parent;
        let zl = self.lk(z).left;
        let zr = self.lk(z).right;
        let x = self.lk(y).right;
        let q = self.lk(y).parent;
        if i == y {
            Link {
                color: self.lk(z).color,
                parent: zp,
                left: zl,
                right: if q == z {
                    x
                } else {
                    zr
                },
            }
        } else if i == zl {
            Link { parent: y, ..self.lk(zl) }
        } else if q != z && i == zr && i == q {
            Link { parent: y, left: x, ..self.lk(zr) }
        } else if q != z && i == zr {
            Link { parent: y, ..self.lk(zr) }
        } else if q != z && i == q {
            Link { left: x, ..self.lk(q) }
        } else if i == x {
            Link {
                parent: if q == z {
                    y
                } else {
                    q
                },
                ..self.lk(x)
            }
        } else if i == zp && zp != self.nil {
            self.lk(zp).with_child(
                if self.lk(zp).right == z {
                    1
                } else {
                    0
                },
                y,
            )
        } else {
            self.lk(i)
        }
    }

    /// The exact changes made when node `z` with two children is replaced by
    /// its successor `y`.
    pub(crate) open spec fn replaced(&self, t0: Self, z: usize, y: usize) -> bool {
        let zp = t0.lk(z).parent;
        let k = t0.pos@[z];
        &&& self.links@.len() == t0.links@.len()
        &&& forall|i: int|
            0 <= i < t0.links@.len() ==> #[trigger] self.links@[i] == t0.replaced_link(
                z,
                y,
                i as usize,
            )
        &&& self.root == (if zp == t0.nil {
            y
        } else {
            t0.root
        })
        &&& self.keys == t0.keys
        &&& self.nil == t0.nil
        &&& self.order@ == t0.order@.remove(k)
        &&& self.pos@ == t0.del_pos(z)
        &&& self.lo@ == t0.del_lo(z, k + 1).insert(y, t0.lo@[z])
        &&& self.hi@ == t0.del_hi(z, k + 1).insert(y, t0.hi@[z] - 1)
    }

    /// What is known of the successor `y` of a node `z` with two children.
    pub(crate) open spec fn successor_of(&self, z: usize, y: usize) -> bool {
        let zr = self.lk(z).right;
        let q = self.lk(y).parent;
        &&& self.linked(z)
        &&& self.lk(z).left != self.nil
        &&& zr != self.nil
        &&& self.linked(y)
        &&& self.lk(y).left == self.nil
        &&& self.pos@[y] == self.lo@[zr]
        &&& self.lo@[y] == self.lo@[zr]
        &&& self.hi@[y] <= self.hi@[zr]
        &&& (y != zr ==> {
            &&& self.linked(q)
            &&& self.lk(q).left == y
            &&& self.lo@[q] == self.lo@[zr]
            &&& self.hi@[q] <= self.hi@[zr]
        })
    }

    /// The nodes that the replacement touches are as distinct as they can be.
    pub(crate) proof fn lemma_successor_facts(&self, z: usize, y: usize)
        requires
            self.shape_ok(),
            self.successor_of(z, y),
        ensures
            ({
                let zp = self.lk(z).parent;
                let zl = self.lk(z).left;
                let zr = self.lk(z).right;
                let x = self.lk(y).right;
                let q = self.lk(y).parent;
                let k = self.pos@[z];
                &&& self.linked(zl)
                &&& self.linked(zr)
                &&& self.pos@[y] == k + 1
                &&& (q == z <==> y == zr)
                &&& y != z
                &&& y != zl
                &&& y != zp
                &&& y != x
                &&& zl != zr
                &&& zl != z
                &&& zr != z
                &&& zl != q
                &&& zl != x
                &&& zl != zp
                &&& zr != zp
                &&& zr != x
                &&& q != zp
                &&& q != x
                &&& x != z
                &&& (x != self.nil ==> x != zp && self.linked(x) && self.lk(x).parent == y)
                &&& (zp != self.nil ==> self.linked(zp) && (self.lk(zp).left == z || self.lk(
                    zp,
                ).right == z))
                &&& (zp == self.nil <==> z == self.root)
                &&& (y != zr ==> self.lo@[y] == self.lo@[q] && self.hi@[y] == self.pos@[q])
                &&& y != self.nil
                &&& z != self.nil
                &&& zl != self.nil
                &&& zr != self.nil
                &&& q != self.nil
            }),
    {
        let zp = self.lk(z).parent;
        let zl = self.lk(z).left;
        let zr = self.lk(z).right;
        let x = self.lk(y).right;
        let q = self.lk(y).parent;
        self.lemma_children(z);
        self.lemma_children(zl);
        self.lemma_children(zr);
        self.lemma_children(y);
        if y != zr {
            self.lemma_children(q);
        }
        if x != self.nil {
            self.lemma_children(x);
        }
        if zp != self.nil {
            self.lemma_children(zp);
        }
        if z != self.root {
            assert(zp != self.nil);
        } else {
            assert(zp == self.nil);
        }
    }

    /// Facts shared by the shape proofs of a replacement.
    pub(crate) proof fn lemma_replace_common(&self, t0: Self, z: usize, y: usize)
        requires
            t0.shape_ok(),
            t0.successor_of(z, y),
            self.replaced(t0, z, y),
        ensures
            ({
                let zp = t0.lk(z).parent;
                let zl = t0.lk(z).left;
                let zr = t0.lk(z).right;
                let x = t0.lk(y).right;
                let q = t0.lk(y).parent;
                &&& self.lk(y) == t0.replaced_link(z, y, y)
                &&& self.lk(zl) == t0.replaced_link(z, y, zl)
                &&& self.lk(zr) == t0.replaced_link(z, y, zr)
                &&& self.lk(x) == t0.replaced_link(z, y, x)
                &&& self.lk(q) == t0.replaced_link(z, y, q)
                &&& self.lk(zp) == t0.replaced_link(z, y, zp)
                &&& t0.node_shape(z)
                &&& t0.node_shape(y)
                &&& t0.node_shape(zl)
                &&& t0.node_shape(zr)
                &&& (q != z ==> t0.node_shape(q))
                &&& (x != t0.nil ==> t0.node_shape(x))
                &&& (zp != t0.nil ==> t0.node_shape(zp))
            }),
    {
        let zp = t0.lk(z).parent;
        let x = t0.lk(y).right;
        let q = t0.lk(y).parent;
        t0.lemma_successor_facts(z, y);
        t0.lemma_children(z);
        t0.lemma_children(y);
        t0.lemma_children(t0.lk(z).left);
        t0.lemma_children(t0.lk(z).right);
        if zp != t0.nil {
            t0.lemma_children(zp);
        }
        if q != z {
            t0.lemma_children(q);
        }
        if x != t0.nil {
            t0.lemma_children(x);
        }
        t0.lemma_in_range(z);
        t0.lemma_in_range(y);
    }

    #[verifier::rlimit(60)]
    pub(crate) proof fn lemma_replace_shape_y(&self, t0: Self, z: usize, y: usize)
        requires
            t0.shape_ok(),
            t0.successor_of(z, y),
            self.replaced(t0, z, y),
        ensures
            self.node_shape(y),
    {
        t0.lemma_successor_facts(z, y);
        self.lemma_replace_common(t0, z, y);
        assert(self.order@[self.pos@[y]] == y) by {
            t0.lemma_at(t0.pos@[y]);
        }
    }

    #[verifier::rlimit(60)]
    pub(crate) proof fn lemma_replace_shape_special(&self, t0: Self, z: usize, y: usize, m: usize)
        requires
            t0.shape_ok(),
            t0.successor_of(z, y),
            self.replaced(t0, z, y),
            self.linked(m),
            m == t0.lk(z).left || m == t0.lk(z).right || m == t0.lk(y).parent || m == t0.lk(
                y,
            ).right || m == t0.lk(z).parent,
            m != y,
        ensures
            self.node_shape(m),
    {
        t0.lemma_successor_facts(z, y);
        self.lemma_replace_common(t0, z, y);
        assert(t0.linked(m));
        t0.lemma_children(m);
        let l = t0.lk(m).left;
        let r = t0.lk(m).right;
        let p = t0.lk(m).parent;
        if l != t0.nil {
            t0.lemma_children(l);
        }
        if r != t0.nil {
            t0.lemma_children(r);
        }
        if m != t0.root {
            t0.lemma_children(p);
        }
        assert(self.order@[self.pos@[m]] == m) by {
            t0.lemma_at(t0.pos@[m]);
        }
        assert(self.lk(m) == t0.replaced_link(z, y, m));
        assert(self.lk(l) == t0.replaced_link(z, y, l));
        assert(self.lk(r) == t0.replaced_link(z, y, r));
        assert(self.lk(p) == t0.replaced_link(z, y, p));
    }

    #[verifier::rlimit(60)]
    pub(crate) proof fn lemma_replace_shape_other(&self, t0: Self, z: usize, y: usize, m: usize)
        requires
            t0.shape_ok(),
            t0.successor_of(z, y),
            self.replaced(t0, z, y),
            self.linked(m),
            m != t0.lk(z).left,
            m != t0.lk(z).right,
            m != t0.lk(y).parent,
            m != t0.lk(y).right,
            m != t0.lk(z).parent,
            m != y,
        ensures
            self.node_shape(m),
    {
        t0.lemma_successor_facts(z, y);
        self.lemma_replace_common(t0, z, y);
        assert(t0.linked(m));
        t0.lemma_children(m);
        let l = t0.lk(m).left;
        let r = t0.lk(m).right;
        let p = t0.lk(m).parent;
        if l != t0.nil {
            t0.lemma_children(l);
        }
        if r != t0.nil {
            t0.lemma_children(r);
        }
        if m != t0.root {
            t0.lemma_children(p);
        }
        assert(self.order@[self.pos@[m]] == m) by {
            t0.lemma_at(t0.pos@[m]);
        }
        assert(self.lk(m) == t0.replaced_link(z, y, m));
        assert(self.lk(l) == t0.replaced_link(z, y, l));
        assert(self.lk(r) == t0.replaced_link(z, y, r));
        assert(self.lk(p) == t0.replaced_link(z, y, p));
    }

    /// Local shape of every node after the replacement.
    pub(crate) proof fn lemma_replace_node_shape(&self, t0: Self, z: usize, y: usize, m: usize)
        requires
            t0.shape_ok(),
            t0.successor_of(z, y),
            self.replaced(t0, z, y),
            self.linked(m),
        ensures
            self.node_shape(m),
    {
        if m == y {
            self.lemma_replace_shape_y(t0, z, y);
        } else if m == t0.lk(z).left || m == t0.lk(z).right || m == t0.lk(y).parent || m == t0.lk(
            y,
        ).right || m == t0.lk(z).parent {
            self.lemma_replace_shape_special(t0, z, y, m);
        } else {
            self.lemma_replace_shape_other(t0, z, y, m);
        }
    }

    /// The rest of the shape after a replacement.
    pub(crate) proof fn lemma_replace_shape(&self, t0: Self, z: usize, y: usize)
        requires
            t0.shape_ok(),
            t0.successor_of(z, y),
            self.replaced(t0, z, y),
        ensures
            self.shape_ok(),
    {
        let zp = t0.lk(z).parent;
        let k = t0.pos@[z];
        t0.lemma_successor_facts(z, y);
        self.lemma_replace_common(t0, z, y);
        assert forall|m: usize| self.linked(m) implies #[trigger] self.node_shape(m) by {
            self.lemma_replace_node_shape(t0, z, y, m);
        }
        assert(self.links_in_range()) by {
            assert forall|i: int| 0 <= i < self.links@.len() implies {
                &&& (#[trigger] self.links@[i]).parent < self.links@.len()
                &&& self.links@[i].left < self.links@.len()
                &&& self.links@[i].right < self.links@.len()
            } by {
                assert(t0.links@[i].parent < t0.links@.len());
                assert(self.links@[i] == t0.replaced_link(z, y, i as usize));
            }
        }
        assert(self.order_ok()) by {
            assert forall|i: int| 0 <= i < self.order@.len() implies self.linked(
                #[trigger] self.order@[i],
            ) && self.pos@[self.order@[i]] == i by {
                if i < k {
                    t0.lemma_at(i);
                    t0.lemma_sorted_at(i, k);
                } else {
                    t0.lemma_at(i + 1);
                    t0.lemma_sorted_at(i + 1, k);
                }
            }
        }
        assert(self.sorted()) by {
            assert forall|i: int, j: int| 0 <= i < j < self.order@.len() implies seq_lt(
                #[trigger] self.kv(self.order@[i]),
                #[trigger] self.kv(self.order@[j]),
            ) by {
                let i0 = if i < k {
                    i
                } else {
                    i + 1
                };
                let j0 = if j < k {
                    j
                } else {
                    j + 1
                };
                assert(self.order@[i] == t0.order@[i0]);
                assert(self.order@[j] == t0.order@[j0]);
                assert(seq_lt(t0.kv(t0.order@[i0]), t0.kv(t0.order@[j0])));
            }
        }
        t0.lemma_children(t0.root);
        if zp == t0.nil {
            assert(self.linked(y));
        } else {
            assert(self.linked(t0.root));
            assert(self.lk(t0.root) == t0.replaced_link(z, y, t0.root));
        }
        assert(self.root_ok());
    }

    /// The node that `x` hangs below after a replacement.
    pub(crate) open spec fn repl_xp(&self, z: usize, y: usize) -> usize {
        if self.lk(y).parent == z {
            y
        } else {
            self.lk(y).parent
        }
    }

    /// Black heights after a replacement.
    #[verifier::rlimit(100)]
    pub(crate) proof fn lemma_replace_bh(&self, t0: Self, z: usize, y: usize)
        requires
            t0.shape_ok(),
            t0.rb_ok(),
            t0.successor_of(z, y),
            self.replaced(t0, z, y),
            self.bh@ == t0.bh@.insert(y, t0.bh@[z]),
            self.shape_ok(),
        ensures
            forall|n: usize|
                self.linked(n) && n != t0.repl_xp(z, y) ==> #[trigger] self.bh_ok(n),
            ({
                let xq = t0.repl_xp(z, y);
                let x = t0.lk(y).right;
                &&& self.linked(xq)
                &&& (self.lk(xq).left == x || self.lk(xq).right == x)
                &&& self.lk(x).parent == xq
                &&& self.del_sib(x, xq) == (if xq == y {
                    t0.lk(z).left
                } else {
                    self.lk(xq).right
                })
                &&& (t0.is_red(y) ==> self.bh_ok(xq))
                &&& (t0.is_black(y) ==> {
                    &&& self.bh@[xq] >= 1
                    &&& self.bh@[xq] == self.bhv(self.del_sib(x, xq)) + self.bw(xq)
                    &&& self.bh@[xq] == self.bhv(x) + 1 + self.bw(xq)
                })
            }),
    {
        let zp = t0.lk(z).parent;
        let zl = t0.lk(z).left;
        let zr = t0.lk(z).right;
        let x = t0.lk(y).right;
        let q = t0.lk(y).parent;
        let xq = t0.repl_xp(z, y);
        t0.lemma_successor_facts(z, y);
        self.lemma_replace_common(t0, z, y);
        assert(t0.node_rb(z));
        assert(t0.node_rb(y));
        assert(t0.node_rb(zl));
        assert(t0.node_rb(zr));
        if q != z {
            assert(t0.node_rb(q));
        }
        if x != t0.nil {
            assert(t0.node_rb(x));
        }
        assert forall|n: usize| self.linked(n) && n != xq implies #[trigger] self.bh_ok(n) by {
            assert(t0.node_rb(n));
            t0.lemma_children(n);
            assert(self.lk(n) == t0.replaced_link(z, y, n));
            let l = t0.lk(n).left;
            let r = t0.lk(n).right;
            assert(self.lk(l) == t0.replaced_link(z, y, l));
            assert(self.lk(r) == t0.replaced_link(z, y, r));
        }
    }

    /// Red-red pairs after a replacement.
    #[verifier::rlimit(100)]
    pub(crate) proof fn lemma_replace_red(&self, t0: Self, z: usize, y: usize)
        requires
            t0.shape_ok(),
            t0.rb_ok(),
            t0.successor_of(z, y),
            self.replaced(t0, z, y),
            self.shape_ok(),
        ensures
            forall|n: usize|
                self.linked(n) && n != t0.repl_xp(z, y) && n != t0.lk(y).right
                    ==> #[trigger] self.red_ok(n),
            ({
                let xq = t0.repl_xp(z, y);
                let x = t0.lk(y).right;
                &&& (self.is_red(xq) ==> self.is_black(if xq == y {
                    t0.lk(z).left
                } else {
                    self.lk(xq).right
                }))
                &&& (t0.is_red(y) ==> self.red_ok(xq) && (x != t0.nil ==> self.red_ok(x)))
                &&& self.is_black(self.nil)
                &&& self.is_black(self.root)
            }),
    {
        let zp = t0.lk(z).parent;
        let zl = t0.lk(z).left;
        let zr = t0.lk(z).right;
        let x = t0.lk(y).right;
        let q = t0.lk(y).parent;
        let xq = t0.repl_xp(z, y);
        t0.lemma_successor_facts(z, y);
        self.lemma_replace_common(t0, z, y);
        assert(t0.node_rb(z));
        assert(t0.node_rb(y));
        assert(t0.node_rb(zl));
        assert(t0.node_rb(zr));
        if q != z {
            assert(t0.node_rb(q));
        }
        if zp != t0.nil {
            assert(t0.node_rb(zp));
        }
        if x != t0.nil {
            assert(t0.node_rb(x));
        }
        assert(self.lk(t0.nil).color == t0.lk(t0.nil).color) by {
            assert(self.links@[t0.nil as int] == t0.replaced_link(z, y, t0.nil));
        }
        assert forall|n: usize| self.linked(n) && n != xq && n != x implies #[trigger] self.red_ok(
            n,
        ) by {
            assert(t0.node_rb(n));
            t0.lemma_children(n);
            assert(self.lk(n) == t0.replaced_link(z, y, n));
            let l = t0.lk(n).left;
            let r = t0.lk(n).right;
            assert(self.lk(l) == t0.replaced_link(z, y, l));
            assert(self.lk(r) == t0.replaced_link(z, y, r));
        }
        t0.lemma_children(t0.root);
        if zp != t0.nil {
            assert(self.lk(t0.root) == t0.replaced_link(z, y, t0.root));
        }
    }

    /// After the replacement: if `y` was red nothing is broken; if it was
    /// black, its right child `x` carries a missing black below `y`'s old
    /// parent (or below `y` itself when that parent was `z`).
    pub(crate) proof fn lemma_replace_rb(&self, t0: Self, z: usize, y: usize)
        requires
            t0.shape_ok(),
            t0.rb_ok(),
            t0.successor_of(z, y),
            self.replaced(t0, z, y),
            self.bh@ == t0.bh@.insert(y, t0.bh@[z]),
            self.shape_ok(),
        ensures
            t0.is_red(y) ==> self.rb_nodes() && self.is_black(self.root),
            t0.is_black(y) ==> self.del_inv(t0.lk(y).right, t0.repl_xp(z, y)),
    {
        let x = t0.lk(y).right;
        let xq = t0.repl_xp(z, y);
        self.lemma_replace_bh(t0, z, y);
        self.lemma_replace_red(t0, z, y);
        t0.lemma_successor_facts(z, y);
        if t0.is_red(y) {
            assert forall|n: usize| self.linked(n) implies #[trigger] self.node_rb(n) by {
                if n != xq && n != x {
                    assert(self.red_ok(n));
                }
                if n != xq {
                    assert(self.bh_ok(n));
                }
            }
        } else {
            if x != t0.nil {
                t0.lemma_children(x);
            }
            assert(t0.linked(t0.root)) by {
                t0.lemma_children(z);
                assert(t0.order@[t0.pos@[z]] == z);
            }
            t0.lemma_children(t0.root);
            assert(x != self.root);
            assert(self.del_deficit(x, xq));
        }
    }

    /// What unlinking `z` leaves behind: `z` is out of the order, and either
    /// the red-black rules hold (a red node was taken out) or `x` below `xp`
    /// is short of one black.
    pub(crate) open spec fn unlinked(&self, t0: Self, z: usize, x: usize, xp: usize, black: bool) -> bool {
        &&& self.order@ == t0.order@.remove(t0.pos@[z])
        &&& self.pos@ == t0.del_pos(z)
        &&& self.keys == t0.keys
        &&& self.nil == t0.nil
        &&& self.minimum == t0.minimum
        &&& self.links@.len() == t0.links@.len()
        &&& self.lk(z) == t0.lk(z)
        &&& forall|i: int|
            0 <= i < t0.links@.len() && !self.linked(i as usize) && i != t0.nil
                ==> #[trigger] self.links@[i] == t0.links@[i]
        &&& x < self.links@.len()
        &&& self.shape_ok()
        &&& (!black ==> self.rb_nodes() && self.is_black(self.root))
        &&& (black ==> self.del_inv(x, xp))
    }

    /// Splices out `z`, whose child in direction `s` is empty.
    pub(crate) fn unlink_splice(&mut self, z: usize, s: usize) -> (r: (usize, Ghost<usize>, bool))
        requires
            old(self).wf(),
            old(self).linked(z),
            s < 2,
            old(self).lk(z).child(s as int) == old(self).nil,
        ensures
            final(self).unlinked(*old(self), z, r.0, r.1@, r.2),
    {
        let ghost t0 = *self;
        let ghost k = self.pos@[z];
        proof {
            self.lemma_children(z);
            self.lemma_in_range(z);
        }
        let x = self.child(z, 1 - s);
        let black = self.links[z].color == Color::BLACK;
        self.rb_transplant(z, x);
        proof {
            self.order@ = t0.order@.remove(k);
            self.pos@ = t0.del_pos(z);
            self.lo@ = t0.del_lo(z, k);
            self.hi@ = t0.del_hi(z, k);
            self.lemma_splice_shape(t0, z, s as int);
            self.lemma_splice_rb(t0, z, s as int);
            t0.lemma_children(z);
            let zp = t0.lk(z).parent;
            if zp != t0.nil {
                t0.lemma_children(zp);
            }
            if x != t0.nil {
                t0.lemma_children(x);
            }
            assert forall|i: int|
                0 <= i < t0.links@.len() && !self.linked(i as usize) && i != t0.nil implies #[trigger] self.links@[i]
                    == t0.links@[i] by {
                assert(i != x as int);
                assert(i != zp as int);
            }
        }
        (x, Ghost(t0.lk(z).parent), black)
    }

    /// Replaces `z`, which has two children, by its successor `y`.
    #[verifier::rlimit(100)]
    pub(crate) fn unlink_replace(&mut self, z: usize, y: usize) -> (r: (usize, Ghost<usize>, bool))
        requires
            old(self).wf(),
            old(self).successor_of(z, y),
        ensures
            final(self).unlinked(*old(self), z, r.0, r.1@, r.2),
    {
        let ghost t0 = *self;
        let ghost k = self.pos@[z];
        proof {
            self.lemma_successor_facts(z, y);
            self.lemma_children(z);
            self.lemma_children(y);
            self.lemma_in_range(z);
            self.lemma_in_range(y);
            let q = self.lk(y).parent;
            if q != z {
                self.lemma_children(q);
            }
        }
        let z_left = self.links[z].left;
        let z_right = self.links[z].right;
        let black = self.links[y].color == Color::BLACK;
        let x = self.links[y].right;
        let ghost zp = t0.lk(z).parent;
        let ghost q = t0.lk(y).parent;
        if self.links[y].parent == z {
            self.set_parent(x, y);
        } else {
            let y_right = self.links[y].right;
            self.rb_transplant(y, y_right);
            proof {
                assert(t0.lk(q).right != y);
            }
            self.set_child(y, 1, z_right);
            self.set_parent(z_right, y);
        }
        let ghost s1 = *self;
        proof {
            assert forall|iu: usize| iu < t0.links@.len() implies #[trigger] s1.links@[iu as int] == {
                if iu == y {
                    Link { right: if q == z { x } else { z_right }, ..t0.lk(y) }
                } else if q != z && iu == z_right && iu == q {
                    Link { parent: y, left: x, ..t0.lk(z_right) }
                } else if q != z && iu == z_right {
                    Link { parent: y, ..t0.lk(z_right) }
                } else if q != z && iu == q {
                    Link { left: x, ..t0.lk(q) }
                } else if iu == x {
                    Link { parent: if q == z { y } else { q }, ..t0.lk(x) }
                } else {
                    t0.lk(iu)
                }
            } by {
                if q == z {
                } else {
                    if iu == y {
                    } else if iu == z_right {
                    } else if iu == q {
                    } else if iu == x {
                    } else {
                    }
                }
            }
        }
        self.rb_transplant(z, y);
        let ghost s2 = *self;
        proof {
            assert(s1.lk(z) == t0.lk(z));
            assert(s1.lk(zp) == t0.lk(zp) || zp == t0.nil);
            assert forall|iu: usize| iu < t0.links@.len() implies #[trigger] s2.links@[iu as int] == {
                if iu == y {
                    Link { parent: zp, ..s1.lk(y) }
                } else if iu == zp && zp != t0.nil {
                    t0.lk(zp).with_child(
                        if t0.lk(zp).right == z {
                            1
                        } else {
                            0
                        },
                        y,
                    )
                } else {
                    s1.lk(iu)
                }
            } by {
            }
        }
        self.set_child(y, 0, z_left);
        self.set_parent(z_left, y);
        let z_color = self.links[z].color;
        self.set_color(y, z_color);
        proof {
            self.order@ = t0.order@.remove(k);
            self.pos@ = t0.del_pos(z);
            self.lo@ = t0.del_lo(z, k + 1).insert(y, t0.lo@[z]);
            self.hi@ = t0.del_hi(z, k + 1).insert(y, t0.hi@[z] - 1);
            self.bh@ = t0.bh@.insert(y, t0.bh@[z]);
            assert forall|iu: usize| iu < t0.links@.len() implies #[trigger] self.links@[iu as int]
                == t0.replaced_link(z, y, iu) by {
                assert(s2.links@[iu as int] == s2.lk(iu));
                assert(s1.links@[iu as int] == s1.lk(iu));
            }
            assert forall|i: int| 0 <= i < t0.links@.len() implies #[trigger] self.links@[i]
                == t0.replaced_link(z, y, i as usize) by {
                assert(t0.links@.len() == t0.links.len());
                assert(self.links@[(i as usize) as int] == self.links@[i]);
            }
            assert(self.replaced(t0, z, y));
            self.lemma_replace_shape(t0, z, y);
            self.lemma_replace_rb(t0, z, y);
            assert forall|i: int|
                0 <= i < t0.links@.len() && !self.linked(i as usize) && i != t0.nil implies #[trigger] self.links@[i]
                    == t0.links@[i] by {
                assert(self.links@[i] == t0.replaced_link(z, y, i as usize));
                t0.lemma_successor_facts(z, y);
            }
        }
        let ghost xp = t0.repl_xp(z, y);
        (x, Ghost(xp), black)
    }

    /// Unlinks the node `z` from the tree.
    pub(crate) fn unlink(&mut self, z: usize) -> (r: (usize, Ghost<usize>, bool))
        requires
            old(self).wf(),
            old(self).linked(z),
        ensures
            final(self).unlinked(*old(self), z, r.0, r.1@, r.2),
    {
        proof {
            self.lemma_children(z);
            self.lemma_in_range(z);
        }
        let z_left = self.links[z].left;
        let z_right = self.links[z].right;
        if z_left == self.nil {
            self.unlink_splice(z, 0)
        } else if z_right == self.nil {
            self.unlink_splice(z, 1)
        } else {
            let y = self.minimum(z_right);
            self.unlink_replace(z, y)
        }
    }
}

} // verus!
