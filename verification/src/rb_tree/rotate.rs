//! Link updates and rotations that keep the shape of the tree.
use vstd::prelude::*;
use super::{Link, RBTree};
use crate::color::Color;
use crate::key::{seq_lt, TreeKey};

verus! {

impl<K: TreeKey> RBTree<K> {
    /// Every field but the links is the same in both trees.
    pub(crate) open spec fn same_but_links(&self, t0: Self) -> bool {
        &&& self.keys == t0.keys
        &&& self.root == t0.root
        &&& self.nil == t0.nil
        &&& self.minimum == t0.minimum
        &&& self.order == t0.order
        &&& self.pos == t0.pos
        &&& self.lo == t0.lo
        &&& self.hi == t0.hi
        &&& self.bh == t0.bh
    }

    pub(crate) fn child(&self, n: usize, dir: usize) -> (c: usize)
        requires
            n < self.links@.len(),
        ensures
            c == self.lk(n).child(dir as int),
    {
        if dir == 0 {
            self.links[n].left
        } else {
            self.links[n].right
        }
    }

    pub(crate) fn set_child(&mut self, n: usize, dir: usize, c: usize)
        requires
            n < old(self).links@.len(),
        ensures
            final(self).links@ == old(self).links@.update(
                n as int,
                old(self).links@[n as int].with_child(dir as int, c),
            ),
            final(self).same_but_links(*old(self)),
    {
        if dir == 0 {
            self.links[n].left = c;
        } else {
            self.links[n].right = c;
        }
    }

    pub(crate) fn set_parent(&mut self, n: usize, p: usize)
        requires
            n < old(self).links@.len(),
        ensures
            final(self).links@ == old(self).links@.update(
                n as int,
                Link { parent: p, ..old(self).links@[n as int] },
            ),
            final(self).same_but_links(*old(self)),
    {
        self.links[n].parent = p;
    }

    pub(crate) fn set_color(&mut self, n: usize, color: Color)
        requires
            n < old(self).links@.len(),
        ensures
            final(self).links@ == old(self).links@.update(
                n as int,
                Link { color: color, ..old(self).links@[n as int] },
            ),
            final(self).same_but_links(*old(self)),
    {
        self.links[n].color = color;
    }

    /// What a rotation of `x` in direction `dir` does: the child `y` of `x`
    /// opposite to `dir` takes the place of `x`, `x` becomes the `dir` child of
    /// `y`, and the inner child `beta` of `y` moves over to `x`. Colors, keys,
    /// the order and black heights are unchanged; only `x` and `y` cover new
    /// ranges.
    pub(crate) open spec fn rotated(&self, t0: Self, x: usize, dir: int) -> bool {
        let opp = 1 - dir;
        let y = t0.lk(x).child(opp);
        let beta = t0.lk(y).child(dir);
        let xp = t0.lk(x).parent;
        &&& self.keys == t0.keys
        &&& self.nil == t0.nil
        &&& self.minimum == t0.minimum
        &&& self.order == t0.order
        &&& self.pos == t0.pos
        &&& self.links@.len() == t0.links@.len()
        &&& self.root == (if t0.root == x {
            y
        } else {
            t0.root
        })
        &&& self.lk(x) == Link { parent: y, ..t0.lk(x).with_child(opp, beta) }
        &&& self.lk(y) == Link { parent: xp, ..t0.lk(y).with_child(dir, x) }
        &&& (beta != t0.nil ==> self.lk(beta) == Link { parent: x, ..t0.lk(beta) })
        &&& (xp != t0.nil ==> self.lk(xp) == t0.lk(xp).with_child(
            if t0.lk(xp).right == x {
                1
            } else {
                0
            },
            y,
        ))
        &&& forall|i: int|
            0 <= i < t0.links@.len() && i != x && i != y && i != beta && i != xp
                ==> #[trigger] self.links@[i] == t0.links@[i]
        &&& self.lk(t0.nil) == t0.lk(t0.nil)
        &&& self.lo@ == t0.lo@.insert(y, t0.lo@[x]).insert(
            x,
            if dir == 0 {
                t0.lo@[x]
            } else {
                t0.pos@[y] + 1
            },
        )
        &&& self.hi@ == t0.hi@.insert(y, t0.hi@[x]).insert(
            x,
            if dir == 0 {
                t0.pos@[y]
            } else {
                t0.hi@[x]
            },
        )
        &&& forall|i: int|
            0 <= i < t0.links@.len() ==> (#[trigger] self.links@[i]).color == t0.links@[i].color
    }

    /// Rotates around `x`: for `dir == 0` the right child of `x` moves up
    /// (left rotation), for `dir == 1` the left child does (right rotation).
    pub(crate) fn rotate(&mut self, x: usize, dir: usize)
        requires
            old(self).shape_ok(),
            old(self).linked(x),
            dir < 2,
            old(self).lk(x).child(1 - dir) != old(self).nil,
        ensures
            final(self).shape_ok(),
            final(self).rotated(*old(self), x, dir as int),
            final(self).bh == old(self).bh,
    {
        let ghost t0 = *self;
        proof {
            t0.lemma_rotate_distinct(x, dir as int);
        }
        let opp = 1 - dir;
        let y = self.child(x, opp);
        proof {
            t0.lemma_children(y);
        }
        let beta = self.child(y, dir);
        self.set_child(x, opp, beta);
        if beta != self.nil {
            self.set_parent(beta, x);
        }
        let xp = self.links[x].parent;
        self.set_parent(y, xp);
        if xp == self.nil {
            self.root = y;
        } else {
            let parent_dir: usize = if self.links[xp].right == x {
                1
            } else {
                0
            };
            self.set_child(xp, parent_dir, y);
        }
        self.set_child(y, dir, x);
        self.set_parent(x, y);
        proof {
            let ny = t0.lo@[x];
            let nyh = t0.hi@[x];
            let nxl = if dir == 0 {
                t0.lo@[x]
            } else {
                t0.pos@[y] + 1
            };
            let nxh = if dir == 0 {
                t0.pos@[y]
            } else {
                t0.hi@[x]
            };
            self.lo@ = self.lo@.insert(y, ny).insert(x, nxl);
            self.hi@ = self.hi@.insert(y, nyh).insert(x, nxh);
            self.lemma_rotate_shape(t0, x, dir as int);
        }
    }

    /// The nodes a rotation touches are distinct (`beta` and `xp` may be nil).
    pub(crate) proof fn lemma_rotate_distinct(&self, x: usize, dir: int)
        requires
            self.shape_ok(),
            self.linked(x),
            0 <= dir < 2,
            self.lk(x).child(1 - dir) != self.nil,
        ensures
            ({
                let y = self.lk(x).child(1 - dir);
                let beta = self.lk(y).child(dir);
                let xp = self.lk(x).parent;
                &&& self.linked(y)
                &&& self.lk(y).parent == x
                &&& x != y
                &&& beta != x
                &&& beta != y
                &&& xp != x
                &&& xp != y
                &&& (xp != self.nil ==> xp != beta)
                &&& (beta != self.nil ==> self.linked(beta) && self.lk(beta).parent == y)
                &&& (xp == self.nil <==> x == self.root)
                &&& (xp != self.nil ==> self.linked(xp) && (self.lk(xp).left == x || self.lk(
                    xp,
                ).right == x))
                &&& x != self.nil
                &&& y != self.nil
                &&& x < self.links@.len()
                &&& y < self.links@.len()
                &&& beta < self.links@.len()
                &&& xp < self.links@.len()
            }),
    {
        let y = self.lk(x).child(1 - dir);
        let beta = self.lk(y).child(dir);
        let xp = self.lk(x).parent;
        self.lemma_children(x);
        self.lemma_children(y);
        if x != self.root {
            self.lemma_children(xp);
        } else {
            assert(self.order@.len() > 0) by {
                assert(self.order@[self.pos@[x]] == x);
            }
        }
        if xp == self.nil && x != self.root {
            assert(false);
        }
    }

    /// After a rotation, every linked node has its local shape.
    #[verifier::rlimit(60)]
    pub(crate) proof fn lemma_rotate_node_shape(&self, t0: Self, x: usize, dir: int, m: usize)
        requires
            t0.shape_ok(),
            t0.linked(x),
            0 <= dir < 2,
            t0.lk(x).child(1 - dir) != t0.nil,
            self.rotated(t0, x, dir),
            t0.linked(m),
        ensures
            self.node_shape(m),
    {
        let opp = 1 - dir;
        let y = t0.lk(x).child(opp);
        let beta = t0.lk(y).child(dir);
        let xp = t0.lk(x).parent;
        let alpha = t0.lk(x).child(dir);
        let gamma = t0.lk(y).child(opp);
        t0.lemma_rotate_distinct(x, dir);
        t0.lemma_children(x);
        t0.lemma_children(y);
        t0.lemma_children(m);
        assert(self.linked(m));
        if m == x {
            if alpha != t0.nil {
                t0.lemma_children(alpha);
                assert(alpha != xp);
                assert(self.lk(alpha) == t0.lk(alpha));
            }
            if beta != t0.nil {
                t0.lemma_children(beta);
            }
        } else if m == y {
            if gamma != t0.nil {
                t0.lemma_children(gamma);
                assert(gamma != xp);
                assert(self.lk(gamma) == t0.lk(gamma));
            }
            if xp != t0.nil {
                t0.lemma_children(xp);
            }
        } else if m == beta {
            let l = t0.lk(m).left;
            let r = t0.lk(m).right;
            if l != t0.nil {
                t0.lemma_children(l);
                assert(self.lk(l) == t0.lk(l));
            }
            if r != t0.nil {
                t0.lemma_children(r);
                assert(self.lk(r) == t0.lk(r));
            }
        } else if m == xp {
            let l = t0.lk(m).left;
            let r = t0.lk(m).right;
            let p = t0.lk(m).parent;
            if l != t0.nil && l != x {
                t0.lemma_children(l);
                assert(self.lk(l) == t0.lk(l));
            }
            if r != t0.nil && r != x {
                t0.lemma_children(r);
                assert(self.lk(r) == t0.lk(r));
            }
            if m != t0.root {
                t0.lemma_children(p);
                assert(p != x && p != y && p != beta);
                assert(self.lk(p) == t0.lk(p));
            }
        } else {
            assert(self.lk(m) == t0.lk(m));
            let l = t0.lk(m).left;
            let r = t0.lk(m).right;
            let p = t0.lk(m).parent;
            if l != t0.nil {
                t0.lemma_children(l);
                assert(l != x && l != y && l != beta);
                if l != xp {
                    assert(self.lk(l) == t0.lk(l));
                }
            }
            if r != t0.nil {
                t0.lemma_children(r);
                assert(r != x && r != y && r != beta);
                if r != xp {
                    assert(self.lk(r) == t0.lk(r));
                }
            }
            if m != t0.root {
                t0.lemma_children(p);
                if p == x {
                    assert(m == alpha);
                } else if p == y {
                    assert(m == gamma);
                } else if p == beta {
                } else if p == xp {
                } else {
                    assert(self.lk(p) == t0.lk(p));
                }
            }
        }
    }

    /// A rotation keeps the shape invariant.
    pub(crate) proof fn lemma_rotate_shape(&self, t0: Self, x: usize, dir: int)
        requires
            t0.shape_ok(),
            t0.linked(x),
            0 <= dir < 2,
            t0.lk(x).child(1 - dir) != t0.nil,
            self.rotated(t0, x, dir),
        ensures
            self.shape_ok(),
    {
        let opp = 1 - dir;
        let y = t0.lk(x).child(opp);
        let beta = t0.lk(y).child(dir);
        let xp = t0.lk(x).parent;
        let alpha = t0.lk(x).child(dir);
        let gamma = t0.lk(y).child(opp);
        t0.lemma_rotate_distinct(x, dir);
        t0.lemma_children(x);
        t0.lemma_children(y);
        if beta != t0.nil {
            t0.lemma_children(beta);
        }
        if xp != t0.nil {
            t0.lemma_children(xp);
        }
        assert forall|m: usize| self.linked(m) implies #[trigger] self.node_shape(m) by {
            self.lemma_rotate_node_shape(t0, x, dir, m);
        }
        assert(self.links_in_range()) by {
            assert forall|i: int| 0 <= i < self.links@.len() implies {
                &&& (#[trigger] self.links@[i]).parent < self.links@.len()
                &&& self.links@[i].left < self.links@.len()
                &&& self.links@[i].right < self.links@.len()
            } by {
                assert(t0.links@[i].parent < t0.links@.len());
            }
        }
        assert(self.order_ok());
        assert(self.sorted()) by {
            assert forall|i: int, j: int| 0 <= i < j < self.order@.len() implies seq_lt(
                #[trigger] self.kv(self.order@[i]),
                #[trigger] self.kv(self.order@[j]),
            ) by {
                assert(seq_lt(t0.kv(t0.order@[i]), t0.kv(t0.order@[j])));
            }
        }
        if t0.order@.len() > 0 {
            t0.lemma_children(t0.root);
        }
        assert(self.root_ok());
    }
}

} // verus!
