//! Insertion: descending to an empty slot, linking the new node, and the fix-up.
use vstd::prelude::*;
use super::{Link, RBTree};
use crate::color::Color;
use crate::key::{
    lemma_compare_views, lemma_seq_lt_irreflexive, lemma_seq_lt_total, lemma_seq_lt_transitive,
    seq_lt, KeyOrder, TreeKey,
};

verus! {

impl<K: TreeKey> RBTree<K> {
    /// The other child of the parent of `n`.
    pub(crate) open spec fn sibling(&self, n: usize) -> usize {
        let p = self.lk(n).parent;
        if self.lk(p).left == n {
            self.lk(p).right
        } else {
            self.lk(p).left
        }
    }

    /// The fix-up loop of insertion: the only possible red-red pair is the red
    /// node `z` below its parent.
    pub(crate) open spec fn ins_inv(&self, z: usize) -> bool {
        let p = self.lk(z).parent;
        &&& self.shape_ok()
        &&& self.is_black(self.nil)
        &&& self.linked(z)
        &&& self.is_red(z)
        &&& (self.is_black(self.root) || z == self.root)
        &&& forall|n: usize| self.linked(n) ==> #[trigger] self.bh_ok(n)
        &&& forall|n: usize| self.linked(n) && n != p ==> #[trigger] self.red_ok(n)
        &&& (self.is_red(p) ==> self.is_black(self.sibling(z)))
    }

    /// What a fix-up may change: links and black heights of linked nodes (and
    /// the link of the sentinel), and the root.
    pub(crate) open spec fn fix_frame(&self, t0: Self) -> bool {
        &&& self.keys == t0.keys
        &&& self.nil == t0.nil
        &&& self.minimum == t0.minimum
        &&& self.order == t0.order
        &&& self.pos == t0.pos
        &&& self.links@.len() == t0.links@.len()
        &&& forall|i: int|
            0 <= i < t0.links@.len() && !t0.linked(i as usize) ==> #[trigger] self.links@[i]
                == t0.links@[i]
    }

    pub(crate) proof fn lemma_fix_frame_trans(&self, t0: Self, t1: Self)
        requires
            t1.fix_frame(t0),
            self.fix_frame(t1),
        ensures
            self.fix_frame(t0),
    {
        assert forall|i: int|
            0 <= i < t0.links@.len() && !t0.linked(i as usize) implies #[trigger] self.links@[i]
                == t0.links@[i] by {
            assert(t1.links@[i] == t0.links@[i]);
        }
    }

    pub(crate) proof fn lemma_rotated_frame(&self, t0: Self, x: usize, dir: int)
        requires
            t0.shape_ok(),
            t0.linked(x),
            0 <= dir < 2,
            t0.lk(x).child(1 - dir) != t0.nil,
            self.rotated(t0, x, dir),
        ensures
            self.fix_frame(t0),
    {
        t0.lemma_rotate_distinct(x, dir);
    }

    /// Changing colors and black heights keeps the shape.
    pub(crate) proof fn lemma_recolor_shape(&self, t0: Self)
        requires
            t0.shape_ok(),
            self.same_but_links_bh(t0),
            self.links@.len() == t0.links@.len(),
            forall|i: int|
                0 <= i < t0.links@.len() ==> (#[trigger] self.links@[i]).parent == t0.links@[i].parent
                    && self.links@[i].left == t0.links@[i].left && self.links@[i].right
                    == t0.links@[i].right,
        ensures
            self.shape_ok(),
    {
        assert forall|n: usize| self.linked(n) implies #[trigger] self.node_shape(n) by {
            t0.lemma_children(n);
            let l = t0.lk(n).left;
            let r = t0.lk(n).right;
            let q = t0.lk(n).parent;
            t0.lemma_in_range(n);
            assert(self.lk(n).parent == t0.lk(n).parent);
            assert(self.lk(l).parent == t0.lk(l).parent);
            assert(self.lk(r).parent == t0.lk(r).parent);
            assert(self.lk(q).left == t0.lk(q).left);
            assert(self.lk(q).right == t0.lk(q).right);
        }
        assert(self.links_in_range()) by {
            assert forall|i: int| 0 <= i < self.links@.len() implies {
                &&& (#[trigger] self.links@[i]).parent < self.links@.len()
                &&& self.links@[i].left < self.links@.len()
                &&& self.links@[i].right < self.links@.len()
            } by {
                assert(t0.links@[i].parent < t0.links@.len());
            }
        }
        assert(self.sorted()) by {
            assert forall|i: int, j: int| 0 <= i < j < self.order@.len() implies seq_lt(
                #[trigger] self.kv(self.order@[i]),
                #[trigger] self.kv(self.order@[j]),
            ) by {
                assert(seq_lt(t0.kv(t0.order@[i]), t0.kv(t0.order@[j])));
            }
        }
        if t0.order@.len() > 0 {
            t0.lemma_children(t0.root);
        }
        assert(self.root_ok());
    }

    /// The family of a red `z` whose parent is red.
    pub(crate) proof fn lemma_ins_family(&self, z: usize)
        requires
            self.ins_inv(z),
            self.is_red(self.lk(z).parent),
        ensures
            ({
                let p = self.lk(z).parent;
                let g = self.lk(p).parent;
                &&& z != self.root
                &&& p != self.root
                &&& self.linked(p)
                &&& self.linked(g)
                &&& self.lk(p).left == z || self.lk(p).right == z
                &&& self.lk(g).left == p || self.lk(g).right == p
                &&& self.is_black(g)
                &&& p != z
                &&& g != p
                &&& g != z
                &&& self.lk(g).left != self.lk(g).right
                &&& self.lk(p).left != self.lk(p).right
                &&& self.sibling(p) != self.nil ==> self.linked(self.sibling(p))
                &&& self.sibling(p) != p
            }),
    {
        let p = self.lk(z).parent;
        self.lemma_children(z);
        if z == self.root {
            assert(p == self.nil);
        }
        self.lemma_children(p);
        if p == self.root {
            assert(false);
        }
        let g = self.lk(p).parent;
        self.lemma_children(g);
        assert(self.red_ok(g));
    }

    /// Case 1 of the insertion fix-up: the uncle is red, so parent and uncle
    /// turn black, the grandparent red, and the violation moves up.
    #[verifier::rlimit(60)]
    pub(crate) proof fn lemma_ins_recolor(&self, t0: Self, z: usize)
        requires
            t0.ins_inv(z),
            t0.is_red(t0.lk(z).parent),
            t0.is_red(t0.sibling(t0.lk(z).parent)),
            ({
                let p = t0.lk(z).parent;
                let g = t0.lk(p).parent;
                let u = t0.sibling(p);
                &&& self.links@ == t0.links@.update(
                    p as int,
                    Link { color: Color::BLACK, ..t0.lk(p) },
                ).update(u as int, Link { color: Color::BLACK, ..t0.lk(u) }).update(
                    g as int,
                    Link { color: Color::RED, ..t0.lk(g) },
                )
                &&& self.bh@ == t0.bh@.insert(p, t0.bh@[p] + 1).insert(u, t0.bh@[u] + 1)
            }),
            self.keys == t0.keys,
            self.root == t0.root,
            self.nil == t0.nil,
            self.minimum == t0.minimum,
            self.order == t0.order,
            self.pos == t0.pos,
            self.lo == t0.lo,
            self.hi == t0.hi,
        ensures
            self.ins_inv(t0.lk(t0.lk(z).parent).parent),
            self.fix_frame(t0),
            t0.hi@[z] - t0.lo@[z] < self.hi@[t0.lk(t0.lk(z).parent).parent] - self.lo@[t0.lk(
                t0.lk(z).parent,
            ).parent],
    {
        let p = t0.lk(z).parent;
        let g = t0.lk(p).parent;
        let u = t0.sibling(p);
        t0.lemma_ins_family(z);
        t0.lemma_children(z);
        t0.lemma_children(p);
        t0.lemma_children(g);
        t0.lemma_children(u);
        assert(self.lk(g).parent == t0.lk(g).parent);
        assert forall|n: usize| self.linked(n) implies #[trigger] self.node_shape(n) by {
            t0.lemma_children(n);
            assert(self.lk(n).left == t0.lk(n).left);
            assert(self.lk(n).right == t0.lk(n).right);
            assert(self.lk(n).parent == t0.lk(n).parent);
            let l = t0.lk(n).left;
            let r = t0.lk(n).right;
            let q = t0.lk(n).parent;
            assert(self.lk(l).parent == t0.lk(l).parent);
            assert(self.lk(r).parent == t0.lk(r).parent);
            assert(self.lk(q).left == t0.lk(q).left);
            assert(self.lk(q).right == t0.lk(q).right);
        }
        assert(self.links_in_range()) by {
            assert forall|i: int| 0 <= i < self.links@.len() implies {
                &&& (#[trigger] self.links@[i]).parent < self.links@.len()
                &&& self.links@[i].left < self.links@.len()
                &&& self.links@[i].right < self.links@.len()
            } by {
                assert(t0.links@[i].parent < t0.links@.len());
            }
        }
        assert(self.sorted()) by {
            assert forall|i: int, j: int| 0 <= i < j < self.order@.len() implies seq_lt(
                #[trigger] self.kv(self.order@[i]),
                #[trigger] self.kv(self.order@[j]),
            ) by {
                assert(seq_lt(t0.kv(t0.order@[i]), t0.kv(t0.order@[j])));
            }
        }
        if t0.order@.len() > 0 {
            t0.lemma_children(t0.root);
        }
        assert(self.root_ok());
        assert(self.shape_ok());
        assert forall|n: usize| self.linked(n) implies #[trigger] self.bh_ok(n) by {
            assert(t0.bh_ok(n));
            t0.lemma_children(n);
        }
        let gg = t0.lk(g).parent;
        assert forall|n: usize| self.linked(n) && n != gg implies #[trigger] self.red_ok(n) by {
            t0.lemma_children(n);
            if n != p {
                assert(t0.red_ok(n));
            }
        }
        if self.is_red(gg) {
            t0.lemma_children(gg);
            assert(t0.red_ok(gg));
        }
        if g != t0.root {
            assert(t0.is_black(t0.root));
        }
    }

    /// Case 2 of the insertion fix-up: `z` is an inner child, and rotating its
    /// parent turns the pair into an outer one, with the old parent as the new
    /// `z`.
    #[verifier::rlimit(60)]
    pub(crate) proof fn lemma_ins_inner(&self, t0: Self, z: usize, dir: int)
        requires
            t0.ins_inv(z),
            0 <= dir < 2,
            ({
                let p = t0.lk(z).parent;
                let g = t0.lk(p).parent;
                &&& t0.is_red(p)
                &&& t0.lk(g).child(dir) == p
                &&& t0.is_black(t0.lk(g).child(1 - dir))
                &&& t0.lk(p).child(1 - dir) == z
                &&& self.rotated(t0, p, dir)
            }),
            self.shape_ok(),
            self.bh == t0.bh,
        ensures
            ({
                let p = t0.lk(z).parent;
                let g = t0.lk(p).parent;
                &&& self.ins_inv(p)
                &&& self.fix_frame(t0)
                &&& self.lk(p).parent == z
                &&& self.lk(z).parent == g
                &&& self.lk(g).child(dir) == z
                &&& self.lk(z).child(dir) == p
                &&& self.lk(g).child(1 - dir) == t0.lk(g).child(1 - dir)
                &&& self.is_red(z)
                &&& self.is_red(p)
                &&& self.is_black(self.lk(g).child(1 - dir))
            }),
    {
        let p = t0.lk(z).parent;
        let g = t0.lk(p).parent;
        let u = t0.lk(g).child(1 - dir);
        let alpha = t0.lk(p).child(dir);
        let beta = t0.lk(z).child(dir);
        let gamma = t0.lk(z).child(1 - dir);
        t0.lemma_ins_family(z);
        t0.lemma_rotate_distinct(p, dir);
        self.lemma_rotated_frame(t0, p, dir);
        t0.lemma_children(z);
        t0.lemma_children(p);
        t0.lemma_children(g);
        assert(t0.sibling(z) == alpha);
        assert(t0.red_ok(z));
        assert(t0.bh_ok(z));
        assert(t0.bh_ok(p));
        assert(t0.bh_ok(g));
        assert(self.lk(t0.nil) == t0.lk(t0.nil));
        assert forall|n: usize| self.linked(n) implies #[trigger] self.bh_ok(n) by {
            assert(t0.bh_ok(n));
            t0.lemma_children(n);
            if n != z && n != p && n != g && n != beta {
                assert(self.lk(n) == t0.lk(n));
            }
            if beta != t0.nil {
                t0.lemma_children(beta);
            }
        }
        assert forall|n: usize| self.linked(n) && n != z implies #[trigger] self.red_ok(n) by {
            t0.lemma_children(n);
            if n != p {
                assert(t0.red_ok(n));
            }
            if n != z && n != p && n != g && n != beta {
                assert(self.lk(n) == t0.lk(n));
            }
        }
        assert(self.sibling(p) == gamma);
        assert(t0.is_black(t0.root));
        assert(self.is_black(self.nil));
        assert(self.linked(p));
        assert(self.is_red(p));
        assert(t0.linked(t0.root)) by {
            assert(t0.order@[t0.pos@[z]] == z);
        }
        t0.lemma_children(t0.root);
        assert(self.root == t0.root);
        assert(self.links@[t0.root as int].color == t0.links@[t0.root as int].color);
        assert(self.is_black(self.root) || p == self.root);
        assert(self.lk(p).parent == z);
        assert(self.is_red(self.lk(p).parent) ==> self.is_black(self.sibling(p)));
        assert(self.ins_inv(p));
        assert(self.lk(p).parent == z);
        assert(self.lk(z).parent == g);
        assert(self.lk(g).child(dir) == z);
        assert(self.lk(z).child(dir) == p);
        assert(self.lk(g).child(1 - dir) == t0.lk(g).child(1 - dir));
        assert(self.is_red(z));
        assert(self.is_red(p));
    }

    /// Case 3 of the insertion fix-up: `z` is an outer child; the parent turns
    /// black, the grandparent red, and rotating the grandparent ends the
    /// fix-up.
    #[verifier::rlimit(60)]
    pub(crate) proof fn lemma_ins_outer(&self, t0: Self, t1: Self, z: usize, dir: int)
        requires
            t0.ins_inv(z),
            0 <= dir < 2,
            ({
                let p = t0.lk(z).parent;
                let g = t0.lk(p).parent;
                &&& t0.is_red(p)
                &&& t0.lk(g).child(dir) == p
                &&& t0.is_black(t0.lk(g).child(1 - dir))
                &&& t0.lk(p).child(dir) == z
                &&& t1.links@ == t0.links@.update(
                    p as int,
                    Link { color: Color::BLACK, ..t0.lk(p) },
                ).update(g as int, Link { color: Color::RED, ..t0.lk(g) })
                &&& t1.same_but_links(t0)
                &&& self.rotated(t1, g, 1 - dir)
                &&& self.bh@ == t0.bh@.insert(p, t0.bh@[g]).insert(g, t0.bh@[g] - 1)
            }),
            self.shape_ok(),
            self.root == t1.root || t1.root == t1.lk(t1.lk(z).parent).parent,
        ensures
            self.ins_inv(z),
            self.is_black(self.lk(z).parent),
            self.fix_frame(t0),
    {
        let p = t0.lk(z).parent;
        let g = t0.lk(p).parent;
        let u = t0.lk(g).child(1 - dir);
        let beta = t0.lk(p).child(1 - dir);
        let gg = t0.lk(g).parent;
        t0.lemma_ins_family(z);
        t0.lemma_children(z);
        t0.lemma_children(p);
        t0.lemma_children(g);
        assert(t1.shape_ok()) by {
            assert forall|n: usize| t1.linked(n) implies #[trigger] t1.node_shape(n) by {
                t0.lemma_children(n);
                let l = t0.lk(n).left;
                let r = t0.lk(n).right;
                let q = t0.lk(n).parent;
                assert(t1.lk(l).parent == t0.lk(l).parent);
                assert(t1.lk(r).parent == t0.lk(r).parent);
                assert(t1.lk(q).left == t0.lk(q).left);
                assert(t1.lk(q).right == t0.lk(q).right);
            }
            assert(t1.links_in_range()) by {
                assert forall|i: int| 0 <= i < t1.links@.len() implies {
                    &&& (#[trigger] t1.links@[i]).parent < t1.links@.len()
                    &&& t1.links@[i].left < t1.links@.len()
                    &&& t1.links@[i].right < t1.links@.len()
                } by {
                    assert(t0.links@[i].parent < t0.links@.len());
                }
            }
            assert(t1.sorted()) by {
                assert forall|i: int, j: int| 0 <= i < j < t1.order@.len() implies seq_lt(
                    #[trigger] t1.kv(t1.order@[i]),
                    #[trigger] t1.kv(t1.order@[j]),
                ) by {
                    assert(seq_lt(t0.kv(t0.order@[i]), t0.kv(t0.order@[j])));
                }
            }
            if t0.order@.len() > 0 {
                t0.lemma_children(t0.root);
            }
            assert(t1.root_ok());
        }
        t1.lemma_rotate_distinct(g, 1 - dir);
        self.lemma_rotated_frame(t1, g, 1 - dir);
        assert(t1.fix_frame(t0));
        self.lemma_fix_frame_trans(t1, t0);
        assert(t0.sibling(z) == beta);
        assert(t0.red_ok(z));
        assert(t0.bh_ok(z));
        assert(t0.bh_ok(p));
        assert(t0.bh_ok(g));
        assert(self.lk(t0.nil) == t0.lk(t0.nil));
        if u != t0.nil {
            t0.lemma_children(u);
        }
        if beta != t0.nil {
            t0.lemma_children(beta);
        }
        if gg != t0.nil {
            t0.lemma_children(gg);
        }
        assert forall|n: usize| self.linked(n) implies #[trigger] self.bh_ok(n) by {
            assert(t0.bh_ok(n));
            t0.lemma_children(n);
            if n != p && n != g && n != beta && n != gg {
                assert(self.lk(n) == t0.lk(n));
            }
        }
        assert forall|n: usize| self.linked(n) && n != p implies #[trigger] self.red_ok(n) by {
            t0.lemma_children(n);
            if n != p {
                assert(t0.red_ok(n));
            }
            if n != p && n != g && n != beta && n != gg {
                assert(self.lk(n) == t0.lk(n));
            }
        }
        assert(t0.is_black(t0.root));
        assert(self.is_black(self.nil));
        assert(self.linked(z));
        assert(self.is_red(z));
        assert(self.lk(z).parent == p);
        assert(self.is_black(p));
        assert(t0.linked(t0.root)) by {
            assert(t0.order@[t0.pos@[z]] == z);
        }
        t0.lemma_children(t0.root);
        if t0.root != g {
            assert(t0.root != p);
            assert(self.root == t0.root);
            assert(t1.links@[t0.root as int] == t0.links@[t0.root as int]);
            assert(self.links@[t0.root as int].color == t1.links@[t0.root as int].color);
        }
        assert(self.is_black(self.root) || z == self.root);
    }

    /// After the fix-up loop the only possible fault is a red root.
    pub(crate) proof fn lemma_ins_finish(&self, t0: Self, z: usize)
        requires
            t0.ins_inv(z),
            t0.is_black(t0.lk(z).parent),
            self.links@ == t0.links@.update(
                t0.root as int,
                Link { color: Color::BLACK, ..t0.lk(t0.root) },
            ),
            self.bh@ == (if t0.is_red(t0.root) {
                t0.bh@.insert(t0.root, t0.bh@[t0.root] + 1)
            } else {
                t0.bh@
            }),
            self.same_but_links_bh(t0),
        ensures
            self.shape_ok(),
            self.is_black(self.nil),
            self.is_black(self.root),
            forall|n: usize| self.linked(n) ==> #[trigger] self.node_rb(n),
            self.fix_frame(t0),
    {
        let r = t0.root;
        t0.lemma_children(z);
        assert(t0.linked(r)) by {
            assert(t0.order@[t0.pos@[z]] == z);
        }
        t0.lemma_children(r);
        assert forall|n: usize| self.linked(n) implies #[trigger] self.node_shape(n) by {
            t0.lemma_children(n);
            let l = t0.lk(n).left;
            let rr = t0.lk(n).right;
            let q = t0.lk(n).parent;
            assert(self.lk(l).parent == t0.lk(l).parent);
            assert(self.lk(rr).parent == t0.lk(rr).parent);
            assert(self.lk(q).left == t0.lk(q).left);
            assert(self.lk(q).right == t0.lk(q).right);
        }
        assert(self.links_in_range()) by {
            assert forall|i: int| 0 <= i < self.links@.len() implies {
                &&& (#[trigger] self.links@[i]).parent < self.links@.len()
                &&& self.links@[i].left < self.links@.len()
                &&& self.links@[i].right < self.links@.len()
            } by {
                assert(t0.links@[i].parent < t0.links@.len());
            }
        }
        assert(self.sorted()) by {
            assert forall|i: int, j: int| 0 <= i < j < self.order@.len() implies seq_lt(
                #[trigger] self.kv(self.order@[i]),
                #[trigger] self.kv(self.order@[j]),
            ) by {
                assert(seq_lt(t0.kv(t0.order@[i]), t0.kv(t0.order@[j])));
            }
        }
        assert(self.root_ok());
        assert forall|n: usize| self.linked(n) implies #[trigger] self.node_rb(n) by {
            assert(t0.bh_ok(n));
            t0.lemma_children(n);
            if n != t0.lk(z).parent {
                assert(t0.red_ok(n));
            }
        }
    }

    pub(crate) open spec fn same_but_links_bh(&self, t0: Self) -> bool {
        &&& self.keys == t0.keys
        &&& self.root == t0.root
        &&& self.nil == t0.nil
        &&& self.minimum == t0.minimum
        &&& self.order == t0.order
        &&& self.pos == t0.pos
        &&& self.lo == t0.lo
        &&& self.hi == t0.hi
    }

    pub(crate) open spec fn ins_measure(&self, z: usize) -> int {
        if self.is_black(self.lk(z).parent) {
            0
        } else {
            1 + self.order@.len() - (self.hi@[z] - self.lo@[z])
        }
    }

    /// One round of the insertion fix-up on a red `z` below a red parent.
    #[verifier::rlimit(80)]
    pub(crate) fn fix_insert_step(&mut self, z0: usize) -> (z: usize)
        requires
            old(self).ins_inv(z0),
            old(self).is_red(old(self).lk(z0).parent),
        ensures
            final(self).ins_inv(z),
            final(self).fix_frame(*old(self)),
            z < final(self).links@.len(),
            final(self).lk(z).parent < final(self).links@.len(),
            final(self).ins_measure(z) < old(self).ins_measure(z0),
            0 <= final(self).ins_measure(z),
    {
        let ghost start = *self;
        let mut z = z0;
        let ghost t0 = *self;
        proof {
            self.lemma_ins_family(z);
            self.lemma_children(z);
        }
        let zp = self.links[z].parent;
        let gp = self.links[zp].parent;
        let dir: usize = if self.links[gp].right == zp {
            1
        } else {
            0
        };
        let opp = 1 - dir;
        let u = self.child(gp, opp);
        proof {
            assert(u == t0.sibling(zp));
            if u != self.nil {
                self.lemma_children(u);
            }
        }
        if self.links[u].color == Color::RED {
            self.set_color(zp, Color::BLACK);
            self.set_color(u, Color::BLACK);
            self.set_color(gp, Color::RED);
            proof {
                self.bh@ = self.bh@.insert(zp, self.bh@[zp] + 1).insert(u, self.bh@[u] + 1);
                self.lemma_ins_recolor(t0, z);
                self.lemma_fix_frame_trans(t0, start);
            }
            z = gp;
            proof {
                self.lemma_children(z);
                self.lemma_in_range(z);
            }
        } else {
            if z == self.child(zp, opp) {
                let ghost ta = *self;
                let ghost old_z = z;
                z = zp;
                self.rotate(z, dir);
                proof {
                    self.lemma_ins_inner(ta, old_z, dir as int);
                    self.lemma_fix_frame_trans(ta, start);
                }
            } else {
                proof {
                    assert(self.lk(zp).child(dir as int) == z);
                }
            }
            let ghost tb = *self;
            proof {
                self.lemma_ins_family(z);
                self.lemma_children(z);
            }
            let cp = self.links[z].parent;
            let cgp = self.links[cp].parent;
            proof {
                assert(tb.lk(cgp).child(dir as int) == cp);
                assert(tb.is_black(tb.lk(cgp).child(1 - dir)));
                assert(tb.lk(cp).child(dir as int) == z);
                assert(tb.is_red(cp));
            }
            self.set_color(cp, Color::BLACK);
            self.set_color(cgp, Color::RED);
            let ghost t1 = *self;
            proof {
                self.lemma_recolor_shape(tb);
            }
            self.rotate(cgp, opp);
            let ghost t2 = *self;
            proof {
                self.bh@ = tb.bh@.insert(cp, tb.bh@[cgp]).insert(cgp, tb.bh@[cgp] - 1);
                self.lemma_recolor_shape(t2);
                assert(t1.same_but_links(tb));
                assert(t1.links@ == tb.links@.update(
                    cp as int,
                    Link { color: Color::BLACK, ..tb.lk(cp) },
                ).update(cgp as int, Link { color: Color::RED, ..tb.lk(cgp) }));
                assert(self.rotated(t1, cgp, 1 - dir as int));
                assert(self.bh@ == tb.bh@.insert(cp, tb.bh@[cgp]).insert(cgp, tb.bh@[cgp] - 1));
                self.lemma_ins_outer(tb, t1, z, dir as int);
                self.lemma_fix_frame_trans(tb, start);
                self.lemma_children(z);
                self.lemma_in_range(z);
            }
        }
        z
    }

    /// Positions after `node` is placed at index `g` of the order.
    pub(crate) open spec fn ins_pos(&self, node: usize, g: int) -> Map<usize, int> {
        Map::new(
            |m: usize| self.linked(m) || m == node,
            |m: usize|
                if m == node {
                    g
                } else if self.pos@[m] >= g {
                    self.pos@[m] + 1
                } else {
                    self.pos@[m]
                },
        )
    }

    /// Range starts after `node` is placed at index `g` of the order.
    pub(crate) open spec fn ins_lo(&self, node: usize, g: int) -> Map<usize, int> {
        Map::new(
            |m: usize| self.linked(m) || m == node,
            |m: usize|
                if m == node {
                    g
                } else if g < self.lo@[m] {
                    self.lo@[m] + 1
                } else {
                    self.lo@[m]
                },
        )
    }

    /// Range ends after `node` is placed at index `g` of the order.
    pub(crate) open spec fn ins_hi(&self, node: usize, g: int) -> Map<usize, int> {
        Map::new(
            |m: usize| self.linked(m) || m == node,
            |m: usize|
                if m == node {
                    g + 1
                } else if g <= self.hi@[m] {
                    self.hi@[m] + 1
                } else {
                    self.hi@[m]
                },
        )
    }

    /// Two neighbours in the order cannot both have an empty slot between
    /// them: the right child of the first or the left child of the second is
    /// a node.
    pub(crate) proof fn lemma_adjacent(&self, v: usize, g: int)
        requires
            self.shape_ok(),
            self.linked(v),
            self.lo@[v] <= g - 1,
            g < self.hi@[v],
        ensures
            !(self.lk(self.order@[g - 1]).right == self.nil && self.lk(self.order@[g]).left
                == self.nil),
        decreases self.hi@[v] - self.lo@[v],
    {
        self.lemma_children(v);
        self.lemma_at(g - 1);
        self.lemma_at(g);
        let p = self.pos@[v];
        if p == g {
        } else if p == g - 1 {
        } else if p > g {
            self.lemma_adjacent(self.lk(v).left, g);
        } else {
            self.lemma_adjacent(self.lk(v).right, g);
        }
    }

    /// The exact changes `insert` makes when it links `node` below `y`.
    pub(crate) open spec fn linked_in(&self, t0: Self, node: usize, y: usize, dir: int, g: int) -> bool {
        &&& self.links@ == t0.links@.update(
            node as int,
            Link { color: Color::RED, parent: y, left: t0.nil, right: t0.nil },
        ).update(y as int, t0.lk(y).with_child(dir, node))
        &&& self.keys == t0.keys
        &&& self.root == t0.root
        &&& self.nil == t0.nil
        &&& self.order@ == t0.order@.insert(g, node)
        &&& self.pos@ == t0.ins_pos(node, g)
        &&& self.lo@ == t0.ins_lo(node, g)
        &&& self.hi@ == t0.ins_hi(node, g)
        &&& self.bh@ == t0.bh@.insert(node, 1)
    }

    /// The conditions under which `insert` links `node` below `y`: `node` is new,
    /// the slot of `y` in direction `dir` is empty, and `g` is where the key of
    /// `node` belongs in the order.
    pub(crate) open spec fn link_slot(&self, node: usize, y: usize, dir: int, g: int) -> bool {
        &&& node < self.links@.len()
        &&& node != self.nil
        &&& !self.linked(node)
        &&& self.linked(y)
        &&& 0 <= dir < 2
        &&& self.lk(y).child(dir) == self.nil
        &&& g == (if dir == 0 {
            self.pos@[y]
        } else {
            self.pos@[y] + 1
        })
        &&& forall|i: int| 0 <= i < g ==> seq_lt(#[trigger] self.kv(self.order@[i]), self.kv(node))
        &&& forall|i: int|
            g <= i < self.order@.len() ==> seq_lt(self.kv(node), #[trigger] self.kv(self.order@[i]))
    }

    #[verifier::rlimit(80)]
    pub(crate) proof fn lemma_insert_node_shape(
        &self,
        t0: Self,
        node: usize,
        y: usize,
        dir: int,
        g: int,
        m: usize,
    )
        requires
            t0.wf(),
            t0.link_slot(node, y, dir, g),
            self.linked_in(t0, node, y, dir, g),
            self.linked(m),
        ensures
            self.node_shape(m),
    {
        t0.lemma_children(y);
        assert(0 <= g <= t0.order@.len());
        if m == node {
            assert(self.order@[g] == node);
            if y != t0.root {
                t0.lemma_children(t0.lk(y).parent);
            }
        } else {
            assert(t0.linked(m));
            t0.lemma_children(m);
            let l = t0.lk(m).left;
            let r = t0.lk(m).right;
            let p = t0.lk(m).parent;
            assert(self.order@[self.pos@[m]] == m);
            if l != t0.nil {
                t0.lemma_children(l);
            }
            if r != t0.nil {
                t0.lemma_children(r);
            }
            if m != t0.root {
                t0.lemma_children(p);
            }
            if m != y {
                assert(self.lk(m) == t0.lk(m));
                if l == t0.nil && g == t0.pos@[m] {
                    assert(dir == 1);
                    t0.lemma_at(g);
                    t0.lemma_at(g - 1);
                    t0.lemma_adjacent(t0.root, g);
                }
                if r == t0.nil && g == t0.pos@[m] + 1 {
                    assert(dir == 0);
                    t0.lemma_at(g);
                    t0.lemma_at(g - 1);
                    t0.lemma_adjacent(t0.root, g);
                }
            }
        }
    }

    /// Linking a new red node into an empty slot leaves only a possible
    /// red-red pair at the new node.
    #[verifier::rlimit(80)]
    pub(crate) proof fn lemma_insert_link(&self, t0: Self, node: usize, y: usize, dir: int, g: int)
        requires
            t0.wf(),
            t0.link_slot(node, y, dir, g),
            self.linked_in(t0, node, y, dir, g),
        ensures
            self.ins_inv(node),
    {
        t0.lemma_children(y);
        assert(0 <= g <= t0.order@.len());
        assert forall|m: usize| self.linked(m) implies #[trigger] self.node_shape(m) by {
            self.lemma_insert_node_shape(t0, node, y, dir, g, m);
        }
        assert(self.links_in_range()) by {
            assert forall|i: int| 0 <= i < self.links@.len() implies {
                &&& (#[trigger] self.links@[i]).parent < self.links@.len()
                &&& self.links@[i].left < self.links@.len()
                &&& self.links@[i].right < self.links@.len()
            } by {
                assert(t0.links@[i].parent < t0.links@.len());
            }
        }
        assert(self.order_ok()) by {
            assert forall|i: int| 0 <= i < self.order@.len() implies self.linked(
                #[trigger] self.order@[i],
            ) && self.pos@[self.order@[i]] == i by {
                if i < g {
                    t0.lemma_at(i);
                } else if i > g {
                    t0.lemma_at(i - 1);
                }
            }
        }
        assert(self.sorted()) by {
            assert forall|i: int, j: int| 0 <= i < j < self.order@.len() implies seq_lt(
                #[trigger] self.kv(self.order@[i]),
                #[trigger] self.kv(self.order@[j]),
            ) by {
                if i < g && j < g {
                    assert(self.order@[i] == t0.order@[i]);
                    assert(self.order@[j] == t0.order@[j]);
                    assert(seq_lt(t0.kv(t0.order@[i]), t0.kv(t0.order@[j])));
                } else if i < g && j == g {
                    assert(self.order@[i] == t0.order@[i]);
                    assert(self.order@[j] == node);
                    assert(seq_lt(t0.kv(t0.order@[i]), t0.kv(node)));
                } else if i < g && j > g {
                    assert(self.order@[i] == t0.order@[i]);
                    assert(self.order@[j] == t0.order@[j - 1]);
                    assert(seq_lt(t0.kv(t0.order@[i]), t0.kv(node)));
                    assert(seq_lt(t0.kv(node), t0.kv(t0.order@[j - 1])));
                    lemma_seq_lt_transitive(
                        t0.kv(t0.order@[i]),
                        t0.kv(node),
                        t0.kv(t0.order@[j - 1]),
                    );
                } else if i == g {
                    assert(self.order@[i] == node);
                    assert(self.order@[j] == t0.order@[j - 1]);
                    assert(seq_lt(t0.kv(node), t0.kv(t0.order@[j - 1])));
                } else {
                    assert(self.order@[i] == t0.order@[i - 1]);
                    assert(self.order@[j] == t0.order@[j - 1]);
                    assert(seq_lt(t0.kv(t0.order@[i - 1]), t0.kv(t0.order@[j - 1])));
                }
            }
        }
        t0.lemma_children(t0.root);
        assert(t0.linked(t0.root));
        assert(self.root_ok());
        assert(self.shape_ok());
        assert forall|n: usize| self.linked(n) implies #[trigger] self.bh_ok(n) by {
            if n != node {
                assert(t0.node_rb(n));
                t0.lemma_children(n);
            }
        }
        assert forall|n: usize| self.linked(n) && n != y implies #[trigger] self.red_ok(n) by {
            if n != node {
                assert(t0.node_rb(n));
                t0.lemma_children(n);
            }
        }
        assert(t0.node_rb(y));
        assert(self.lk(node).parent == y);
        assert(self.is_black(self.root));
    }

    /// Linking the first node into an empty tree.
    pub(crate) proof fn lemma_insert_first(&self, t0: Self, node: usize)
        requires
            t0.wf(),
            t0.order@.len() == 0,
            node < t0.links@.len(),
            node != t0.nil,
            self.links@ == t0.links@.update(
                node as int,
                Link { color: Color::BLACK, parent: t0.nil, left: t0.nil, right: t0.nil },
            ),
            self.keys == t0.keys,
            self.nil == t0.nil,
            self.root == node,
            self.minimum == node,
            self.order@ == seq![node],
            self.pos@ == map![node => 0int],
            self.lo@ == map![node => 0int],
            self.hi@ == map![node => 1int],
            self.bh@ == map![node => 2int],
        ensures
            self.wf(),
    {
        assert forall|m: usize| self.linked(m) implies #[trigger] self.node_shape(m) by {
            assert(m == node);
        }
        assert(self.links_in_range()) by {
            assert forall|i: int| 0 <= i < self.links@.len() implies {
                &&& (#[trigger] self.links@[i]).parent < self.links@.len()
                &&& self.links@[i].left < self.links@.len()
                &&& self.links@[i].right < self.links@.len()
            } by {
                assert(t0.links@[i].parent < t0.links@.len());
            }
        }
        assert(self.order_ok());
        assert(self.root_ok());
        assert forall|n: usize| self.linked(n) implies #[trigger] self.node_rb(n) by {
            assert(n == node);
        }
        assert(self.links@[t0.nil as int] == t0.links@[t0.nil as int]);
    }

    /// Inserts `node` into the tree.
    ///
    /// Returns `false`, leaving the tree untouched, when a node with an equal
    /// key is already linked (`node` itself included); otherwise links `node`
    /// at the place its key belongs and returns `true`.
    pub fn insert(&mut self, node: usize) -> (r: bool)
        requires
            old(self).wf(),
            node < old(self).slot_count(),
            node != old(self).nil_spec(),
        ensures
            final(self).wf(),
            r == forall|i: int|
                0 <= i < old(self)@.len() ==> old(self).key_of(#[trigger] old(self)@[i])
                    != old(self).key_of(node),
            !r ==> *final(self) == *old(self),
            r ==> exists|g: int| 0 <= g <= old(self)@.len() && final(self)@ == old(self)@.insert(g, node),
            r ==> final(self)@.contains(node),
            final(self).slot_count() == old(self).slot_count(),
            final(self).nil_spec() == old(self).nil_spec(),
            forall|i: usize| #[trigger] final(self).key_at(i) == old(self).key_at(i),
            forall|i: usize|
                i < old(self).slot_count() && !final(self)@.contains(i)
                    ==> #[trigger] final(self).slot_unchanged(*old(self), i),
    {
        let ghost t0 = *self;
        let mut node_y = self.nil;
        let mut node_x = self.root;
        let ghost mut a: int = 0;
        let ghost mut b: int = self.order@.len() as int;
        proof {
            if self.order@.len() > 0 {
                assert(self.linked(self.root));
            }
        }
        while node_x != self.nil
            invariant
                *self == t0,
                t0.wf(),
                node < self.links@.len(),
                node != self.nil,
                node_x == self.nil || self.linked(node_x),
                node_y == self.nil || self.linked(node_y),
                0 <= a <= b <= self.order@.len(),
                forall|i: int| 0 <= i < a ==> seq_lt(#[trigger] self.kv(self.order@[i]), self.kv(node)),
                forall|i: int|
                    b <= i < self.order@.len() ==> seq_lt(self.kv(node), #[trigger] self.kv(self.order@[i])),
                node_x != self.nil ==> self.lo@[node_x] == a && self.hi@[node_x] == b,
                node_y == self.nil ==> node_x == self.root && a == 0 && b == self.order@.len(),
                node_y != self.nil ==> (self.lk(node_y).left == node_x && a == self.lo@[node_y]
                    && b == self.pos@[node_y] && seq_lt(self.kv(node), self.kv(node_y))) || (
                self.lk(node_y).right == node_x && a == self.pos@[node_y] + 1 && b
                    == self.hi@[node_y] && seq_lt(self.kv(node_y), self.kv(node))),
            decreases
                if node_x == self.nil {
                    0
                } else {
                    self.hi@[node_x] - self.lo@[node_x]
                },
        {
            proof {
                self.lemma_children(node_x);
            }
            node_y = node_x;
            let ord = self.keys[node].compare(&self.keys[node_x]);
            proof {
                lemma_compare_views(self.kv(node), self.kv(node_x));
            }
            if ord == KeyOrder::Equal {
                proof {
                    let i = self.pos@[node_x];
                    assert(self@[i] == node_x);
                    assert(self.key_of(self@[i]) == self.key_of(node));
                }
                return false;
            }
            let dir: usize = if ord == KeyOrder::Greater {
                1
            } else {
                0
            };
            proof {
                let p = self.pos@[node_x];
                if dir == 0 {
                    assert forall|i: int| p <= i < self.order@.len() implies seq_lt(
                        self.kv(node),
                        #[trigger] self.kv(self.order@[i]),
                    ) by {
                        self.lemma_sorted_at(p, i);
                        if i > p {
                            lemma_seq_lt_transitive(
                                self.kv(node),
                                self.kv(node_x),
                                self.kv(self.order@[i]),
                            );
                        }
                    }
                    b = p;
                } else {
                    assert forall|i: int| 0 <= i <= p implies seq_lt(
                        #[trigger] self.kv(self.order@[i]),
                        self.kv(node),
                    ) by {
                        self.lemma_sorted_at(i, p);
                        if i < p {
                            lemma_seq_lt_transitive(
                                self.kv(self.order@[i]),
                                self.kv(node_x),
                                self.kv(node),
                            );
                        }
                    }
                    a = p + 1;
                }
            }
            node_x = self.child(node_x, dir);
        }
        proof {
            assert(a == b) by {
                if node_y != self.nil {
                    self.lemma_children(node_y);
                } else {
                    assert(self.order@.len() == 0);
                }
            }
            assert forall|i: int| 0 <= i < old(self)@.len() implies old(self).key_of(
                #[trigger] old(self)@[i],
            ) != old(self).key_of(node) by {
                assert(self.kv(self.order@[i]) == old(self).key_of(old(self)@[i]));
                lemma_seq_lt_total(self.kv(self.order@[i]), self.kv(node));
            }
            if self.linked(node) {
                let i = self.pos@[node];
                self.lemma_children(node);
                assert(self.kv(self.order@[i]) == self.kv(node));
                lemma_seq_lt_irreflexive(self.kv(node));
            }
        }
        let nil = self.nil;
        self.set_parent(node, node_y);
        self.set_color(node, Color::RED);
        self.set_child(node, 0, nil);
        self.set_child(node, 1, nil);
        if node_y == nil {
            self.root = node;
            self.minimum = node;
            self.set_color(node, Color::BLACK);
            proof {
                self.order@ = seq![node];
                self.pos@ = map![node => 0int];
                self.lo@ = map![node => 0int];
                self.hi@ = map![node => 1int];
                self.bh@ = map![node => 2int];
                assert(self.links@ =~= t0.links@.update(
                    node as int,
                    Link { color: Color::BLACK, parent: t0.nil, left: t0.nil, right: t0.nil },
                ));
                self.lemma_insert_first(t0, node);
                assert(self@ =~= old(self)@.insert(0, node));
                assert(self@[0] == node);
                assert forall|i: usize|
                    i < old(self).slot_count() && !self@.contains(i)
                        implies #[trigger] self.slot_unchanged(*old(self), i) by {
                    assert(self@[0] == node);
                    assert(i != node);
                    assert(self.links@[i as int] == t0.links@[i as int]);
                }
            }
            return true;
        }
        proof {
            t0.lemma_children(node_y);
            t0.lemma_at(0);
            assert(self.minimum == t0.order@[0]);
        }
        let smaller = self.keys[node].compare(&self.keys[self.minimum]) == KeyOrder::Less;
        proof {
            lemma_compare_views(t0.kv(node), t0.kv(t0.minimum));
            assert(t0.order@.len() > 0);
            if a > 0 {
                assert(seq_lt(t0.kv(t0.order@[0]), t0.kv(node)));
                lemma_seq_lt_total(t0.kv(t0.order@[0]), t0.kv(node));
            } else {
                assert(seq_lt(t0.kv(node), t0.kv(t0.order@[0])));
            }
        }
        if smaller {
            self.minimum = node;
        }
        let dir: usize = if self.keys[node].compare(&self.keys[node_y]) == KeyOrder::Greater {
            1
        } else {
            0
        };
        proof {
            lemma_compare_views(t0.kv(node), t0.kv(node_y));
            lemma_seq_lt_total(t0.kv(node), t0.kv(node_y));
        }
        self.set_child(node_y, dir, node);
        proof {
            let g = a;
            self.order@ = t0.order@.insert(g, node);
            self.pos@ = t0.ins_pos(node, g);
            self.lo@ = t0.ins_lo(node, g);
            self.hi@ = t0.ins_hi(node, g);
            self.bh@ = t0.bh@.insert(node, 1);
            assert(self.links@ =~= t0.links@.update(
                node as int,
                Link { color: Color::RED, parent: node_y, left: t0.nil, right: t0.nil },
            ).update(node_y as int, t0.lk(node_y).with_child(dir as int, node)));
            assert(t0.link_slot(node, node_y, dir as int, g));
            self.lemma_insert_link(t0, node, node_y, dir as int, g);
            assert(self.minimum == if g == 0 { node } else { t0.order@[0] });
        }
        let ghost t1 = *self;
        self.fix_insert(node);
        proof {
            let g = a;
            assert(self.order@ == t1.order@);
            if g == 0 {
                assert(self.order@[0] == node);
            } else {
                assert(self.order@[0] == t0.order@[0]);
            }
            assert(self.min_ok());
            assert(self@ == old(self)@.insert(g, node));
            assert(self@[g] == node);
            assert forall|i: usize|
                i < old(self).slot_count() && !self@.contains(i)
                    implies #[trigger] self.slot_unchanged(*old(self), i) by {
                assert(i != node);
                t0.lemma_view_linked(i);
                assert(!old(self)@.contains(i)) by {
                    if old(self)@.contains(i) {
                        let j = choose|j: int| 0 <= j < old(self)@.len() && old(self)@[j] == i;
                        if j < g {
                            assert(self@[j] == i);
                        } else {
                            assert(self@[j + 1] == i);
                        }
                    }
                }
                assert(!t1.linked(i));
                assert(self.links@[i as int] == t1.links@[i as int]);
                assert(t1.links@[i as int] == t0.links@[i as int]);
            }
        }
        true
    }

    /// Restores the red-black rules after a red node `z` was linked in.
    pub(crate) fn fix_insert(&mut self, z0: usize)
        requires
            old(self).ins_inv(z0),
        ensures
            final(self).shape_ok(),
            final(self).is_black(final(self).nil),
            final(self).is_black(final(self).root),
            forall|n: usize| final(self).linked(n) ==> #[trigger] final(self).node_rb(n),
            final(self).fix_frame(*old(self)),
    {
        let ghost start = *self;
        let mut z = z0;
        proof {
            self.lemma_children(z);
            self.lemma_in_range(z);
        }
        while self.links[self.links[z].parent].color == Color::RED
            invariant
                self.ins_inv(z),
                self.fix_frame(start),
                z < self.links@.len(),
                self.lk(z).parent < self.links@.len(),
            decreases self.ins_measure(z),
        {
            let ghost t0 = *self;
            z = self.fix_insert_step(z);
            proof {
                self.lemma_fix_frame_trans(t0, start);
            }
        }
        let ghost t0 = *self;
        proof {
            self.lemma_children(z);
            assert(self.linked(self.root)) by {
                assert(self.order@[self.pos@[z]] == z);
            }
            self.lemma_children(self.root);
        }
        let r = self.root;
        let was_red = self.links[r].color == Color::RED;
        self.set_color(r, Color::BLACK);
        proof {
            if was_red {
                self.bh@ = self.bh@.insert(r, self.bh@[r] + 1);
            }
            self.lemma_ins_finish(t0, z);
            self.lemma_fix_frame_trans(t0, start);
        }
    }
}

} // verus!
