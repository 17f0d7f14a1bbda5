//! The removal fix-up: moving a missing black up the tree or absorbing it.
use vstd::prelude::*;
use super::{Link, RBTree};
use crate::color::Color;
use crate::key::TreeKey;

verus! {

impl<K: TreeKey> RBTree<K> {
    /// The sibling of `x` under `xp`, as the removal fix-up finds it.
    pub(crate) open spec fn del_sib(&self, x: usize, xp: usize) -> usize {
        if self.lk(xp).right == x {
            self.lk(xp).left
        } else {
            self.lk(xp).right
        }
    }

    /// `x` sits below `xp` with one black too few on its side; every other
    /// node keeps the black-height rule, and the only red-red pairs possible
    /// are at `x`.
    pub(crate) open spec fn del_deficit(&self, x: usize, xp: usize) -> bool {
        let s = self.del_sib(x, xp);
        &&& self.linked(xp)
        &&& (self.lk(xp).left == x || self.lk(xp).right == x)
        &&& self.lk(x).parent == xp
        &&& self.bh@[xp] >= 1
        &&& self.bh@[xp] == self.bhv(s) + self.bw(xp)
        &&& self.bh@[xp] == self.bhv(x) + 1 + self.bw(xp)
        &&& forall|n: usize| self.linked(n) && n != xp ==> #[trigger] self.bh_ok(n)
        &&& (self.is_red(xp) ==> self.is_black(s))
        &&& forall|n: usize| self.linked(n) && n != xp && n != x ==> #[trigger] self.red_ok(n)
    }

    /// The fix-up loop of removal.
    pub(crate) open spec fn del_inv(&self, x: usize, xp: usize) -> bool {
        &&& self.shape_ok()
        &&& self.is_black(self.nil)
        &&& (x == self.nil || self.linked(x))
        &&& (self.is_black(self.root) || x == self.root)
        &&& (x == self.root ==> forall|n: usize| self.linked(n) ==> #[trigger] self.bh_ok(n))
        &&& (x == self.root ==> forall|n: usize|
            self.linked(n) && n != x ==> #[trigger] self.red_ok(n))
        &&& (x != self.root ==> self.del_deficit(x, xp))
    }

    /// The red-black rules with a possibly red root.
    pub(crate) open spec fn rb_nodes(&self) -> bool {
        &&& self.is_black(self.nil)
        &&& forall|n: usize| self.linked(n) ==> #[trigger] self.node_rb(n)
    }

    /// The side of `xp` on which `x` hangs, as the removal fix-up computes it.
    pub(crate) open spec fn side(&self, x: usize, xp: usize) -> int {
        if self.lk(xp).right == x {
            1
        } else {
            0
        }
    }

    /// The family of a black `x` that is short of one black.
    pub(crate) proof fn lemma_del_family(&self, x: usize, xp: usize)
        requires
            self.del_inv(x, xp),
            x != self.root,
        ensures
            ({
                let dir = self.side(x, xp);
                let s = self.del_sib(x, xp);
                &&& self.linked(xp)
                &&& self.node_shape(xp)
                &&& xp < self.links@.len()
                &&& self.lk(xp).child(dir) == x
                &&& self.lk(xp).child(1 - dir) == s
                &&& s != self.nil
                &&& self.linked(s)
                &&& self.node_shape(s)
                &&& s < self.links@.len()
                &&& s != x
                &&& s != xp
                &&& x != xp
                &&& self.lk(s).parent == xp
                &&& self.bhv(s) == self.bhv(x) + 1
                &&& self.bhv(x) >= 1
                &&& self.red_ok(s)
                &&& self.bh_ok(s)
                &&& (self.is_red(s) ==> self.is_black(xp))
                &&& (x != self.nil ==> self.linked(x) && self.node_shape(x) && self.hi@[x]
                    - self.lo@[x] < self.hi@[xp] - self.lo@[xp])
                &&& (self.lk(s).left != self.nil ==> self.linked(self.lk(s).left))
                &&& (self.lk(s).right != self.nil ==> self.linked(self.lk(s).right))
                &&& self.hi@[xp] - self.lo@[xp] <= self.order@.len()
            }),
    {
        let s = self.del_sib(x, xp);
        self.lemma_children(xp);
        if x != self.nil {
            self.lemma_children(x);
            assert(self.bh_ok(x));
        }
        assert(s != self.nil);
        self.lemma_children(s);
        assert(self.bh_ok(s));
        assert(self.red_ok(s));
    }

    pub(crate) open spec fn size(&self, x: usize) -> int {
        if x == self.nil {
            0
        } else {
            self.hi@[x] - self.lo@[x]
        }
    }

    pub(crate) open spec fn del_measure(&self, x: usize) -> int {
        if x == self.root || self.is_red(x) {
            0
        } else {
            1 + self.order@.len() - self.size(x)
        }
    }

    /// Removal case 1: the sibling is red. After recoloring and rotating the
    /// parent, `x` has a black sibling and the same parent.
    #[verifier::rlimit(100)]
    pub(crate) proof fn lemma_del_case1(&self, t0: Self, t1: Self, x: usize, xp: usize)
        requires
            t0.del_inv(x, xp),
            x != t0.root,
            t0.is_black(x),
            t0.is_red(t0.del_sib(x, xp)),
            ({
                let dir = t0.side(x, xp);
                let s = t0.del_sib(x, xp);
                &&& t1.links@ == t0.links@.update(
                    s as int,
                    Link { color: Color::BLACK, ..t0.lk(s) },
                ).update(xp as int, Link { color: Color::RED, ..t0.lk(xp) })
                &&& t1.same_but_links(t0)
                &&& self.rotated(t1, xp, dir)
                &&& self.bh@ == t0.bh@.insert(xp, t0.bh@[xp] - 1).insert(s, t0.bh@[xp])
            }),
            self.shape_ok(),
            t1.shape_ok(),
        ensures
            self.del_inv(x, xp),
            x != self.root,
            self.is_black(x),
            self.is_black(self.del_sib(x, xp)),
            self.side(x, xp) == t0.side(x, xp),
            self.fix_frame(t0),
            self.del_measure(x) == t0.del_measure(x),
    {
        let dir = t0.side(x, xp);
        let s = t0.del_sib(x, xp);
        let si = t0.lk(s).child(dir);
        let so = t0.lk(s).child(1 - dir);
        let gp = t0.lk(xp).parent;
        t0.lemma_del_family(x, xp);
        t1.lemma_rotate_distinct(xp, dir);
        self.lemma_rotated_frame(t1, xp, dir);
        assert(t1.fix_frame(t0));
        self.lemma_fix_frame_trans(t1, t0);
        if si != t0.nil {
            t0.lemma_children(si);
        }
        if so != t0.nil {
            t0.lemma_children(so);
        }
        if gp != t0.nil {
            t0.lemma_children(gp);
        }
        if x != t0.nil {
            t0.lemma_children(x);
        }
        assert(self.lk(t0.nil) == t0.lk(t0.nil));
        assert(si != t0.nil);
        assert forall|n: usize| self.linked(n) && n != xp implies #[trigger] self.bh_ok(n) by {
            t0.lemma_children(n);
            if n != s && n != gp && n != si {
                assert(self.lk(n) == t0.lk(n));
            }
            if n != xp && n != s {
                assert(t0.bh_ok(n));
            }
        }
        assert forall|n: usize| self.linked(n) && n != xp && n != x implies #[trigger] self.red_ok(
            n,
        ) by {
            t0.lemma_children(n);
            if n != s && n != gp && n != si {
                assert(self.lk(n) == t0.lk(n));
            }
            if n != xp && n != x {
                assert(t0.red_ok(n));
            }
        }
        t0.lemma_children(t0.root);
        if t0.root != xp {
            assert(self.links@[t0.root as int].color == t1.links@[t0.root as int].color);
        }
        assert(self.del_sib(x, xp) == si);
        assert(self.del_deficit(x, xp));
    }

    /// Removal case 2: the sibling and both its children are black. The
    /// sibling turns red and the missing black moves up to the parent.
    #[verifier::rlimit(100)]
    pub(crate) proof fn lemma_del_case2(&self, t0: Self, x: usize, xp: usize)
        requires
            t0.del_inv(x, xp),
            x != t0.root,
            t0.is_black(x),
            t0.is_black(t0.del_sib(x, xp)),
            t0.is_black(t0.lk(t0.del_sib(x, xp)).left),
            t0.is_black(t0.lk(t0.del_sib(x, xp)).right),
            ({
                let s = t0.del_sib(x, xp);
                &&& self.links@ == t0.links@.update(
                    s as int,
                    Link { color: Color::RED, ..t0.lk(s) },
                )
                &&& self.same_but_links_bh(t0)
                &&& self.bh@ == t0.bh@.insert(s, t0.bh@[s] - 1).insert(xp, t0.bh@[xp] - 1)
            }),
            self.shape_ok(),
        ensures
            self.del_inv(xp, t0.lk(xp).parent),
            self.fix_frame(t0),
            self.del_measure(xp) < t0.del_measure(x),
            0 <= self.del_measure(xp),
    {
        let s = t0.del_sib(x, xp);
        let pp = t0.lk(xp).parent;
        t0.lemma_del_family(x, xp);
        if pp != t0.nil {
            t0.lemma_children(pp);
        } else {
            assert(xp == t0.root);
        }
        if x != t0.nil {
            t0.lemma_children(x);
        }
        let l = t0.lk(s).left;
        let r = t0.lk(s).right;
        if l != t0.nil {
            t0.lemma_children(l);
        }
        if r != t0.nil {
            t0.lemma_children(r);
        }
        assert(self.lk(t0.nil) == t0.lk(t0.nil));
        assert forall|n: usize| self.linked(n) && n != pp implies #[trigger] self.bh_ok(n) by {
            t0.lemma_children(n);
            if n != xp {
                assert(t0.bh_ok(n));
            }
        }
        assert forall|n: usize| self.linked(n) && n != pp && n != xp implies #[trigger] self.red_ok(
            n,
        ) by {
            t0.lemma_children(n);
            if n != xp && n != x {
                assert(t0.red_ok(n));
            }
        }
        t0.lemma_children(t0.root);
        assert(self.links@[t0.root as int].color == t0.links@[t0.root as int].color);
        if xp != t0.root {
            assert(t0.red_ok(pp));
            assert(t0.bh_ok(pp));
            assert(self.del_deficit(xp, pp));
        } else {
            assert(self.bh_ok(xp));
        }
    }

    /// Removal case 3: the sibling is black with a red inner child and a black
    /// outer child. Rotating the sibling gives `x` a black sibling whose outer
    /// child is red.
    #[verifier::rlimit(100)]
    pub(crate) proof fn lemma_del_case3(&self, t0: Self, t1: Self, x: usize, xp: usize)
        requires
            t0.del_inv(x, xp),
            x != t0.root,
            t0.is_black(x),
            t0.is_black(t0.del_sib(x, xp)),
            t0.is_red(t0.lk(t0.del_sib(x, xp)).child(t0.side(x, xp))),
            t0.is_black(t0.lk(t0.del_sib(x, xp)).child(1 - t0.side(x, xp))),
            ({
                let dir = t0.side(x, xp);
                let s = t0.del_sib(x, xp);
                let si = t0.lk(s).child(dir);
                &&& t1.links@ == t0.links@.update(
                    si as int,
                    Link { color: Color::BLACK, ..t0.lk(si) },
                ).update(s as int, Link { color: Color::RED, ..t0.lk(s) })
                &&& t1.same_but_links(t0)
                &&& self.rotated(t1, s, 1 - dir)
                &&& self.bh@ == t0.bh@.insert(si, t0.bh@[s]).insert(s, t0.bh@[s] - 1)
            }),
            self.shape_ok(),
            t1.shape_ok(),
        ensures
            self.del_inv(x, xp),
            x != self.root,
            self.is_black(x),
            self.is_black(self.del_sib(x, xp)),
            self.is_red(self.lk(self.del_sib(x, xp)).child(1 - self.side(x, xp))),
            self.side(x, xp) == t0.side(x, xp),
            self.fix_frame(t0),
            self.del_measure(x) == t0.del_measure(x),
    {
        let dir = t0.side(x, xp);
        let s = t0.del_sib(x, xp);
        let si = t0.lk(s).child(dir);
        let so = t0.lk(s).child(1 - dir);
        t0.lemma_del_family(x, xp);
        assert(si != t0.nil);
        t0.lemma_children(si);
        t1.lemma_rotate_distinct(s, 1 - dir);
        self.lemma_rotated_frame(t1, s, 1 - dir);
        assert(t1.fix_frame(t0));
        self.lemma_fix_frame_trans(t1, t0);
        if so != t0.nil {
            t0.lemma_children(so);
        }
        if x != t0.nil {
            t0.lemma_children(x);
        }
        let a = t0.lk(si).child(dir);
        let b = t0.lk(si).child(1 - dir);
        if a != t0.nil {
            t0.lemma_children(a);
        }
        if b != t0.nil {
            t0.lemma_children(b);
        }
        assert(t0.red_ok(si));
        assert(t0.bh_ok(si));
        assert(self.lk(t0.nil) == t0.lk(t0.nil));
        assert forall|n: usize| self.linked(n) && n != xp implies #[trigger] self.bh_ok(n) by {
            t0.lemma_children(n);
            if n != s && n != si && n != xp && n != b {
                assert(self.lk(n) == t0.lk(n));
            }
            assert(t0.bh_ok(n));
        }
        assert forall|n: usize| self.linked(n) && n != xp && n != x implies #[trigger] self.red_ok(
            n,
        ) by {
            t0.lemma_children(n);
            if n != s && n != si && n != xp && n != b {
                assert(self.lk(n) == t0.lk(n));
            }
            assert(t0.red_ok(n));
        }
        t0.lemma_children(t0.root);
        assert(self.links@[t0.root as int].color == t1.links@[t0.root as int].color);
        assert(self.del_sib(x, xp) == si);
        assert(self.del_deficit(x, xp));
    }

    /// Removal case 4: the sibling is black with a red outer child. Recoloring
    /// and rotating the parent restores every rule.
    #[verifier::rlimit(100)]
    pub(crate) proof fn lemma_del_case4(&self, t0: Self, t1: Self, x: usize, xp: usize)
        requires
            t0.del_inv(x, xp),
            x != t0.root,
            t0.is_black(x),
            t0.is_black(t0.del_sib(x, xp)),
            t0.is_red(t0.lk(t0.del_sib(x, xp)).child(1 - t0.side(x, xp))),
            ({
                let dir = t0.side(x, xp);
                let s = t0.del_sib(x, xp);
                let so = t0.lk(s).child(1 - dir);
                &&& t1.links@ == t0.links@.update(
                    s as int,
                    Link { color: t0.lk(xp).color, ..t0.lk(s) },
                ).update(xp as int, Link { color: Color::BLACK, ..t0.lk(xp) }).update(
                    so as int,
                    Link { color: Color::BLACK, ..t0.lk(so) },
                )
                &&& t1.same_but_links(t0)
                &&& self.rotated(t1, xp, dir)
                &&& self.bh@ == t0.bh@.insert(xp, t0.bh@[s]).insert(so, t0.bh@[s]).insert(
                    s,
                    t0.bh@[xp],
                )
            }),
            self.shape_ok(),
            t1.shape_ok(),
        ensures
            self.del_inv(self.root, xp),
            self.is_black(self.root),
            self.fix_frame(t0),
    {
        let dir = t0.side(x, xp);
        let s = t0.del_sib(x, xp);
        let si = t0.lk(s).child(dir);
        let so = t0.lk(s).child(1 - dir);
        let gp = t0.lk(xp).parent;
        t0.lemma_del_family(x, xp);
        assert(so != t0.nil);
        t0.lemma_children(so);
        t1.lemma_rotate_distinct(xp, dir);
        self.lemma_rotated_frame(t1, xp, dir);
        assert(t1.fix_frame(t0));
        self.lemma_fix_frame_trans(t1, t0);
        if si != t0.nil {
            t0.lemma_children(si);
        }
        if gp != t0.nil {
            t0.lemma_children(gp);
        }
        if x != t0.nil {
            t0.lemma_children(x);
        }
        assert(t0.red_ok(so));
        assert(t0.bh_ok(so));
        assert(self.lk(t0.nil) == t0.lk(t0.nil));
        assert forall|n: usize| self.linked(n) implies #[trigger] self.bh_ok(n) by {
            t0.lemma_children(n);
            if n != s && n != gp && n != si && n != xp && n != so {
                assert(self.lk(n) == t0.lk(n));
            }
            if n != xp {
                assert(t0.bh_ok(n));
            }
        }
        assert forall|n: usize| self.linked(n) implies #[trigger] self.red_ok(n) by {
            t0.lemma_children(n);
            if n != s && n != gp && n != si && n != xp && n != so {
                assert(self.lk(n) == t0.lk(n));
            }
            if n != xp && n != x {
                assert(t0.red_ok(n));
            }
        }
        t0.lemma_children(t0.root);
        if t0.root != xp {
            assert(self.links@[t0.root as int].color == t1.links@[t0.root as int].color);
        }
    }

    /// After the removal fix-up loop the only possible faults are a red `x`
    /// or a red root, both fixed by painting `x` black.
    pub(crate) proof fn lemma_del_finish(&self, t0: Self, x: usize, xp: usize)
        requires
            t0.del_inv(x, xp),
            x == t0.root || t0.is_red(x),
            self.links@ == t0.links@.update(x as int, Link { color: Color::BLACK, ..t0.lk(x) }),
            self.bh@ == (if t0.is_red(x) {
                t0.bh@.insert(x, t0.bh@[x] + 1)
            } else {
                t0.bh@
            }),
            self.same_but_links_bh(t0),
            x < t0.links@.len(),
        ensures
            self.shape_ok(),
            self.rb_nodes(),
            self.is_black(self.root),
            self.fix_frame(t0),
    {
        self.lemma_recolor_shape(t0);
        if x != t0.nil {
            t0.lemma_children(x);
        }
        if x != t0.root {
            t0.lemma_del_family(x, xp);
        }
        assert forall|n: usize| self.linked(n) implies #[trigger] self.node_rb(n) by {
            t0.lemma_children(n);
            if x != t0.root {
                if n != xp {
                    assert(t0.bh_ok(n));
                }
                if n != xp && n != x {
                    assert(t0.red_ok(n));
                }
            } else {
                assert(t0.bh_ok(n));
                if n != x {
                    assert(t0.red_ok(n));
                }
            }
        }
        if t0.order@.len() > 0 {
            t0.lemma_children(t0.root);
        }
        assert(self.links@[t0.root as int].color == Color::BLACK || self.links@[t0.root as int]
            == t0.links@[t0.root as int]);
    }

    /// Removal case 1: turns a red sibling of `x` black by a rotation.
    pub(crate) fn delete_fix_red_sibling(&mut self, x: usize, Ghost(xp): Ghost<usize>)
        requires
            old(self).del_inv(x, xp),
            x != old(self).root,
            old(self).is_black(x),
            old(self).is_red(old(self).del_sib(x, xp)),
            x < old(self).links@.len(),
        ensures
            final(self).del_inv(x, xp),
            x != final(self).root,
            final(self).is_black(x),
            final(self).is_black(final(self).del_sib(x, xp)),
            final(self).fix_frame(*old(self)),
            final(self).del_measure(x) == old(self).del_measure(x),
            final(self).side(x, xp) == old(self).side(x, xp),
    {
        proof {
            self.lemma_del_family(x, xp);
            self.lemma_in_range(x);
        }
        let x_parent = self.links[x].parent;
        let dir: usize = if self.links[x_parent].right == x {
            1
        } else {
            0
        };
        let s = self.child(x_parent, 1 - dir);
        let ghost t0 = *self;
        self.set_color(s, Color::BLACK);
        self.set_color(x_parent, Color::RED);
        let ghost t1 = *self;
        proof {
            self.lemma_recolor_shape(t0);
        }
        self.rotate(x_parent, dir);
        let ghost t2 = *self;
        proof {
            self.bh@ = t0.bh@.insert(xp, t0.bh@[xp] - 1).insert(s, t0.bh@[xp]);
            self.lemma_recolor_shape(t2);
            self.lemma_del_case1(t0, t1, x, xp);
        }
    }

    /// Removal case 3: turns a red inner nephew of `x` into a red outer one.
    pub(crate) fn delete_fix_inner_nephew(&mut self, x: usize, Ghost(xp): Ghost<usize>)
        requires
            old(self).del_inv(x, xp),
            x != old(self).root,
            old(self).is_black(x),
            old(self).is_black(old(self).del_sib(x, xp)),
            old(self).is_red(
                old(self).lk(old(self).del_sib(x, xp)).child(old(self).side(x, xp)),
            ),
            old(self).is_black(
                old(self).lk(old(self).del_sib(x, xp)).child(1 - old(self).side(x, xp)),
            ),
            x < old(self).links@.len(),
        ensures
            final(self).del_inv(x, xp),
            x != final(self).root,
            final(self).is_black(x),
            final(self).is_black(final(self).del_sib(x, xp)),
            final(self).is_red(
                final(self).lk(final(self).del_sib(x, xp)).child(1 - final(self).side(x, xp)),
            ),
            final(self).fix_frame(*old(self)),
            final(self).del_measure(x) == old(self).del_measure(x),
    {
        proof {
            self.lemma_del_family(x, xp);
            self.lemma_in_range(x);
        }
        let x_parent = self.links[x].parent;
        let dir: usize = if self.links[x_parent].right == x {
            1
        } else {
            0
        };
        let opp = 1 - dir;
        let s = self.child(x_parent, opp);
        let s_inner = self.child(s, dir);
        proof {
            self.lemma_children(s_inner);
        }
        let ghost t0 = *self;
        self.set_color(s_inner, Color::BLACK);
        self.set_color(s, Color::RED);
        let ghost t1 = *self;
        proof {
            self.lemma_recolor_shape(t0);
        }
        self.rotate(s, opp);
        let ghost t2 = *self;
        proof {
            self.bh@ = t0.bh@.insert(s_inner, t0.bh@[s]).insert(s, t0.bh@[s] - 1);
            self.lemma_recolor_shape(t2);
            self.lemma_del_case3(t0, t1, x, xp);
        }
    }

    /// Removal case 4: a red outer nephew of `x` absorbs the missing black.
    pub(crate) fn delete_fix_outer_nephew(&mut self, x: usize, Ghost(xp): Ghost<usize>)
        requires
            old(self).del_inv(x, xp),
            x != old(self).root,
            old(self).is_black(x),
            old(self).is_black(old(self).del_sib(x, xp)),
            old(self).is_red(
                old(self).lk(old(self).del_sib(x, xp)).child(1 - old(self).side(x, xp)),
            ),
            x < old(self).links@.len(),
        ensures
            final(self).del_inv(final(self).root, xp),
            final(self).is_black(final(self).root),
            final(self).fix_frame(*old(self)),
    {
        proof {
            self.lemma_del_family(x, xp);
            self.lemma_in_range(x);
        }
        let x_parent = self.links[x].parent;
        let dir: usize = if self.links[x_parent].right == x {
            1
        } else {
            0
        };
        let opp = 1 - dir;
        let s = self.child(x_parent, opp);
        let s_out = self.child(s, opp);
        proof {
            self.lemma_children(s_out);
        }
        let ghost t0 = *self;
        let xp_color = self.links[x_parent].color;
        self.set_color(s, xp_color);
        self.set_color(x_parent, Color::BLACK);
        self.set_color(s_out, Color::BLACK);
        let ghost t1 = *self;
        proof {
            self.lemma_recolor_shape(t0);
        }
        self.rotate(x_parent, dir);
        let ghost t2 = *self;
        proof {
            self.bh@ = t0.bh@.insert(xp, t0.bh@[s]).insert(s_out, t0.bh@[s]).insert(s, t0.bh@[xp]);
            self.lemma_recolor_shape(t2);
            self.lemma_del_case4(t0, t1, x, xp);
        }
    }

    /// One round of the removal fix-up on a black `x` short of one black.
    pub(crate) fn delete_fix_step(&mut self, x: usize, Ghost(xp): Ghost<usize>) -> (r: (usize, Ghost<usize>))
        requires
            old(self).del_inv(x, xp),
            x != old(self).root,
            old(self).is_black(x),
            x < old(self).links@.len(),
        ensures
            final(self).del_inv(r.0, r.1@),
            final(self).fix_frame(*old(self)),
            r.0 < final(self).links@.len(),
            final(self).del_measure(r.0) < old(self).del_measure(x),
            0 <= final(self).del_measure(r.0),
    {
        let ghost start = *self;
        proof {
            self.lemma_del_family(x, xp);
            self.lemma_in_range(x);
        }
        let x_parent = self.links[x].parent;
        let dir: usize = if self.links[x_parent].right == x {
            1
        } else {
            0
        };
        let opp = 1 - dir;
        let s = self.child(x_parent, opp);
        proof {
            assert(dir as int == self.side(x, xp));
        }
        if self.links[s].color == Color::RED {
            self.delete_fix_red_sibling(x, Ghost(xp));
            proof {
                self.lemma_del_family(x, xp);
            }
        }
        let ghost tm = *self;
        let x_parent = self.links[x].parent;
        let s = self.child(x_parent, opp);
        proof {
            self.lemma_in_range(s);
            assert(dir as int == self.side(x, xp));
            assert(x_parent == xp);
            assert(s == self.del_sib(x, xp));
        }
        let s_inner = self.child(s, dir);
        let s_outer = self.child(s, opp);
        proof {
            assert(s_inner == self.lk(s).child(self.side(x, xp)));
            assert(s_outer == self.lk(s).child(1 - self.side(x, xp)));
        }
        if self.links[s_inner].color == Color::BLACK && self.links[s_outer].color == Color::BLACK {
            self.set_color(s, Color::RED);
            proof {
                self.bh@ = tm.bh@.insert(s, tm.bh@[s] - 1).insert(xp, tm.bh@[xp] - 1);
                self.lemma_recolor_shape(tm);
                self.lemma_del_case2(tm, x, xp);
                self.lemma_fix_frame_trans(tm, start);
                self.lemma_children(x_parent);
            }
            (x_parent, Ghost(tm.lk(xp).parent))
        } else {
            if self.links[s_outer].color == Color::BLACK {
                self.delete_fix_inner_nephew(x, Ghost(xp));
                proof {
                    self.lemma_fix_frame_trans(tm, start);
                }
            }
            let ghost tn = *self;
            self.delete_fix_outer_nephew(x, Ghost(xp));
            proof {
                self.lemma_fix_frame_trans(tn, start);
            }
            let r = self.root;
            proof {
                if self.order@.len() > 0 {
                    self.lemma_children(r);
                }
            }
            (r, Ghost(xp))
        }
    }

    /// Restores the red-black rules after a removal left `x` (below `xp`)
    /// short of one black.
    pub(crate) fn delete_fix(&mut self, x0: usize, Ghost(xp0): Ghost<usize>)
        requires
            old(self).del_inv(x0, xp0),
            x0 < old(self).links@.len(),
        ensures
            final(self).shape_ok(),
            final(self).rb_nodes(),
            final(self).is_black(final(self).root),
            final(self).fix_frame(*old(self)),
    {
        let ghost start = *self;
        let mut x = x0;
        let ghost mut xp = xp0;
        while x != self.root && self.links[x].color == Color::BLACK
            invariant
                self.del_inv(x, xp),
                self.fix_frame(start),
                x < self.links@.len(),
            decreases self.del_measure(x),
        {
            let ghost t0 = *self;
            let (nx, Ghost(nxp)) = self.delete_fix_step(x, Ghost(xp));
            x = nx;
            proof {
                xp = nxp;
                self.lemma_fix_frame_trans(t0, start);
            }
        }
        let ghost t0 = *self;
        let was_red = self.links[x].color == Color::RED;
        self.set_color(x, Color::BLACK);
        proof {
            if was_red {
                self.bh@ = self.bh@.insert(x, self.bh@[x] + 1);
            }
            self.lemma_del_finish(t0, x, xp);
            self.lemma_fix_frame_trans(t0, start);
        }
    }
}

} // verus!
