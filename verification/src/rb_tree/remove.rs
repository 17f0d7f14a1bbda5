//! The public removals: by key and of the minimum.
use vstd::prelude::*;
use super::RBTree;
use crate::color::Color;
use crate::key::{seq_lt, KeyQuery, TreeKey};

verus! {

impl<K: TreeKey> RBTree<K> {
    /// The minimum node has no left child; its right child, if any, is a red
    /// leaf that comes next in the order; otherwise its parent does.
    pub(crate) proof fn lemma_min_links(&self, z: usize)
        requires
            self.wf(),
            self.order@.len() > 0,
            z == self.order@[0],
        ensures
            self.linked(z),
            self.pos@[z] == 0,
            self.lk(z).left == self.nil,
            self.lk(z).right != self.nil ==> {
                let r = self.lk(z).right;
                &&& self.order@.len() > 1
                &&& self.order@[1] == r
                &&& self.is_red(r)
                &&& self.is_black(z)
            },
            self.lk(z).right == self.nil ==> {
                let p = self.lk(z).parent;
                &&& (p == self.nil ==> self.order@.len() == 1)
                &&& (p != self.nil ==> self.order@.len() > 1 && self.order@[1] == p)
            },
            self.lk(z).parent != self.nil ==> self.linked(self.lk(z).parent) && self.lk(
                self.lk(z).parent,
            ).left == z && self.lk(self.lk(z).parent).right != z,
            z < self.links@.len(),
            self.lk(z).parent < self.links@.len(),
            self.lk(z).right < self.links@.len(),
    {
        self.lemma_at(0);
        self.lemma_children(z);
        assert(self.node_rb(z));
        let r = self.lk(z).right;
        let p = self.lk(z).parent;
        let l = self.lk(z).left;
        if l != self.nil {
            self.lemma_children(l);
        }
        self.lemma_in_range(z);
        if p != self.nil {
            self.lemma_children(p);
        } else {
            assert(z == self.root);
        }
        if r != self.nil {
            self.lemma_children(r);
            assert(self.node_rb(r));
            let rl = self.lk(r).left;
            if rl != self.nil {
                self.lemma_children(rl);
                assert(self.node_rb(rl));
                let rll = self.lk(rl).left;
                if rll != self.nil {
                    self.lemma_children(rll);
                    assert(self.node_rb(rll));
                }
                assert(false);
            }
            self.lemma_at(1);
            assert(self.order@[self.pos@[r]] == r);
        } else {
            if p == self.nil {
                assert(z == self.root);
            } else {
                self.lemma_children(p);
                assert(self.lk(p).left == z);
                self.lemma_at(1);
                assert(self.order@[self.pos@[p]] == p);
            }
        }
    }

    /// Changing only the cached minimum keeps the shape and the colors.
    pub(crate) proof fn lemma_min_field(&self, t0: Self)
        requires
            self.keys == t0.keys,
            self.links == t0.links,
            self.root == t0.root,
            self.nil == t0.nil,
            self.order == t0.order,
            self.pos == t0.pos,
            self.lo == t0.lo,
            self.hi == t0.hi,
            self.bh == t0.bh,
        ensures
            t0.shape_ok() ==> self.shape_ok(),
            t0.rb_nodes() ==> self.rb_nodes(),
            t0.rb_ok() ==> self.rb_ok(),
    {
        if t0.shape_ok() {
            assert forall|m: usize| self.linked(m) implies #[trigger] self.node_shape(m) by {
                assert(t0.node_shape(m));
            }
            assert(self.sorted()) by {
                assert forall|i: int, j: int| 0 <= i < j < self.order@.len() implies seq_lt(
                    #[trigger] self.kv(self.order@[i]),
                    #[trigger] self.kv(self.order@[j]),
                ) by {
                    assert(seq_lt(t0.kv(t0.order@[i]), t0.kv(t0.order@[j])));
                }
            }
        }
        if t0.rb_nodes() {
            assert forall|m: usize| self.linked(m) implies #[trigger] self.node_rb(m) by {
                assert(t0.node_rb(m));
            }
        }
        if t0.rb_ok() {
            assert forall|m: usize| self.linked(m) implies #[trigger] self.node_rb(m) by {
                assert(t0.node_rb(m));
            }
        }
    }

    /// Removes the node whose key equals `key` and returns it, or returns
    /// `None`, leaving the tree untouched, when no such node is linked.
    pub fn delete<Q: KeyQuery<K> + ?Sized>(&mut self, key: &Q) -> (r: Option<usize>)
        requires
            old(self).wf(),
        ensures
            final(self).wf(),
            match r {
                Some(z) => (exists|i: int|
                    0 <= i < old(self)@.len() && old(self)@[i] == z && old(self).key_of(z)
                        == key.query_view() && final(self)@ == old(self)@.remove(i)) && forall|j: int|
                    0 <= j < final(self)@.len() ==> final(self).key_of(#[trigger] final(self)@[j])
                        != key.query_view(),
                None => *final(self) == *old(self) && forall|i: int|
                    0 <= i < old(self)@.len() ==> old(self).key_of(#[trigger] old(self)@[i])
                        != key.query_view(),
            },
            final(self).slot_count() == old(self).slot_count(),
            final(self).nil_spec() == old(self).nil_spec(),
            forall|i: usize| #[trigger] final(self).key_at(i) == old(self).key_at(i),
            forall|i: usize|
                i < old(self).slot_count() && i != old(self).nil_spec() && !final(self)@.contains(i)
                    ==> #[trigger] final(self).slot_unchanged(*old(self), i),
    {
        let found = self.search(key);
        let z = match found {
            None => {
                return None;
            },
            Some(z) => z,
        };
        proof {
            let i = choose|i: int| 0 <= i < self@.len() && self@[i] == z;
            self.lemma_at(i);
        }
        let ghost t0 = *self;
        let ghost k = self.pos@[z];
        let (x, Ghost(xp), removed_black) = self.unlink(z);
        let ghost t1 = *self;
        if removed_black {
            self.delete_fix(x, Ghost(xp));
        }
        proof {
            assert(self.fix_frame(t1) || *self == t1);
            assert(self.lk(z) == t1.lk(z)) by {
                assert(!t1.linked(z));
            }
        }
        let ghost t2 = *self;
        if z == self.minimum {
            proof {
                t0.lemma_min_links(z);
            }
            let z_right = self.links[z].right;
            if z_right != self.nil {
                self.minimum = z_right;
            } else {
                self.minimum = self.links[z].parent;
            }
        }
        proof {
            self.lemma_min_field(t2);
        }
        proof {
            if k > 0 {
                t0.lemma_at(0);
            }
            assert(self.min_ok());
            assert(self.shape_ok());
            assert(self.rb_ok());
            assert(old(self)@[k] == z);
            assert forall|j: int| 0 <= j < self@.len() implies self.key_of(#[trigger] self@[j])
                != key.query_view() by {
                let j0 = if j < k {
                    j
                } else {
                    j + 1
                };
                assert(self@[j] == t0@[j0]);
                t0.lemma_sorted_at(j0, k);
                assert(self.key_of(self@[j]) == t0.kv(t0.order@[j0]));
            }
            assert forall|i: usize|
                i < old(self).slot_count() && i != old(self).nil_spec() && !self@.contains(i)
                    implies #[trigger] self.slot_unchanged(*old(self), i) by {
                self.lemma_view_linked(i);
                assert(!t1.linked(i));
                assert(self.links@[i as int] == t1.links@[i as int]);
                assert(t1.links@[i as int] == t0.links@[i as int]);
            }
        }
        Some(z)
    }

    /// Removes and returns the node with the minimum key, or returns `None`
    /// when the tree is empty.
    pub fn delete_min(&mut self) -> (r: Option<usize>)
        requires
            old(self).wf(),
        ensures
            final(self).wf(),
            old(self)@.len() == 0 ==> r is None && *final(self) == *old(self),
            old(self)@.len() > 0 ==> r == Some(old(self)@[0]) && final(self)@ == old(self)@.remove(
                0,
            ),
            final(self).slot_count() == old(self).slot_count(),
            final(self).nil_spec() == old(self).nil_spec(),
            forall|i: usize| #[trigger] final(self).key_at(i) == old(self).key_at(i),
            forall|i: usize|
                i < old(self).slot_count() && i != old(self).nil_spec() && !final(self)@.contains(i)
                    ==> #[trigger] final(self).slot_unchanged(*old(self), i),
    {
        let z = self.minimum;
        if z == self.nil {
            return None;
        }
        let ghost t0 = *self;
        proof {
            self.lemma_min_links(z);
            self.lemma_children(z);
        }
        let z_parent = self.links[z].parent;
        let z_right = self.links[z].right;
        let z_color = self.links[z].color;
        if z_parent == self.nil {
            self.root = z_right;
        } else {
            self.set_child(z_parent, 0, z_right);
        }
        self.set_parent(z_right, z_parent);
        proof {
            self.order@ = t0.order@.remove(0);
            self.pos@ = t0.del_pos(z);
            self.lo@ = t0.del_lo(z, 0);
            self.hi@ = t0.del_hi(z, 0);
            assert(self.links@ =~= t0.transplant_links(z, z_right));
            assert(self.spliced(t0, z, 0));
            self.lemma_splice_shape(t0, z, 0);
            self.lemma_splice_rb(t0, z, 0);
        }
        let ghost t1 = *self;
        if z_color == Color::RED {
            self.minimum = z_parent;
            proof {
                self.lemma_min_field(t1);
            }
        } else if self.links[z_right].color == Color::RED {
            self.set_color(z_right, Color::BLACK);
            proof {
                self.bh@ = self.bh@.insert(z_right, self.bh@[z_right] + 1);
                self.lemma_del_finish(t1, z_right, z_parent);
            }
            let ghost t2 = *self;
            self.minimum = z_right;
            proof {
                self.lemma_min_field(t2);
            }
        } else {
            self.delete_fix(z_right, Ghost(z_parent));
            let ghost t2 = *self;
            self.minimum = z_parent;
            proof {
                self.lemma_min_field(t2);
            }
        }
        proof {
            assert(self.min_ok());
            assert(self.rb_ok());
            assert forall|i: usize|
                i < old(self).slot_count() && i != old(self).nil_spec() && !self@.contains(i)
                    implies #[trigger] self.slot_unchanged(*old(self), i) by {
                self.lemma_view_linked(i);
                assert(!t1.linked(i));
                assert(self.links@[i as int] == t1.links@[i as int]);
                if z_parent != t0.nil {
                    assert(t1.linked(z_parent));
                }
                if z_right != t0.nil {
                    assert(t1.linked(z_right));
                }
                assert(t1.links@[i as int] == t0.links@[i as int]);
            }
        }
        Some(z)
    }
}

} // verus!
