//! In-order traversal of a tree.
use vstd::prelude::*;
use crate::key::TreeKey;
use crate::rb_tree::RBTree;

verus! {

/// An in-order cursor over the nodes of an [`RBTree`], yielding node slots in
/// strictly ascending key order, from the minimum to the maximum.
pub struct RBTreeIter<'a, K: TreeKey> {
    pub(crate) tree: &'a RBTree<K>,
    pub(crate) curr: Option<usize>,
    pub(crate) index: Ghost<int>,
}

impl<'a, K: TreeKey> RBTreeIter<'a, K> {
    /// The tree being traversed.
    pub closed spec fn tree(&self) -> RBTree<K> {
        *self.tree
    }

    /// The nodes still to be yielded, in order.
    pub closed spec fn remaining(&self) -> Seq<usize> {
        self.tree@.subrange(self.index@, self.tree@.len() as int)
    }

    /// The cursor sits at a position of a well-formed tree.
    pub closed spec fn wf(&self) -> bool {
        &&& self.tree.wf()
        &&& 0 <= self.index@ <= self.tree@.len()
        &&& self.curr == if self.index@ < self.tree@.len() {
            Some(self.tree@[self.index@])
        } else {
            None
        }
    }

    /// A cursor at a position of a well-formed tree has the tree's last nodes
    /// in order still to yield: `remaining()` is a suffix of `tree()@`.
    pub proof fn lemma_remaining_suffix(&self)
        requires
            self.wf(),
        ensures
            self.tree().wf(),
            exists|k: int|
                0 <= k <= self.tree()@.len() && self.remaining() == self.tree()@.skip(k),
    {
        assert(self.remaining() =~= self.tree()@.skip(self.index@));
    }

    /// Yields the next node in ascending key order, or `None` once every node
    /// has been yielded.
    pub fn next(&mut self) -> (r: Option<usize>)
        requires
            old(self).wf(),
        ensures
            final(self).wf(),
            final(self).tree() == old(self).tree(),
            exists|k: int|
                0 <= k <= final(self).tree()@.len()
                    && final(self).remaining() == final(self).tree()@.skip(k),
            r == if old(self).remaining().len() == 0 {
                None
            } else {
                Some(old(self).remaining()[0])
            },
            final(self).remaining() == if old(self).remaining().len() == 0 {
                old(self).remaining()
            } else {
                old(self).remaining().drop_first()
            },
    {
        let yield_node = match self.curr {
            None => {
                proof {
                    self.lemma_remaining_suffix();
                }
                return None;
            },
            Some(n) => n,
        };
        let ghost i = self.index@;
        proof {
            assert(self.tree@[i] == yield_node);
        }
        self.curr = self.tree.next_node(yield_node);
        self.index = Ghost(i + 1);
        proof {
            assert(self.remaining() =~= old(self).remaining().drop_first());
            assert(self.wf());
            self.lemma_remaining_suffix();
        }
        Some(yield_node)
    }
}

impl<K: TreeKey> RBTree<K> {
    /// Creates an in-order cursor over all linked nodes, starting at the
    /// cached minimum.
    pub fn iter<'a>(&'a self) -> (it: RBTreeIter<'a, K>)
        requires
            self.wf(),
        ensures
            it.wf(),
            it.tree() == *self,
            it.remaining() == self@,
    {
        let m = self.min_node();
        let cr = if m == self.nil_node() {
            None
        } else {
            Some(m)
        };
        proof {
            self.lemma_inorder_sorted();
            if self@.len() > 0 {
                assert(self@[0] != self.nil_spec());
            }
        }
        let it = RBTreeIter { tree: self, curr: cr, index: Ghost(0) };
        proof {
            assert(it.remaining() =~= self@);
        }
        it
    }
}

} // verus!
