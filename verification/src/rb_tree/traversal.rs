//! Walking the tree: the leftmost node of a subtree and in-order successors.
use vstd::prelude::*;
use super::RBTree;
use crate::key::TreeKey;

verus! {

impl<K: TreeKey> RBTree<K> {
    /// Finds the node with the minimum key in the subtree rooted at `node` by
    /// following left children; the sentinel stands for the empty subtree and
    /// gives the sentinel back.
    pub(crate) fn minimum(&self, node: usize) -> (m: usize)
        requires
            self.shape_ok(),
            node == self.nil || self.linked(node),
        ensures
            node == self.nil ==> m == self.nil,
            node != self.nil ==> {
                &&& self.linked(m)
                &&& self.lk(m).left == self.nil
                &&& self.pos@[m] == self.lo@[node]
                &&& self.lo@[m] == self.lo@[node]
                &&& self.hi@[m] <= self.hi@[node]
                &&& m != node ==> {
                    let q = self.lk(m).parent;
                    &&& self.linked(q)
                    &&& self.lk(q).left == m
                    &&& self.lo@[q] == self.lo@[node]
                    &&& self.hi@[q] <= self.hi@[node]
                }
            },
    {
        let mut cur = node;
        proof {
            if node != self.nil {
                self.lemma_children(cur);
            }
        }
        while self.links[cur].left != self.nil
            invariant
                self.shape_ok(),
                cur < self.links@.len(),
                node == self.nil ==> cur == self.nil,
                node != self.nil ==> {
                    &&& self.linked(cur)
                    &&& self.lo@[cur] == self.lo@[node]
                    &&& self.hi@[cur] <= self.hi@[node]
                    &&& cur != node ==> {
                        let q = self.lk(cur).parent;
                        &&& self.linked(q)
                        &&& self.lk(q).left == cur
                        &&& self.lo@[q] == self.lo@[node]
                        &&& self.hi@[q] <= self.hi@[node]
                    }
                },
            decreases
                if cur == self.nil {
                    0
                } else {
                    self.hi@[cur] - self.lo@[cur]
                },
        {
            proof {
                self.lemma_children(cur);
            }
            cur = self.links[cur].left;
            proof {
                self.lemma_children(cur);
            }
        }
        proof {
            if node != self.nil {
                self.lemma_children(cur);
            }
        }
        cur
    }

    /// Returns the in-order successor of `node`, or `None` when `node` is the
    /// maximum (or the sentinel).
    pub fn next_node(&self, node: usize) -> (r: Option<usize>)
        requires
            self.wf(),
            node == self.nil_spec() || self@.contains(node),
        ensures
            node == self.nil_spec() ==> r is None,
            forall|i: int|
                0 <= i < self@.len() && #[trigger] self@[i] == node ==> r == (if i + 1 < self@.len() {
                    Some(self@[i + 1])
                } else {
                    None
                }),
    {
        if node == self.nil {
            return None;
        }
        let ghost i0 = choose|i: int| 0 <= i < self@.len() && self@[i] == node;
        proof {
            self.lemma_at(i0);
            self.lemma_children(node);
            assert forall|i: int| 0 <= i < self@.len() && self@[i] == node implies i == i0 by {
                self.lemma_sorted_at(i, i0);
            }
        }
        let right = self.links[node].right;
        if right != self.nil {
            let m = self.minimum(right);
            proof {
                self.lemma_children(m);
            }
            return Some(m);
        }
        let mut curr = node;
        let mut parent = self.links[curr].parent;
        while parent != self.nil && curr == self.links[parent].right
            invariant
                self.wf(),
                self.linked(curr),
                curr < self.links@.len(),
                parent == self.lk(curr).parent,
                parent < self.links@.len(),
                self.hi@[curr] == i0 + 1,
                self.pos@[node] == i0,
            decreases self.order@.len() - (self.hi@[curr] - self.lo@[curr]),
        {
            proof {
                self.lemma_children(curr);
                self.lemma_children(parent);
            }
            curr = parent;
            parent = self.links[curr].parent;
            proof {
                self.lemma_children(curr);
                self.lemma_in_range(curr);
            }
        }
        proof {
            self.lemma_children(curr);
            if curr != self.root {
                self.lemma_children(parent);
            }
        }
        if parent == self.nil {
            None
        } else {
            proof {
                self.lemma_at(self.pos@[parent]);
            }
            Some(parent)
        }
    }
}

} // verus!
