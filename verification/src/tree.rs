//! A persistent binary tree with shared subtrees, used as a
//! binary-search-tree set (`tree_set`) and map (`tree_map`).

use std::rc::Rc;

use vstd::prelude::*;

verus! {

#[derive(Clone, Debug, PartialEq, Eq)]
pub enum Tree<T> {
    Tip,
    Node(Rc<Tree<T>>, T, Rc<Tree<T>>),
}

impl<T: Copy> Tree<T> {
    /// A shallow copy sharing both subtrees through `Rc`.
    pub(crate) fn duplicate(&self) -> (r: Self)
        ensures
            r == *self,
    {
        match self {
            Tree::Tip => Tree::Tip,
            Tree::Node(l, v, r) => Tree::Node(l.clone(), *v, r.clone()),
        }
    }
}

impl Tree<usize> {
    /// The set of values stored in the tree.
    pub open spec fn elems(&self) -> Set<usize>
        decreases self,
    {
        match self {
            Tree::Tip => Set::empty(),
            Tree::Node(l, v, r) => l.elems().union(r.elems()).insert(*v),
        }
    }

    /// The binary-search-tree invariant: all values on the left are
    /// smaller, all values on the right are larger.
    pub open spec fn bst_wf(&self) -> bool
        decreases self,
    {
        match self {
            Tree::Tip => true,
            Tree::Node(l, v, r) => {
                &&& l.bst_wf()
                &&& r.bst_wf()
                &&& (forall|y: usize| l.elems().contains(y) ==> y < *v)
                &&& (forall|y: usize| r.elems().contains(y) ==> y > *v)
            },
        }
    }

    /// Membership with at most one comparison per level: instead of
    /// testing equality at every node, remember the last value `c` at
    /// which the search went right, and test `x == c` once a leaf is
    /// reached.
    pub fn member2(&self, x: usize) -> (b: bool)
        requires
            self.bst_wf(),
        ensures
            b == self.elems().contains(x),
    {
        match self {
            Tree::Tip => false,
            Tree::Node(_, v, _) => self.member_aux(x, *v),
        }
    }

    /// Searches for `x` in `self`, where `c` is the candidate remembered
    /// from the levels above: the answer reported is "`x` is in `self`,
    /// or `x` is exactly `c`".
    fn member_aux(&self, x: usize, c: usize) -> (b: bool)
        requires
            self.bst_wf(),
            x == c ==> self.elems().contains(x) || (forall|y: usize|
                self.elems().contains(y) ==> y > x),
        ensures
            b == (self.elems().contains(x) || x == c),
        decreases *self,
    {
        match self {
            Tree::Tip => x == c,
            Tree::Node(l, v, r) => {
                if x < *v {
                    proof {
                        assert(!r.elems().contains(x));
                        if x == c {
                            if self.elems().contains(x) {
                                assert(l.elems().contains(x));
                            } else {
                                assert forall|y: usize| l.elems().contains(y) implies y > x by {
                                    assert(self.elems().contains(y));
                                }
                            }
                        }
                    }
                    l.member_aux(x, c)
                } else {
                    proof {
                        assert(!l.elems().contains(x));
                        if x == c {
                            if !self.elems().contains(x) {
                                assert(self.elems().contains(*v));
                                assert(false);
                            }
                            assert(r.elems().contains(x) || x == *v);
                        }
                    }
                    r.member_aux(x, *v)
                }
            },
        }
    }
}

} // verus!
