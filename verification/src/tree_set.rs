//! A persistent set backed by an unbalanced binary search tree.

use std::rc::Rc;

use vstd::prelude::*;

use crate::tree::Tree;

verus! {

/// The set interface, modelled as a `Set` of stored values.
pub trait SetOps<T>: Sized {
    spec fn inv(&self) -> bool;

    spec fn set_model(&self) -> Set<T>;

    fn empty() -> (s: Self)
        ensures
            s.inv(),
            s.set_model() == Set::<T>::empty(),
    ;

    fn insert(&self, x: T) -> (s: Self)
        requires
            self.inv(),
        ensures
            s.inv(),
            s.set_model() == self.set_model().insert(x),
    ;

    fn member(&self, x: T) -> (b: bool)
        requires
            self.inv(),
        ensures
            b == self.set_model().contains(x),
    ;
}

impl Tree<usize> {
    fn set_insert_rec(&self, x: usize) -> (res: Self)
        requires
            self.bst_wf(),
        ensures
            res.bst_wf(),
            res.elems() == self.elems().insert(x),
        decreases *self,
    {
        match self {
            Tree::Tip => {
                let res = Tree::Node(Rc::new(Tree::Tip), x, Rc::new(Tree::Tip));
                proof {
                    assert(res.elems() =~= self.elems().insert(x));
                }
                res
            },
            Tree::Node(l, v, r) => {
                if x < *v {
                    let res = Tree::Node(Rc::new(l.set_insert_rec(x)), *v, r.clone());
                    proof {
                        assert(res.elems() =~= self.elems().insert(x));
                    }
                    res
                } else if x > *v {
                    let res = Tree::Node(l.clone(), *v, Rc::new(r.set_insert_rec(x)));
                    proof {
                        assert(res.elems() =~= self.elems().insert(x));
                    }
                    res
                } else {
                    let res = self.duplicate();
                    proof {
                        assert(res.elems() =~= self.elems().insert(x));
                    }
                    res
                }
            },
        }
    }

    fn set_member_rec(&self, x: usize) -> (b: bool)
        requires
            self.bst_wf(),
        ensures
            b == self.elems().contains(x),
        decreases *self,
    {
        match self {
            Tree::Tip => false,
            Tree::Node(l, v, r) => {
                if x < *v {
                    proof {
                        assert(!r.elems().contains(x));
                    }
                    l.set_member_rec(x)
                } else if x > *v {
                    proof {
                        assert(!l.elems().contains(x));
                    }
                    r.set_member_rec(x)
                } else {
                    true
                }
            },
        }
    }
}

impl SetOps<usize> for Tree<usize> {
    open spec fn inv(&self) -> bool {
        self.bst_wf()
    }

    open spec fn set_model(&self) -> Set<usize> {
        self.elems()
    }

    fn empty() -> Self {
        Tree::Tip
    }

    fn insert(&self, x: usize) -> Self {
        self.set_insert_rec(x)
    }

    fn member(&self, x: usize) -> bool {
        self.set_member_rec(x)
    }
}

} // verus!
