//! The rank-balanced ("leftist") mergeable min-heap.
//!
//! A node stores its rank, the length of its right spine.  The single
//! recursive `merge` is the only primitive: `insert` merges a singleton and
//! `delete_min` merges the two children of the root.  Children sit behind
//! `Rc`, so every operation returns a new heap that shares all unchanged
//! subtrees with its inputs.

use std::rc::Rc;

use vstd::arithmetic::power2::{lemma_pow2_strictly_increases, lemma_pow2_unfold, pow2};
use vstd::multiset::Multiset;
use vstd::prelude::*;

use crate::heap::{is_min_of, EmptyHeapError, Heap};

verus! {

broadcast use vstd::multiset::group_multiset_axioms;

#[derive(Clone, Debug, PartialEq, Eq)]
pub enum LeftistHeap<T> {
    Tip,
    Node(usize, T, Rc<LeftistHeap<T>>, Rc<LeftistHeap<T>>),
}

impl LeftistHeap<usize> {
    /// The multiset of elements stored in the heap.
    pub open spec fn to_mset(&self) -> Multiset<usize>
        decreases self,
    {
        match self {
            LeftistHeap::Tip => Multiset::empty(),
            LeftistHeap::Node(_, x, l, r) => l.to_mset().add(r.to_mset()).insert(*x),
        }
    }

    /// The rank stored at the root (0 for the empty heap).
    pub open spec fn spine_rank(&self) -> nat {
        match self {
            LeftistHeap::Tip => 0,
            LeftistHeap::Node(k, _, _, _) => *k as nat,
        }
    }

    /// The representation invariant:
    /// - min-heap order: each node's value is at most every value in either
    ///   of its subtrees;
    /// - leftist shape: the right child's rank never exceeds the left one's,
    ///   and the stored rank is one more than the right child's rank (so it
    ///   is the length of the right spine);
    /// - the heap is small enough to exist in memory.
    pub open spec fn well_formed(&self) -> bool
        decreases self,
    {
        match self {
            LeftistHeap::Tip => true,
            LeftistHeap::Node(k, x, l, r) => {
                &&& l.well_formed()
                &&& r.well_formed()
                &&& (forall|y: usize| l.to_mset().contains(y) ==> *x <= y)
                &&& (forall|y: usize| r.to_mset().contains(y) ==> *x <= y)
                &&& r.spine_rank() <= l.spine_rank()
                &&& *k as nat == r.spine_rank() + 1
                &&& self.to_mset().len() <= usize::MAX
            },
        }
    }
}

/// `pow2(0)` is one.
proof fn lemma_pow2_zero()
    ensures
        pow2(0) == 1,
{
    vstd::arithmetic::power2::lemma_pow2(0);
    vstd::arithmetic::power::lemma_pow0(2);
}

/// Every natural number is below `pow2` of itself.
proof fn lemma_nat_lt_pow2(n: nat)
    ensures
        n < pow2(n),
    decreases n,
{
    if n == 0 {
        lemma_pow2_zero();
    } else {
        lemma_nat_lt_pow2((n - 1) as nat);
        lemma_pow2_unfold(n);
    }
}

/// A well-formed heap of rank `k` holds at least `pow2(k) - 1` elements;
/// this is the consequence of the leftist shape that keeps the right spine
/// logarithmic and, here, keeps the stored ranks small.
proof fn lemma_rank_size(h: &LeftistHeap<usize>)
    requires
        h.well_formed(),
    ensures
        pow2(h.spine_rank()) <= h.to_mset().len() + 1,
    decreases *h,
{
    match h {
        LeftistHeap::Tip => {
            lemma_pow2_zero();
        },
        LeftistHeap::Node(k, x, l, r) => {
            lemma_rank_size(l);
            lemma_rank_size(r);
            if r.spine_rank() < l.spine_rank() {
                lemma_pow2_strictly_increases(r.spine_rank(), l.spine_rank());
            }
            lemma_pow2_unfold(*k as nat);
        },
    }
}

/// Every element of a well-formed non-empty heap is at least the root value.
proof fn lemma_root_min(h: &LeftistHeap<usize>)
    requires
        h.well_formed(),
        *h is Node,
    ensures
        forall|y: usize| h.to_mset().contains(y) ==> h->Node_1 <= y,
{
    match h {
        LeftistHeap::Tip => {},
        LeftistHeap::Node(k, x, l, r) => {
            assert forall|y: usize| h.to_mset().contains(y) implies *x <= y by {
                if l.to_mset().contains(y) {
                } else if r.to_mset().contains(y) {
                } else {
                    if y != *x {
                        assert(Multiset::<usize>::singleton(*x).count(y) == 0);
                        assert(false);
                    }
                }
            }
        },
    }
}

impl LeftistHeap<usize> {
    /// A shallow copy: the new top-level value shares both children with
    /// `self` through `Rc`.
    fn duplicate(&self) -> (h: Self)
        ensures
            h == *self,
    {
        match self {
            LeftistHeap::Tip => LeftistHeap::Tip,
            LeftistHeap::Node(k, x, l, r) => LeftistHeap::Node(*k, *x, l.clone(), r.clone()),
        }
    }

    /// The canonical empty heap.
    pub fn empty() -> (h: Self)
        ensures
            h.well_formed(),
            h.to_mset() == Multiset::<usize>::empty(),
    {
        LeftistHeap::Tip
    }

    pub fn is_empty(&self) -> (b: bool)
        requires
            self.well_formed(),
        ensures
            b <==> self.to_mset().len() == 0,
    {
        match self {
            LeftistHeap::Tip => true,
            LeftistHeap::Node(_, _, _, _) => false,
        }
    }
}

/// The stored rank of a heap.
fn rank_of(h: &LeftistHeap<usize>) -> (k: usize)
    ensures
        k as nat == h.spine_rank(),
{
    match h {
        LeftistHeap::Tip => 0,
        LeftistHeap::Node(k, _, _, _) => *k,
    }
}

/// Builds a node with value `x` and subtrees `l` and `r`, placing the
/// higher-ranked subtree on the left so that the leftist shape holds.
fn make_node(x: usize, l: Rc<LeftistHeap<usize>>, r: Rc<LeftistHeap<usize>>) -> (h: LeftistHeap<
    usize,
>)
    requires
        (*l).well_formed(),
        (*r).well_formed(),
        forall|y: usize| (*l).to_mset().contains(y) ==> x <= y,
        forall|y: usize| (*r).to_mset().contains(y) ==> x <= y,
        (*l).to_mset().len() + (*r).to_mset().len() + 1 <= usize::MAX,
    ensures
        h.well_formed(),
        h.to_mset() == (*l).to_mset().add((*r).to_mset()).insert(x),
{
    let rl = rank_of(&l);
    let rr = rank_of(&r);
    proof {
        lemma_rank_size(&l);
        lemma_rank_size(&r);
        lemma_nat_lt_pow2(l.spine_rank());
        lemma_nat_lt_pow2(r.spine_rank());
    }
    if rl >= rr {
        LeftistHeap::Node(rr + 1, x, l, r)
    } else {
        let h = LeftistHeap::Node(rl + 1, x, r, l);
        proof {
            assert(h.to_mset() =~= (*l).to_mset().add((*r).to_mset()).insert(x));
        }
        h
    }
}

impl LeftistHeap<usize> {
    /// Merges two heaps into one holding the union of their contents.  Ties
    /// between the two roots keep the first operand's value, so merging is
    /// deterministic (and commutative in content, though not always in
    /// shape).
    pub fn merge(&self, h: &Self) -> (res: Self)
        requires
            self.well_formed(),
            h.well_formed(),
            self.to_mset().len() + h.to_mset().len() <= usize::MAX,
        ensures
            res.well_formed(),
            res.to_mset() == self.to_mset().add(h.to_mset()),
        decreases *self, *h,
    {
        match (self, h) {
            (_, LeftistHeap::Tip) => {
                let res = self.duplicate();
                proof {
                    assert(res.to_mset() =~= self.to_mset().add(h.to_mset()));
                }
                res
            },
            (LeftistHeap::Tip, _) => {
                let res = h.duplicate();
                proof {
                    assert(res.to_mset() =~= self.to_mset().add(h.to_mset()));
                }
                res
            },
            (LeftistHeap::Node(_, x, l1, r1), LeftistHeap::Node(_, y, l2, r2)) => {
                if *x <= *y {
                    let rest = Rc::new(r1.merge(h));
                    proof {
                        lemma_root_min(h);
                        assert forall|z: usize| rest.to_mset().contains(z) implies *x <= z by {
                            if r1.to_mset().contains(z) {
                            } else {
                                assert(h.to_mset().contains(z));
                            }
                        }
                    }
                    let res = make_node(*x, l1.clone(), rest);
                    proof {
                        assert(res.to_mset() =~= self.to_mset().add(h.to_mset()));
                    }
                    res
                } else {
                    let rest = Rc::new(self.merge(r2));
                    proof {
                        lemma_root_min(self);
                        assert forall|z: usize| rest.to_mset().contains(z) implies *y <= z by {
                            if r2.to_mset().contains(z) {
                            } else {
                                assert(self.to_mset().contains(z));
                            }
                        }
                    }
                    let res = make_node(*y, l2.clone(), rest);
                    proof {
                        assert(res.to_mset() =~= self.to_mset().add(h.to_mset()));
                    }
                    res
                }
            },
        }
    }

    /// Inserts one element: merging a singleton node with the heap.
    pub fn insert(&self, x: usize) -> (res: Self)
        requires
            self.well_formed(),
            self.to_mset().len() < usize::MAX,
        ensures
            res.well_formed(),
            res.to_mset() == self.to_mset().insert(x),
    {
        let single = LeftistHeap::Node(1, x, Rc::new(LeftistHeap::Tip), Rc::new(LeftistHeap::Tip));
        proof {
            reveal_with_fuel(LeftistHeap::to_mset, 2);
            reveal_with_fuel(LeftistHeap::well_formed, 2);
            assert(single.to_mset() =~= Multiset::<usize>::empty().insert(x));
            assert(single.to_mset().len() == 1);
            assert(single.well_formed());
        }
        let res = single.merge(self);
        proof {
            assert(res.to_mset() =~= self.to_mset().insert(x));
        }
        res
    }

    /// Reads the minimum, which heap order places at the root; fails on the
    /// empty heap.
    pub fn find_min(&self) -> (r: Result<usize, EmptyHeapError>)
        requires
            self.well_formed(),
        ensures
            (match r {
                Ok(m) => is_min_of(self.to_mset(), m),
                Err(e) => self.to_mset().len() == 0 && e == EmptyHeapError,
            }),
    {
        match self {
            LeftistHeap::Tip => Err(EmptyHeapError),
            LeftistHeap::Node(_, x, _, _) => {
                proof {
                    lemma_root_min(self);
                }
                Ok(*x)
            },
        }
    }

    /// Removes one occurrence of the minimum by merging the root's two
    /// children; fails on the empty heap.
    pub fn delete_min(&self) -> (r: Result<Self, EmptyHeapError>)
        requires
            self.well_formed(),
        ensures
            (match r {
                Ok(h) => h.well_formed() && exists|m: usize|
                    is_min_of(self.to_mset(), m) && h.to_mset() == self.to_mset().remove(m),
                Err(e) => self.to_mset().len() == 0 && e == EmptyHeapError,
            }),
    {
        match self {
            LeftistHeap::Tip => Err(EmptyHeapError),
            LeftistHeap::Node(_, x, l, r) => {
                let rest = l.merge(r);
                proof {
                    lemma_root_min(self);
                    assert(rest.to_mset() =~= self.to_mset().remove(*x));
                    assert(is_min_of(self.to_mset(), *x) && rest.to_mset() == self.to_mset().remove(
                        *x,
                    ));
                }
                Ok(rest)
            },
        }
    }
}

impl Heap for LeftistHeap<usize> {
    open spec fn inv(&self) -> bool {
        self.well_formed()
    }

    open spec fn mset(&self) -> Multiset<usize> {
        self.to_mset()
    }

    fn empty() -> Self {
        LeftistHeap::empty()
    }

    fn is_empty(&self) -> bool {
        LeftistHeap::is_empty(self)
    }

    fn merge(&self, other: &Self) -> Self {
        LeftistHeap::merge(self, other)
    }

    fn insert(&self, x: usize) -> Self {
        LeftistHeap::insert(self, x)
    }

    fn find_min(&self) -> Result<usize, EmptyHeapError> {
        LeftistHeap::find_min(self)
    }

    fn delete_min(&self) -> Result<Self, EmptyHeapError> {
        let r = LeftistHeap::delete_min(self);
        proof {
            match &r {
                Ok(h) => {
                    let m = choose|m: usize|
                        is_min_of(self.to_mset(), m) && h.to_mset() == self.to_mset().remove(m);
                    assert(is_min_of(self.mset(), m) && h.mset() == self.mset().remove(m));
                },
                Err(_) => {},
            }
        }
        r
    }
}

} // verus!
