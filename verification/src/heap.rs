//! The shared contract of the mergeable min-heaps.
//!
//! Both heap representations model their contents as a `Multiset<usize>` and
//! satisfy the same interface: `empty`, `is_empty`, `merge`, `insert`,
//! `find_min` and `delete_min`.  No operation mutates its argument; every
//! operation returns a fresh value that may share substructure with its
//! inputs.

use vstd::multiset::Multiset;
use vstd::prelude::*;

verus! {

broadcast use vstd::multiset::group_multiset_axioms;

/// The failure reported by `find_min` and `delete_min` on an empty heap.
#[derive(Clone, Copy, Debug, PartialEq, Eq, Structural)]
pub struct EmptyHeapError;

/// `x` is a smallest element of the multiset `m`.
pub open spec fn is_min_of(m: Multiset<usize>, x: usize) -> bool {
    m.contains(x) && forall|y: usize| m.contains(y) ==> x <= y
}

/// The contract shared by the two heap representations.
///
/// `inv` is the representation invariant (established by `empty` and
/// preserved by every operation) and `mset` is the multiset of stored
/// elements.  The bounds `usize::MAX` in `merge` and `insert` only reflect
/// that a heap held in memory cannot outgrow the machine.
pub trait Heap: Sized {
    spec fn inv(&self) -> bool;

    spec fn mset(&self) -> Multiset<usize>;

    fn empty() -> (h: Self)
        ensures
            h.inv(),
            h.mset() == Multiset::<usize>::empty(),
    ;

    fn is_empty(&self) -> (b: bool)
        requires
            self.inv(),
        ensures
            b <==> self.mset().len() == 0,
    ;

    fn merge(&self, other: &Self) -> (h: Self)
        requires
            self.inv(),
            other.inv(),
            self.mset().len() + other.mset().len() <= usize::MAX,
        ensures
            h.inv(),
            h.mset() == self.mset().add(other.mset()),
    ;

    fn insert(&self, x: usize) -> (h: Self)
        requires
            self.inv(),
            self.mset().len() < usize::MAX,
        ensures
            h.inv(),
            h.mset() == self.mset().insert(x),
    ;

    fn find_min(&self) -> (r: Result<usize, EmptyHeapError>)
        requires
            self.inv(),
        ensures
            (match r {
                Ok(m) => is_min_of(self.mset(), m),
                Err(e) => self.mset().len() == 0 && e == EmptyHeapError,
            }),
    ;

    fn delete_min(&self) -> (r: Result<Self, EmptyHeapError>)
        requires
            self.inv(),
        ensures
            (match r {
                Ok(h) => h.inv() && exists|m: usize|
                    is_min_of(self.mset(), m) && h.mset() == self.mset().remove(m),
                Err(e) => self.mset().len() == 0 && e == EmptyHeapError,
            }),
    ;
}

/// A multiset has at most one smallest element, so the `find_min` and
/// `delete_min` contracts pin the result down uniquely.
pub proof fn lemma_min_unique(m: Multiset<usize>, x: usize, y: usize)
    requires
        is_min_of(m, x),
        is_min_of(m, y),
    ensures
        x == y,
{
}

/// `merge` is commutative with respect to content: merging in either order
/// yields the same multiset (and hence, by `lemma_min_unique`, the same
/// minimum), even when the two results are not structurally identical.
pub proof fn lemma_merge_commutes(m1: Multiset<usize>, m2: Multiset<usize>)
    ensures
        m1.add(m2) == m2.add(m1),
{
    assert(m1.add(m2) =~= m2.add(m1));
}

/// Removing the minimum can only raise the minimum of what remains, so
/// repeated `delete_min` yields the elements in non-decreasing order.
pub proof fn lemma_delete_min_nondecreasing(m: Multiset<usize>, x: usize, y: usize)
    requires
        is_min_of(m, x),
        is_min_of(m.remove(x), y),
    ensures
        x <= y,
{
    if y != x {
        assert(Multiset::<usize>::singleton(x).count(y) == 0);
        assert(m.remove(x).count(y) > 0);
        assert(m.contains(y));
    }
}

} // verus!
