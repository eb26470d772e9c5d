//! The forest ("binomial") mergeable min-heap.
//!
//! A heap is an ascending-rank sequence of power-of-two trees.  `link`
//! combines two equal-rank trees; `insert_tree` and `merge` behave like
//! binary addition with carries.  Trees sit behind `Rc`, so every operation
//! returns a new forest that shares all unchanged trees with its inputs.

use std::rc::Rc;

use vstd::arithmetic::power2::{lemma_pow2_unfold, pow2};
use vstd::multiset::Multiset;
use vstd::prelude::*;

use crate::heap::{is_min_of, EmptyHeapError, Heap};

verus! {

broadcast use vstd::multiset::group_multiset_axioms;

/// A forest of binomial trees, kept in strictly increasing rank order.
pub type BinomialHeap<T> = Vec<Rc<BinomialTree<T>>>;

/// A binomial tree: its rank, its root value, and its children, stored in
/// decreasing rank order (rank - 1 down to 0).
#[derive(Clone, Debug, PartialEq, Eq)]
pub struct BinomialTree<T>(pub usize, pub T, pub BinomialHeap<T>);

impl BinomialTree<usize> {
    /// The rank stored at the root.
    pub open spec fn rank_nat(&self) -> nat {
        self.0 as nat
    }

    /// The root value.
    pub open spec fn root_val(&self) -> usize {
        self.1
    }

    /// The multiset of elements stored in the tree.
    pub open spec fn to_mset(&self) -> Multiset<usize>
        decreases self,
    {
        forest_mset(self.2@).insert(self.1)
    }

    /// Well-formedness of a binomial tree: a tree of rank `r` has children
    /// of ranks `r - 1, r - 2, ..., 0` in that order, each itself
    /// well-formed, and the root value is at most every value in the tree
    /// (heap order).
    pub open spec fn wf(&self) -> bool
        decreases self,
    {
        &&& self.2@.len() == self.0
        &&& (forall|i: int|
            0 <= i < self.2@.len() ==> (#[trigger] self.2@[i]).rank_nat() == self.0 - 1 - i)
        &&& (forall|i: int| 0 <= i < self.2@.len() ==> (#[trigger] self.2@[i]).wf())
        &&& (forall|y: usize| forest_mset(self.2@).contains(y) ==> self.1 <= y)
    }
}

/// The multiset of elements stored in a forest.
pub open spec fn forest_mset(s: Seq<Rc<BinomialTree<usize>>>) -> Multiset<usize>
    decreases s,
{
    if s.len() == 0 {
        Multiset::empty()
    } else {
        s[0].to_mset().add(forest_mset(s.drop_first()))
    }
}

/// Well-formedness of a forest: every tree is well-formed and the ranks are
/// strictly increasing along the sequence.
pub open spec fn forest_wf(s: Seq<Rc<BinomialTree<usize>>>) -> bool {
    &&& (forall|i: int| 0 <= i < s.len() ==> (#[trigger] s[i]).wf())
    &&& (forall|i: int, j: int|
        0 <= i < j < s.len() ==> (#[trigger] s[i]).rank_nat() < (#[trigger] s[j]).rank_nat())
}

/// Every rank in the forest is at least `b`.
pub open spec fn ranks_ge(s: Seq<Rc<BinomialTree<usize>>>, b: nat) -> bool {
    forall|i: int| 0 <= i < s.len() ==> b <= (#[trigger] s[i]).rank_nat()
}

/// The multiset of the empty forest is empty.
proof fn lemma_forest_mset_empty()
    ensures
        forest_mset(Seq::<Rc<BinomialTree<usize>>>::empty()) == Multiset::<usize>::empty(),
{
}

/// Appending a tree at the back adds its contents to the forest's multiset.
proof fn lemma_forest_mset_push(s: Seq<Rc<BinomialTree<usize>>>, x: Rc<BinomialTree<usize>>)
    ensures
        forest_mset(s.push(x)) == forest_mset(s).add(x.to_mset()),
    decreases s.len(),
{
    reveal_with_fuel(forest_mset, 3);
    if s.len() == 0 {
        assert(s.push(x).drop_first() =~= Seq::<Rc<BinomialTree<usize>>>::empty());
        assert(forest_mset(s.push(x)) =~= forest_mset(s).add(x.to_mset()));
    } else {
        assert(s.push(x).drop_first() =~= s.drop_first().push(x));
        lemma_forest_mset_push(s.drop_first(), x);
        assert(forest_mset(s.push(x)) =~= forest_mset(s).add(x.to_mset()));
    }
}

/// Reversing a forest leaves its multiset of elements unchanged.
proof fn lemma_forest_mset_reverse(s: Seq<Rc<BinomialTree<usize>>>)
    ensures
        forest_mset(s.reverse()) == forest_mset(s),
    decreases s.len(),
{
    if s.len() == 0 {
        assert(s.reverse() =~= s);
    } else {
        let last = s.last();
        assert(s.reverse()[0] == last);
        assert(s.reverse().drop_first() =~= s.drop_last().reverse());
        lemma_forest_mset_reverse(s.drop_last());
        assert(s =~= s.drop_last().push(last));
        lemma_forest_mset_push(s.drop_last(), last);
        assert(forest_mset(s.reverse()) =~= forest_mset(s));
    }
}

/// A forest holds at least as many elements as it has trees.
proof fn lemma_forest_floor(s: Seq<Rc<BinomialTree<usize>>>)
    ensures
        forest_mset(s).len() >= s.len(),
    decreases s.len(),
{
    if s.len() > 0 {
        lemma_forest_floor(s.drop_first());
        assert(s[0].to_mset().len() >= 1);
        assert(forest_mset(s) == s[0].to_mset().add(forest_mset(s.drop_first())));
    }
}

/// Every element of a well-formed tree is at least the root value.
proof fn lemma_tree_root_min(t: &BinomialTree<usize>)
    requires
        t.wf(),
    ensures
        forall|y: usize| t.to_mset().contains(y) ==> t.1 <= y,
{
    assert forall|y: usize| t.to_mset().contains(y) implies t.1 <= y by {
        if forest_mset(t.2@).contains(y) {
        } else {
            if y != t.1 {
                assert(Multiset::<usize>::singleton(t.1).count(y) == 0);
                assert(false);
            }
        }
    }
}

/// `pow2(0)` is one.
proof fn lemma_pow2_zero()
    ensures
        pow2(0) == 1,
{
    vstd::arithmetic::power2::lemma_pow2(0);
    vstd::arithmetic::power::lemma_pow0(2);
}

/// A well-formed binomial tree of rank `r` holds exactly `pow2(r)`
/// elements: its children hold `pow2(r - 1), ..., pow2(0)` elements, and
/// the root adds one more.
pub proof fn lemma_tree_size(t: &BinomialTree<usize>)
    requires
        t.wf(),
    ensures
        t.to_mset().len() == pow2(t.rank_nat()),
{
    lemma_children_size(t.2@, t.rank_nat());
}

/// The same size law, stated on a shared tree so that it can recurse
/// through the `Rc` handles held by a child sequence.
proof fn lemma_rc_tree_size(t: Rc<BinomialTree<usize>>)
    requires
        t.wf(),
    ensures
        t.to_mset().len() == pow2(t.rank_nat()),
    decreases t,
{
    lemma_children_size(t.2@, t.rank_nat());
}

/// The children of a rank-`r` tree (ranks `r - 1` down to `0`, each
/// well-formed) hold `pow2(r) - 1` elements in all.
proof fn lemma_children_size(s: Seq<Rc<BinomialTree<usize>>>, r: nat)
    requires
        s.len() == r,
        forall|i: int| 0 <= i < s.len() ==> (#[trigger] s[i]).rank_nat() == r - 1 - i,
        forall|i: int| 0 <= i < s.len() ==> (#[trigger] s[i]).wf(),
    ensures
        forest_mset(s).len() + 1 == pow2(r),
    decreases s,
{
    if r == 0 {
        lemma_pow2_zero();
    } else {
        lemma_rc_tree_size(s[0]);
        assert forall|i: int| 0 <= i < s.drop_first().len() implies (
        #[trigger] s.drop_first()[i]).rank_nat() == (r - 1) - 1 - i && s.drop_first()[i].wf() by {
            assert(s.drop_first()[i] == s[i + 1]);
        }
        lemma_children_size(s.drop_first(), (r - 1) as nat);
        lemma_pow2_unfold(r);
    }
}

/// Copies a forest at the top level; the new vector shares every tree with
/// the old one through `Rc`.
fn forest_dup(h: &BinomialHeap<usize>) -> (r: BinomialHeap<usize>)
    ensures
        r@ == h@,
{
    let mut r: BinomialHeap<usize> = Vec::new();
    let mut i: usize = 0;
    while i < h.len()
        invariant
            i <= h.len(),
            r@ =~= h@.subrange(0, i as int),
        decreases h.len() - i,
    {
        r.push(h[i].clone());
        i = i + 1;
    }
    proof {
        assert(r@ =~= h@);
    }
    r
}

/// The forest without its first (lowest-rank) tree.
fn forest_tail(h: &BinomialHeap<usize>) -> (r: BinomialHeap<usize>)
    requires
        h@.len() > 0,
    ensures
        r@ == h@.drop_first(),
{
    let mut r: BinomialHeap<usize> = Vec::new();
    let mut i: usize = 1;
    while i < h.len()
        invariant
            1 <= i <= h.len(),
            r@ =~= h@.subrange(1, i as int),
        decreases h.len() - i,
    {
        r.push(h[i].clone());
        i = i + 1;
    }
    proof {
        assert(r@ =~= h@.drop_first());
    }
    r
}

/// Puts a tree in front of a forest.
fn forest_cons(t: Rc<BinomialTree<usize>>, h: &BinomialHeap<usize>) -> (r: BinomialHeap<usize>)
    ensures
        r@.len() == h@.len() + 1,
        r@[0] == t,
        r@.drop_first() == h@,
{
    let mut r: BinomialHeap<usize> = Vec::new();
    r.push(t);
    let mut i: usize = 0;
    while i < h.len()
        invariant
            i <= h.len(),
            r@.len() == i + 1,
            r@.subrange(1, i + 1) =~= h@.subrange(0, i as int),
            r@[0] == t,
        decreases h.len() - i,
    {
        r.push(h[i].clone());
        i = i + 1;
    }
    proof {
        assert(r@.drop_first() =~= h@);
    }
    r
}

/// Copies a tree at the top level, sharing all of its children.
fn tree_dup(t: &BinomialTree<usize>) -> (r: BinomialTree<usize>)
    ensures
        r.0 == t.0,
        r.1 == t.1,
        r.2@ == t.2@,
{
    BinomialTree(t.0, t.1, forest_dup(&t.2))
}

/// The rank of a binomial tree.
pub fn rank(t: &BinomialTree<usize>) -> (k: usize)
    ensures
        k as nat == t.rank_nat(),
{
    t.0
}

/// The root value of a binomial tree.
pub fn root(t: &BinomialTree<usize>) -> (x: usize)
    ensures
        x == t.root_val(),
{
    t.1
}

/// Links two trees of equal rank `r` into one of rank `r + 1`: the tree
/// with the larger root becomes the first (highest-rank) child of the
/// other.  Ties keep the first operand as the parent.
pub fn link(t1: &BinomialTree<usize>, t2: &BinomialTree<usize>) -> (t: BinomialTree<usize>)
    requires
        t1.wf(),
        t2.wf(),
        t1.rank_nat() == t2.rank_nat(),
        t1.to_mset().len() + t2.to_mset().len() <= usize::MAX,
    ensures
        t.wf(),
        t.rank_nat() == t1.rank_nat() + 1,
        t.to_mset() == t1.to_mset().add(t2.to_mset()),
{
    proof {
        lemma_forest_floor(t1.2@);
        lemma_tree_root_min(t1);
        lemma_tree_root_min(t2);
    }
    if t1.1 <= t2.1 {
        let c = forest_cons(Rc::new(tree_dup(t2)), &t1.2);
        let t = BinomialTree(t1.0 + 1, t1.1, c);
        proof {
            lemma_link_shape(t1, t2, &t);
        }
        t
    } else {
        let c = forest_cons(Rc::new(tree_dup(t1)), &t2.2);
        let t = BinomialTree(t2.0 + 1, t2.1, c);
        proof {
            lemma_link_shape(t2, t1, &t);
            assert(t.to_mset() =~= t1.to_mset().add(t2.to_mset()));
        }
        t
    }
}

/// The common proof for both orientations of `link`: `t` was built with
/// `winner`'s value and rank `r + 1`, and its children are `loser` followed
/// by `winner`'s children.
proof fn lemma_link_shape(
    winner: &BinomialTree<usize>,
    loser: &BinomialTree<usize>,
    t: &BinomialTree<usize>,
)
    requires
        winner.wf(),
        loser.wf(),
        winner.rank_nat() == loser.rank_nat(),
        winner.1 <= loser.1,
        t.0 == winner.0 + 1,
        t.1 == winner.1,
        t.2@.len() == winner.2@.len() + 1,
        t.2@[0].rank_nat() == loser.rank_nat(),
        t.2@[0].root_val() == loser.root_val(),
        t.2@[0].wf(),
        t.2@[0].to_mset() == loser.to_mset(),
        t.2@.drop_first() == winner.2@,
    ensures
        t.wf(),
        t.rank_nat() == winner.rank_nat() + 1,
        t.to_mset() == winner.to_mset().add(loser.to_mset()),
{
    lemma_tree_root_min(winner);
    lemma_tree_root_min(loser);
    assert(forest_mset(t.2@) == t.2@[0].to_mset().add(forest_mset(t.2@.drop_first())));
    assert forall|i: int| 0 <= i < t.2@.len() implies (#[trigger] t.2@[i]).rank_nat() == t.0 - 1
        - i by {
        if i > 0 {
            assert(t.2@[i] == winner.2@[i - 1]);
        }
    }
    assert forall|i: int| 0 <= i < t.2@.len() implies (#[trigger] t.2@[i]).wf() by {
        if i > 0 {
            assert(t.2@[i] == winner.2@[i - 1]);
        }
    }
    assert forall|y: usize| forest_mset(t.2@).contains(y) implies t.1 <= y by {
        if loser.to_mset().contains(y) {
        } else {
            assert(forest_mset(winner.2@).contains(y));
        }
    }
    assert(t.to_mset() =~= winner.to_mset().add(loser.to_mset()));
}

/// Inserts a tree whose rank is at most every rank in the forest,
/// propagating carries by linking equal-rank trees, as in a binary
/// increment.
pub fn insert_tree(h: &BinomialHeap<usize>, t: &BinomialTree<usize>) -> (res: BinomialHeap<usize>)
    requires
        forest_wf(h@),
        t.wf(),
        ranks_ge(h@, t.rank_nat()),
        t.to_mset().len() + forest_mset(h@).len() <= usize::MAX,
    ensures
        forest_wf(res@),
        forest_mset(res@) == t.to_mset().add(forest_mset(h@)),
        res@.len() > 0,
        ranks_ge(res@, t.rank_nat()),
    decreases h@.len(),
{
    if h.len() == 0 {
        let mut v: BinomialHeap<usize> = Vec::new();
        v.push(Rc::new(tree_dup(t)));
        proof {
            lemma_forest_mset_empty();
            assert(v@.drop_first() =~= Seq::<Rc<BinomialTree<usize>>>::empty());
            assert(v@[0].to_mset() == t.to_mset());
            assert(forest_mset(v@) == v@[0].to_mset().add(forest_mset(v@.drop_first())));
            assert(forest_mset(v@) =~= t.to_mset().add(forest_mset(h@)));
        }
        v
    } else {
        let t2 = &h[0];
        if rank(t) < rank(t2) {
            let res = forest_cons(Rc::new(tree_dup(t)), h);
            proof {
                assert forall|i: int, j: int|
                    0 <= i < j < res@.len() implies (#[trigger] res@[i]).rank_nat() < (
                #[trigger] res@[j]).rank_nat() by {
                    if i > 0 {
                        assert(res@[i] == h@[i - 1] && res@[j] == h@[j - 1]);
                    } else {
                        assert(res@[j] == h@[j - 1]);
                    }
                }
                assert forall|i: int| 0 <= i < res@.len() implies (#[trigger] res@[i]).wf() by {
                    if i > 0 {
                        assert(res@[i] == h@[i - 1]);
                    }
                }
                assert(forest_mset(res@) == res@[0].to_mset().add(forest_mset(res@.drop_first())));
            }
            res
        } else {
            let tail = forest_tail(h);
            proof {
                assert(forest_mset(h@) == h@[0].to_mset().add(forest_mset(h@.drop_first())));
                assert(t.rank_nat() == t2.rank_nat());
                assert forall|i: int| 0 <= i < tail@.len() implies (#[trigger] tail@[i]).rank_nat()
                    >= t2.rank_nat() + 1 by {
                    assert(tail@[i] == h@[i + 1]);
                }
            }
            let linked = link(t, t2);
            let res = insert_tree(&tail, &linked);
            proof {
                assert(forest_mset(res@) =~= t.to_mset().add(forest_mset(h@)));
            }
            res
        }
    }
}

/// Finds the tree with the smallest root, removes it from the forest, and
/// returns both.  On a tie the tree later in the sequence wins.  The
/// remaining forest keeps its relative order, so it stays well-formed.
pub fn remove_min_tree(h: &BinomialHeap<usize>) -> (r: (BinomialTree<usize>, BinomialHeap<usize>))
    requires
        forest_wf(h@),
        h@.len() > 0,
    ensures
        r.0.wf(),
        forest_wf(r.1@),
        r.0.to_mset().add(forest_mset(r.1@)) == forest_mset(h@),
        forall|y: usize| forest_mset(h@).contains(y) ==> r.0.root_val() <= y,
        r.1@.len() == h@.len() - 1,
        forall|i: int|
            0 <= i < r.1@.len() ==> exists|j: int| 0 <= j < h@.len() && #[trigger] r.1@[i] == h@[j],
    decreases h@.len(),
{
    proof {
        assert(forest_mset(h@) == h@[0].to_mset().add(forest_mset(h@.drop_first())));
        lemma_tree_root_min(&h[0]);
    }
    if h.len() == 1 {
        let res = (tree_dup(&h[0]), Vec::<Rc<BinomialTree<usize>>>::new());
        proof {
            lemma_forest_mset_empty();
            assert(h@.drop_first() =~= Seq::<Rc<BinomialTree<usize>>>::empty());
            assert(res.0.to_mset() == h@[0].to_mset());
            assert(res.0.to_mset().add(forest_mset(res.1@)) =~= forest_mset(h@));
            assert forall|y: usize| forest_mset(h@).contains(y) implies res.0.root_val() <= y by {
                assert(h@[0].to_mset().contains(y));
            }
        }
        res
    } else {
        let t = &h[0];
        let ts = forest_tail(h);
        let (t1, ts1) = remove_min_tree(&ts);
        if root(t) < root(&t1) {
            let res = (tree_dup(t), ts);
            proof {
                assert forall|i: int| 0 <= i < res.1@.len() implies exists|j: int|
                    0 <= j < h@.len() && #[trigger] res.1@[i] == h@[j] by {
                    assert(res.1@[i] == h@[i + 1]);
                }
                assert(res.0.to_mset().add(forest_mset(res.1@)) =~= forest_mset(h@));
                assert forall|y: usize| forest_mset(h@).contains(y) implies res.0.root_val()
                    <= y by {
                    if h@[0].to_mset().contains(y) {
                    } else {
                        assert(forest_mset(ts@).contains(y));
                    }
                }
            }
            res
        } else {
            let res_forest = forest_cons(t.clone(), &ts1);
            proof {
                assert forall|i: int| 0 <= i < res_forest@.len() implies exists|j: int|
                    0 <= j < h@.len() && #[trigger] res_forest@[i] == h@[j] by {
                    if i == 0 {
                        assert(res_forest@[0] == h@[0]);
                    } else {
                        assert(res_forest@[i] == ts1@[i - 1]);
                        let j = choose|j: int| 0 <= j < ts@.len() && ts1@[i - 1] == ts@[j];
                        assert(res_forest@[i] == h@[j + 1]);
                    }
                }
                assert forall|i: int, j: int|
                    0 <= i < j < res_forest@.len() implies (#[trigger] res_forest@[i]).rank_nat()
                    < (#[trigger] res_forest@[j]).rank_nat() by {
                    if i > 0 {
                        assert(res_forest@[i] == ts1@[i - 1] && res_forest@[j] == ts1@[j - 1]);
                    } else {
                        assert(res_forest@[j] == ts1@[j - 1]);
                        let j2 = choose|j2: int| 0 <= j2 < ts@.len() && ts1@[j - 1] == ts@[j2];
                        assert(ts@[j2] == h@[j2 + 1]);
                    }
                }
                assert forall|i: int| 0 <= i < res_forest@.len() implies (
                #[trigger] res_forest@[i]).wf() by {
                    if i > 0 {
                        assert(res_forest@[i] == ts1@[i - 1]);
                    }
                }
                assert(forest_mset(res_forest@) == res_forest@[0].to_mset().add(
                    forest_mset(res_forest@.drop_first()),
                ));
                assert(t1.to_mset().add(forest_mset(res_forest@)) =~= forest_mset(h@));
                assert forall|y: usize| forest_mset(h@).contains(y) implies t1.root_val() <= y by {
                    if h@[0].to_mset().contains(y) {
                    } else {
                        assert(forest_mset(ts@).contains(y));
                    }
                }
            }
            (t1, res_forest)
        }
    }
}

/// Reverses a forest at the top level.
fn forest_rev(h: &BinomialHeap<usize>) -> (r: BinomialHeap<usize>)
    ensures
        r@ == h@.reverse(),
{
    let mut r: BinomialHeap<usize> = Vec::new();
    let mut i: usize = h.len();
    while i > 0
        invariant
            i <= h.len(),
            r@.len() == h.len() - i,
            forall|k: int| 0 <= k < r@.len() ==> #[trigger] r@[k] == h@[h@.len() - 1 - k],
        decreases i,
    {
        i = i - 1;
        r.push(h[i].clone());
    }
    proof {
        assert(r@ =~= h@.reverse());
    }
    r
}

/// Merges two forests the way binary addition merges two numbers: trees of
/// distinct rank are interleaved in rank order, and two trees of equal rank
/// are linked into a carry that is inserted into the merge of the tails.
fn merge_forests(a: &BinomialHeap<usize>, b: &BinomialHeap<usize>) -> (res: BinomialHeap<usize>)
    requires
        forest_wf(a@),
        forest_wf(b@),
        forest_mset(a@).len() + forest_mset(b@).len() <= usize::MAX,
    ensures
        forest_wf(res@),
        forest_mset(res@) == forest_mset(a@).add(forest_mset(b@)),
        forall|k: nat| ranks_ge(a@, k) && ranks_ge(b@, k) ==> ranks_ge(res@, k),
    decreases a@.len() + b@.len(),
{
    if b.len() == 0 {
        let res = forest_dup(a);
        proof {
            lemma_forest_mset_empty();
            assert(b@ =~= Seq::<Rc<BinomialTree<usize>>>::empty());
            assert(forest_mset(res@) =~= forest_mset(a@).add(forest_mset(b@)));
        }
        res
    } else if a.len() == 0 {
        let res = forest_dup(b);
        proof {
            lemma_forest_mset_empty();
            assert(a@ =~= Seq::<Rc<BinomialTree<usize>>>::empty());
            assert(forest_mset(res@) =~= forest_mset(a@).add(forest_mset(b@)));
        }
        res
    } else {
        let t1 = &a[0];
        let t2 = &b[0];
        proof {
            assert(forest_mset(a@) == a@[0].to_mset().add(forest_mset(a@.drop_first())));
            assert(forest_mset(b@) == b@[0].to_mset().add(forest_mset(b@.drop_first())));
        }
        if rank(t1) < rank(t2) {
            let ta = forest_tail(a);
            let rest = merge_forests(&ta, b);
            proof {
                assert(ranks_ge(ta@, t1.rank_nat() + 1)) by {
                    assert forall|i: int| 0 <= i < ta@.len() implies t1.rank_nat() + 1 <= (
                    #[trigger] ta@[i]).rank_nat() by {
                        assert(ta@[i] == a@[i + 1]);
                    }
                }
                assert(ranks_ge(b@, t1.rank_nat() + 1)) by {
                    assert forall|i: int| 0 <= i < b@.len() implies t1.rank_nat() + 1 <= (
                    #[trigger] b@[i]).rank_nat() by {
                        if i > 0 {
                            assert(b@[0].rank_nat() < b@[i].rank_nat());
                        }
                    }
                }
                assert(ranks_ge(rest@, t1.rank_nat() + 1));
            }
            let res = forest_cons(t1.clone(), &rest);
            proof {
                assert forall|i: int, j: int|
                    0 <= i < j < res@.len() implies (#[trigger] res@[i]).rank_nat() < (
                #[trigger] res@[j]).rank_nat() by {
                    if i > 0 {
                        assert(res@[i] == rest@[i - 1] && res@[j] == rest@[j - 1]);
                    } else {
                        assert(res@[j] == rest@[j - 1]);
                    }
                }
                assert forall|i: int| 0 <= i < res@.len() implies (#[trigger] res@[i]).wf() by {
                    if i > 0 {
                        assert(res@[i] == rest@[i - 1]);
                    }
                }
                assert(forest_mset(res@) == res@[0].to_mset().add(forest_mset(res@.drop_first())));
                assert(forest_mset(res@) =~= forest_mset(a@).add(forest_mset(b@)));
                assert forall|k: nat| ranks_ge(a@, k) && ranks_ge(b@, k) implies ranks_ge(
                    res@,
                    k,
                ) by {
                    assert(ranks_ge(ta@, k)) by {
                        assert forall|i: int| 0 <= i < ta@.len() implies k <= (
                        #[trigger] ta@[i]).rank_nat() by {
                            assert(ta@[i] == a@[i + 1]);
                        }
                    }
                    assert(ranks_ge(rest@, k));
                    assert forall|i: int| 0 <= i < res@.len() implies k <= (
                    #[trigger] res@[i]).rank_nat() by {
                        if i > 0 {
                            assert(res@[i] == rest@[i - 1]);
                        }
                    }
                }
            }
            res
        } else if rank(t2) < rank(t1) {
            let tb = forest_tail(b);
            let rest = merge_forests(a, &tb);
            proof {
                assert(ranks_ge(tb@, t2.rank_nat() + 1)) by {
                    assert forall|i: int| 0 <= i < tb@.len() implies t2.rank_nat() + 1 <= (
                    #[trigger] tb@[i]).rank_nat() by {
                        assert(tb@[i] == b@[i + 1]);
                    }
                }
                assert(ranks_ge(a@, t2.rank_nat() + 1)) by {
                    assert forall|i: int| 0 <= i < a@.len() implies t2.rank_nat() + 1 <= (
                    #[trigger] a@[i]).rank_nat() by {
                        if i > 0 {
                            assert(a@[0].rank_nat() < a@[i].rank_nat());
                        }
                    }
                }
                assert(ranks_ge(rest@, t2.rank_nat() + 1));
            }
            let res = forest_cons(t2.clone(), &rest);
            proof {
                assert forall|i: int, j: int|
                    0 <= i < j < res@.len() implies (#[trigger] res@[i]).rank_nat() < (
                #[trigger] res@[j]).rank_nat() by {
                    if i > 0 {
                        assert(res@[i] == rest@[i - 1] && res@[j] == rest@[j - 1]);
                    } else {
                        assert(res@[j] == rest@[j - 1]);
                    }
                }
                assert forall|i: int| 0 <= i < res@.len() implies (#[trigger] res@[i]).wf() by {
                    if i > 0 {
                        assert(res@[i] == rest@[i - 1]);
                    }
                }
                assert(forest_mset(res@) == res@[0].to_mset().add(forest_mset(res@.drop_first())));
                assert(forest_mset(res@) =~= forest_mset(a@).add(forest_mset(b@)));
                assert forall|k: nat| ranks_ge(a@, k) && ranks_ge(b@, k) implies ranks_ge(
                    res@,
                    k,
                ) by {
                    assert(ranks_ge(tb@, k)) by {
                        assert forall|i: int| 0 <= i < tb@.len() implies k <= (
                        #[trigger] tb@[i]).rank_nat() by {
                            assert(tb@[i] == b@[i + 1]);
                        }
                    }
                    assert(ranks_ge(rest@, k));
                    assert forall|i: int| 0 <= i < res@.len() implies k <= (
                    #[trigger] res@[i]).rank_nat() by {
                        if i > 0 {
                            assert(res@[i] == rest@[i - 1]);
                        }
                    }
                }
            }
            res
        } else {
            let ta = forest_tail(a);
            let tb = forest_tail(b);
            proof {
                assert forall|i: int| 0 <= i < ta@.len() implies t1.rank_nat() + 1 <= (
                #[trigger] ta@[i]).rank_nat() by {
                    assert(ta@[i] == a@[i + 1]);
                }
                assert forall|i: int| 0 <= i < tb@.len() implies t1.rank_nat() + 1 <= (
                #[trigger] tb@[i]).rank_nat() by {
                    assert(tb@[i] == b@[i + 1]);
                }
            }
            let linked = link(t1, t2);
            let rest = merge_forests(&ta, &tb);
            proof {
                assert(ranks_ge(rest@, t1.rank_nat() + 1));
            }
            let res = insert_tree(&rest, &linked);
            proof {
                assert(forest_mset(res@) =~= forest_mset(a@).add(forest_mset(b@)));
                assert forall|k: nat| ranks_ge(a@, k) && ranks_ge(b@, k) implies ranks_ge(
                    res@,
                    k,
                ) by {
                    assert(k <= a@[0].rank_nat());
                    assert(ranks_ge(res@, linked.rank_nat()));
                    assert forall|i: int| 0 <= i < res@.len() implies k <= (
                    #[trigger] res@[i]).rank_nat() by {
                        assert(linked.rank_nat() <= res@[i].rank_nat());
                    }
                }
            }
            res
        }
    }
}

impl Heap for BinomialHeap<usize> {
    open spec fn inv(&self) -> bool {
        forest_wf(self@) && forest_mset(self@).len() <= usize::MAX
    }

    open spec fn mset(&self) -> Multiset<usize> {
        forest_mset(self@)
    }

    fn empty() -> Self {
        let h: BinomialHeap<usize> = Vec::new();
        proof {
            lemma_forest_mset_empty();
            assert(h@ =~= Seq::<Rc<BinomialTree<usize>>>::empty());
        }
        h
    }

    fn is_empty(&self) -> bool {
        proof {
            lemma_forest_mset_empty();
            if self@.len() > 0 {
                lemma_forest_floor(self@);
            } else {
                assert(self@ =~= Seq::<Rc<BinomialTree<usize>>>::empty());
            }
        }
        self.len() == 0
    }

    fn merge(&self, other: &Self) -> Self {
        merge_forests(self, other)
    }

    fn insert(&self, x: usize) -> Self {
        let single = BinomialTree(0usize, x, Vec::<Rc<BinomialTree<usize>>>::new());
        proof {
            lemma_forest_mset_empty();
            assert(single.2@ =~= Seq::<Rc<BinomialTree<usize>>>::empty());
            assert(single.to_mset() =~= Multiset::<usize>::empty().insert(x));
            assert(single.to_mset().len() == 1);
            assert(single.wf());
        }
        let res = insert_tree(self, &single);
        proof {
            assert(forest_mset(res@) =~= forest_mset(self@).insert(x));
        }
        res
    }

    fn find_min(&self) -> Result<usize, EmptyHeapError> {
        if self.len() == 0 {
            proof {
                lemma_forest_mset_empty();
                assert(self@ =~= Seq::<Rc<BinomialTree<usize>>>::empty());
            }
            Err(EmptyHeapError)
        } else {
            let (t, _rest) = remove_min_tree(self);
            let m = root(&t);
            proof {
                assert(t.to_mset().contains(m));
                assert(forest_mset(self@).contains(m));
            }
            Ok(m)
        }
    }

    fn delete_min(&self) -> Result<Self, EmptyHeapError> {
        if self.len() == 0 {
            proof {
                lemma_forest_mset_empty();
                assert(self@ =~= Seq::<Rc<BinomialTree<usize>>>::empty());
            }
            Err(EmptyHeapError)
        } else {
            let (t, ts2) = remove_min_tree(self);
            let BinomialTree(_, x, ts1) = t;
            let rev = forest_rev(&ts1);
            proof {
                lemma_forest_mset_reverse(ts1@);
                assert forall|i: int| 0 <= i < rev@.len() implies (#[trigger] rev@[i]).wf() by {
                    assert(rev@[i] == ts1@[ts1@.len() - 1 - i]);
                }
                assert forall|i: int, j: int|
                    0 <= i < j < rev@.len() implies (#[trigger] rev@[i]).rank_nat() < (
                #[trigger] rev@[j]).rank_nat() by {
                    assert(rev@[i] == ts1@[ts1@.len() - 1 - i]);
                    assert(rev@[j] == ts1@[ts1@.len() - 1 - j]);
                }
            }
            let res = merge_forests(&rev, &ts2);
            proof {
                assert(is_min_of(forest_mset(self@), x)) by {
                    assert(forest_mset(ts1@).insert(x).contains(x));
                }
                assert(forest_mset(res@) =~= forest_mset(self@).remove(x));
                assert(forest_mset(res@).len() + 1 == forest_mset(self@).len());
                assert(is_min_of(self.mset(), x) && res.mset() == self.mset().remove(x));
            }
            Ok(res)
        }
    }
}

} // verus!
