//! A persistent map backed by an unbalanced binary search tree over
//! `String` keys, ordered lexicographically by character.
//!
//! Binding an already-present key returns the tree unchanged (it does not
//! overwrite), matching the set behaviour of `tree_set`.

use std::rc::Rc;

use vstd::prelude::*;
use vstd::string::StrSliceExecFns;

use crate::tree::Tree;

verus! {

/// Strict lexicographic order on character sequences: the empty sequence
/// comes first, otherwise the first differing character decides.
pub open spec fn lex_lt(a: Seq<char>, b: Seq<char>) -> bool
    decreases a.len(),
{
    if b.len() == 0 {
        false
    } else if a.len() == 0 {
        true
    } else if (a[0] as u32) < (b[0] as u32) {
        true
    } else if a[0] == b[0] {
        lex_lt(a.drop_first(), b.drop_first())
    } else {
        false
    }
}

/// `lex_lt` is a strict order: it is asymmetric and irreflexive.
pub proof fn lemma_lex_asym(a: Seq<char>, b: Seq<char>)
    requires
        lex_lt(a, b),
    ensures
        a != b,
        !lex_lt(b, a),
    decreases a.len(),
{
    if a.len() == 0 {
        assert(b.len() > 0);
    } else {
        if (a[0] as u32) < (b[0] as u32) {
            assert(a != b) by {
                if a == b {
                    assert(a[0] == b[0]);
                }
            }
        } else {
            assert(a[0] == b[0]);
            lemma_lex_asym(a.drop_first(), b.drop_first());
            assert(a != b) by {
                if a == b {
                    assert(a.drop_first() == b.drop_first());
                }
            }
        }
    }
}

/// `lex_lt` is total: two sequences are ordered one way or the other, or
/// they are equal.
pub proof fn lemma_lex_trichotomy(a: Seq<char>, b: Seq<char>)
    ensures
        lex_lt(a, b) || lex_lt(b, a) || a == b,
    decreases a.len(),
{
    if a.len() == 0 {
        if b.len() == 0 {
            assert(a =~= b);
        }
    } else if b.len() == 0 {
    } else if (a[0] as u32) < (b[0] as u32) {
    } else if (b[0] as u32) < (a[0] as u32) {
    } else {
        vstd::utf8::char_u32_cast(a[0], a[0] as u32);
        vstd::utf8::char_u32_cast(b[0], a[0] as u32);
        assert(a[0] == b[0]);
        lemma_lex_trichotomy(a.drop_first(), b.drop_first());
        if a.drop_first() == b.drop_first() {
            assert(a.drop_first().len() == b.drop_first().len());
            assert(a.len() == b.len());
            assert forall|i: int| 0 <= i < a.len() implies a[i] == b[i] by {
                if i > 0 {
                    assert(a[i] == a.drop_first()[i - 1]);
                    assert(b[i] == b.drop_first()[i - 1]);
                }
            }
            assert(a =~= b);
        }
    }
}

/// `lex_lt` is transitive.
pub proof fn lemma_lex_trans(a: Seq<char>, b: Seq<char>, c: Seq<char>)
    requires
        lex_lt(a, b),
        lex_lt(b, c),
    ensures
        lex_lt(a, c),
    decreases a.len(),
{
    if a.len() == 0 {
    } else {
        assert(b.len() > 0 && c.len() > 0);
        if a[0] == b[0] && b[0] == c[0] {
            lemma_lex_trans(a.drop_first(), b.drop_first(), c.drop_first());
        }
    }
}

/// Compares the suffixes of two strings starting at character `i`,
/// following the structure of `lex_lt`.
fn str_lt_from(a: &str, b: &str, i: usize) -> (r: bool)
    requires
        i <= a@.len(),
        i <= b@.len(),
    ensures
        r == lex_lt(a@.skip(i as int), b@.skip(i as int)),
    decreases a@.len() - i,
{
    proof {
        assert(a@.skip(i as int).len() == a@.len() - i);
        assert(b@.skip(i as int).len() == b@.len() - i);
    }
    if i == b.unicode_len() {
        false
    } else if i == a.unicode_len() {
        true
    } else {
        let ca = a.get_char(i);
        let cb = b.get_char(i);
        proof {
            assert(a@.skip(i as int)[0] == a@[i as int]);
            assert(b@.skip(i as int)[0] == b@[i as int]);
        }
        if (ca as u32) < (cb as u32) {
            true
        } else if ca == cb {
            let r = str_lt_from(a, b, i + 1);
            proof {
                assert(a@.skip(i as int).drop_first() =~= a@.skip(i + 1));
                assert(b@.skip(i as int).drop_first() =~= b@.skip(i + 1));
            }
            r
        } else {
            false
        }
    }
}

/// Whether `a` comes strictly before `b` in lexicographic character order.
fn str_lt(a: &str, b: &str) -> (r: bool)
    ensures
        r == lex_lt(a@, b@),
{
    let r = str_lt_from(a, b, 0);
    proof {
        assert(a@.skip(0) =~= a@);
        assert(b@.skip(0) =~= b@);
    }
    r
}

/// The map interface shared by the tree map and the trie, modelled as a
/// `Map` from key characters to values.
pub trait MapOps<V>: Sized {
    spec fn inv(&self) -> bool;

    spec fn map_model(&self) -> Map<Seq<char>, V>;

    fn empty() -> (m: Self)
        ensures
            m.inv(),
            m.map_model() == Map::<Seq<char>, V>::empty(),
    ;

    fn bind(&self, k: String, v: V) -> (m: Self)
        requires
            self.inv(),
        ensures
            m.inv(),
            !self.map_model().dom().contains(k@) ==> m.map_model() == self.map_model().insert(
                k@,
                v,
            ),
            self.map_model().dom().contains(k@) ==> m.map_model() == self.map_model(),
    ;

    fn lookup(&self, k: String) -> (v: V)
        requires
            self.inv(),
            self.map_model().dom().contains(k@),
        ensures
            v == self.map_model()[k@],
    ;
}

impl<V> Tree<(String, V)> {
    /// The finite map stored in the tree, keyed by the characters of each
    /// key string.
    pub open spec fn to_map(&self) -> Map<Seq<char>, V>
        decreases self,
    {
        match self {
            Tree::Tip => Map::empty(),
            Tree::Node(l, kv, r) => l.to_map().union_prefer_right(r.to_map()).insert(
                kv.0@,
                kv.1,
            ),
        }
    }

    /// The search-tree invariant under `lex_lt`: all keys on the left come
    /// before the node's key, all keys on the right after it.
    pub open spec fn map_wf(&self) -> bool
        decreases self,
    {
        match self {
            Tree::Tip => true,
            Tree::Node(l, kv, r) => {
                &&& l.map_wf()
                &&& r.map_wf()
                &&& (forall|s: Seq<char>| l.to_map().dom().contains(s) ==> lex_lt(s, kv.0@))
                &&& (forall|s: Seq<char>| r.to_map().dom().contains(s) ==> lex_lt(kv.0@, s))
            },
        }
    }
}

impl<V: Copy> Tree<(String, V)> {
    /// A shallow copy: both subtrees are shared, the key string is cloned.
    fn map_duplicate(&self) -> (res: Self)
        ensures
            res.to_map() == self.to_map(),
            res.map_wf() == self.map_wf(),
    {
        match self {
            Tree::Tip => Tree::Tip,
            Tree::Node(l, kv, r) => {
                let res = Tree::Node(l.clone(), (kv.0.clone(), kv.1), r.clone());
                proof {
                    assert(res.to_map() =~= self.to_map());
                }
                res
            },
        }
    }

    fn bind_rec(&self, k: &String, v: V) -> (res: Self)
        requires
            self.map_wf(),
        ensures
            res.map_wf(),
            !self.to_map().dom().contains(k@) ==> res.to_map() == self.to_map().insert(k@, v),
            self.to_map().dom().contains(k@) ==> res.to_map() == self.to_map(),
        decreases *self,
    {
        match self {
            Tree::Tip => {
                let res = Tree::Node(Rc::new(Tree::Tip), (k.clone(), v), Rc::new(Tree::Tip));
                proof {
                    assert(res.to_map() =~= self.to_map().insert(k@, v));
                }
                res
            },
            Tree::Node(l, kv, r) => {
                if str_lt(k.as_str(), kv.0.as_str()) {
                    proof {
                        lemma_lex_asym(k@, kv.0@);
                        if r.to_map().dom().contains(k@) {
                            lemma_lex_asym(kv.0@, k@);
                            assert(false);
                        }
                    }
                    let nl = l.bind_rec(k, v);
                    let res = Tree::Node(Rc::new(nl), (kv.0.clone(), kv.1), r.clone());
                    proof {
                        assert forall|s: Seq<char>|
                            res->Node_0.to_map().dom().contains(s) implies lex_lt(s, kv.0@) by {}
                        if self.to_map().dom().contains(k@) {
                            assert(l.to_map().dom().contains(k@));
                            assert(res.to_map() =~= self.to_map());
                        } else {
                            assert(res.to_map() =~= self.to_map().insert(k@, v));
                        }
                    }
                    res
                } else if str_lt(kv.0.as_str(), k.as_str()) {
                    proof {
                        lemma_lex_asym(kv.0@, k@);
                        if l.to_map().dom().contains(k@) {
                            lemma_lex_asym(k@, kv.0@);
                            assert(false);
                        }
                    }
                    let nr = r.bind_rec(k, v);
                    let res = Tree::Node(l.clone(), (kv.0.clone(), kv.1), Rc::new(nr));
                    proof {
                        if self.to_map().dom().contains(k@) {
                            assert(r.to_map().dom().contains(k@));
                            assert(res.to_map() =~= self.to_map());
                        } else {
                            assert(res.to_map() =~= self.to_map().insert(k@, v));
                        }
                    }
                    res
                } else {
                    proof {
                        lemma_lex_trichotomy(k@, kv.0@);
                        assert(k@ == kv.0@);
                        assert(self.to_map().dom().contains(k@));
                    }
                    self.map_duplicate()
                }
            },
        }
    }

    fn lookup_rec(&self, k: &String) -> (res: V)
        requires
            self.map_wf(),
            self.to_map().dom().contains(k@),
        ensures
            res == self.to_map()[k@],
        decreases *self,
    {
        match self {
            Tree::Tip => unreached(),
            Tree::Node(l, kv, r) => {
                if str_lt(k.as_str(), kv.0.as_str()) {
                    proof {
                        lemma_lex_asym(k@, kv.0@);
                        if r.to_map().dom().contains(k@) {
                            lemma_lex_asym(kv.0@, k@);
                            assert(false);
                        }
                        assert(l.to_map().dom().contains(k@));
                    }
                    l.lookup_rec(k)
                } else if str_lt(kv.0.as_str(), k.as_str()) {
                    proof {
                        lemma_lex_asym(kv.0@, k@);
                        if l.to_map().dom().contains(k@) {
                            lemma_lex_asym(k@, kv.0@);
                            assert(false);
                        }
                        assert(r.to_map().dom().contains(k@));
                    }
                    r.lookup_rec(k)
                } else {
                    proof {
                        lemma_lex_trichotomy(k@, kv.0@);
                        assert(k@ == kv.0@);
                    }
                    kv.1
                }
            },
        }
    }
}

impl<V: Copy> MapOps<V> for Tree<(String, V)> {
    open spec fn inv(&self) -> bool {
        self.map_wf()
    }

    open spec fn map_model(&self) -> Map<Seq<char>, V> {
        self.to_map()
    }

    fn empty() -> Self {
        Tree::Tip
    }

    fn bind(&self, k: String, v: V) -> Self {
        self.bind_rec(&k, v)
    }

    fn lookup(&self, k: String) -> V {
        self.lookup_rec(&k)
    }
}

} // verus!
