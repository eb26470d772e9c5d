//! A persistent prefix-compressed (Patricia) trie mapping `String` keys to
//! values.  Each node stores a key fragment; a child is indexed by the
//! first character of its fragment.  Subtrees are shared through `Rc`.

use std::rc::Rc;

use vstd::prelude::*;
use vstd::string::StrSliceExecFns;

verus! {

/// The number of leading characters shared by `a` and `b`.
pub open spec fn lcp_len(a: Seq<char>, b: Seq<char>) -> nat
    decreases a.len(),
{
    if a.len() == 0 || b.len() == 0 {
        0
    } else if a[0] == b[0] {
        1 + lcp_len(a.drop_first(), b.drop_first())
    } else {
        0
    }
}

/// The characteristic properties of `lcp_len`: it is bounded by both
/// lengths, the prefixes of that length agree, and the next characters
/// differ when both strings go on.
pub proof fn lemma_lcp(a: Seq<char>, b: Seq<char>)
    ensures
        lcp_len(a, b) <= a.len(),
        lcp_len(a, b) <= b.len(),
        a.subrange(0, lcp_len(a, b) as int) == b.subrange(0, lcp_len(a, b) as int),
        lcp_len(a, b) < a.len() && lcp_len(a, b) < b.len() ==> a[lcp_len(a, b) as int]
            != b[lcp_len(a, b) as int],
    decreases a.len(),
{
    let n = lcp_len(a, b) as int;
    if a.len() == 0 || b.len() == 0 {
        assert(a.subrange(0, n) =~= b.subrange(0, n));
    } else if a[0] == b[0] {
        lemma_lcp(a.drop_first(), b.drop_first());
        assert forall|p: int| 0 <= p < n implies a[p] == b[p] by {
            if p > 0 {
                assert(a.drop_first().subrange(0, n - 1) == b.drop_first().subrange(0, n - 1));
                assert(a.drop_first().subrange(0, n - 1)[p - 1] == a.drop_first()[p - 1]);
                assert(b.drop_first().subrange(0, n - 1)[p - 1] == b.drop_first()[p - 1]);
                assert(a[p] == a.drop_first()[p - 1]);
                assert(b[p] == b.drop_first()[p - 1]);
            }
        }
        assert(a.subrange(0, n) =~= b.subrange(0, n));
        if n < a.len() && n < b.len() {
            assert(a[n] == a.drop_first()[n - 1]);
            assert(b[n] == b.drop_first()[n - 1]);
        }
    } else {
        assert(a.subrange(0, n) =~= b.subrange(0, n));
    }
}

/// Whether two characters are equal, decided through their scalar values.
fn char_eq(a: char, b: char) -> (r: bool)
    ensures
        r == (a == b),
{
    let r = (a as u32) == (b as u32);
    proof {
        if r {
            vstd::utf8::char_u32_cast(a, a as u32);
            vstd::utf8::char_u32_cast(b, a as u32);
        }
    }
    r
}

/// Counts the characters shared by `a` and `b` from position `i` on.
fn lcp_from(a: &str, b: &str, i: usize) -> (r: usize)
    requires
        i <= a@.len(),
        i <= b@.len(),
    ensures
        r == i + lcp_len(a@.skip(i as int), b@.skip(i as int)),
        i <= r,
        r <= a@.len(),
        r <= b@.len(),
    decreases a@.len() - i,
{
    proof {
        lemma_lcp(a@.skip(i as int), b@.skip(i as int));
    }
    if i == a.unicode_len() || i == b.unicode_len() {
        i
    } else {
        let ca = a.get_char(i);
        let cb = b.get_char(i);
        proof {
            assert(a@.skip(i as int)[0] == a@[i as int]);
            assert(b@.skip(i as int)[0] == b@[i as int]);
        }
        if char_eq(ca, cb) {
            let r = lcp_from(a, b, i + 1);
            proof {
                assert(a@.skip(i as int).drop_first() =~= a@.skip(i + 1));
                assert(b@.skip(i as int).drop_first() =~= b@.skip(i + 1));
            }
            r
        } else {
            i
        }
    }
}

/// The length of the longest common prefix of two strings, in characters.
pub fn longest_common_prefix(s1: &str, s2: &str) -> (r: usize)
    ensures
        r == lcp_len(s1@, s2@),
        r <= s1@.len(),
        r <= s2@.len(),
{
    let r = lcp_from(s1, s2, 0);
    proof {
        assert(s1@.skip(0) =~= s1@);
        assert(s2@.skip(0) =~= s2@);
    }
    r
}

#[derive(Clone, Debug)]
pub enum PatriciaTrie<T> {
    Tip,
    Node { key: String, value: Option<T>, children: Vec<(char, Rc<PatriciaTrie<T>>)> },
}

/// The child stored under character `c`, if any.
pub open spec fn kids_get<T>(s: Seq<(char, Rc<PatriciaTrie<T>>)>, c: char) -> Option<
    Rc<PatriciaTrie<T>>,
>
    decreases s,
{
    if s.len() == 0 {
        None
    } else if s[0].0 == c {
        Some(s[0].1)
    } else {
        kids_get(s.drop_first(), c)
    }
}

/// No two children share their index character.
pub open spec fn kids_distinct<T>(s: Seq<(char, Rc<PatriciaTrie<T>>)>) -> bool {
    forall|i: int, j: int| 0 <= i < j < s.len() ==> (#[trigger] s[i]).0 != (#[trigger] s[j]).0
}

impl<T> PatriciaTrie<T> {
    /// The node's key fragment is non-empty and starts with `c`.
    pub open spec fn first_char_is(&self, c: char) -> bool {
        match self {
            PatriciaTrie::Tip => false,
            PatriciaTrie::Node { key, .. } => key@.len() > 0 && key@[0] == c,
        }
    }

    /// Well-formedness: children have distinct index characters, and each
    /// child is a node whose non-empty key fragment starts with its index
    /// character.
    pub open spec fn wf(&self) -> bool
        decreases self,
    {
        match self {
            PatriciaTrie::Tip => true,
            PatriciaTrie::Node { key, value, children } => {
                &&& kids_distinct(children@)
                &&& (forall|i: int|
                    0 <= i < children@.len() ==> (#[trigger] children@[i]).1.first_char_is(
                        children@[i].0,
                    ))
                &&& (forall|i: int| 0 <= i < children@.len() ==> (#[trigger] children@[i]).1.wf())
            },
        }
    }

    /// The value bound to the characters `k`: strip this node's fragment,
    /// then descend into the child indexed by the next character.
    pub open spec fn get_spec(&self, k: Seq<char>) -> Option<T>
        decreases k.len(), self, 1int,
    {
        match self {
            PatriciaTrie::Tip => None,
            PatriciaTrie::Node { key, value, children } => {
                if k == key@ {
                    *value
                } else if key@.len() < k.len() && k.subrange(0, key@.len() as int) == key@ {
                    kids_get_spec(children@, k[key@.len() as int], k.skip(key@.len() as int))
                } else {
                    None
                }
            },
        }
    }
}

/// The value bound to `k` in the child indexed by `c`, if any.
pub open spec fn kids_get_spec<T>(
    s: Seq<(char, Rc<PatriciaTrie<T>>)>,
    c: char,
    k: Seq<char>,
) -> Option<T>
    decreases k.len(), s, 0int,
{
    if s.len() == 0 {
        None
    } else if s[0].0 == c {
        s[0].1.get_spec(k)
    } else {
        kids_get_spec(s.drop_first(), c, k)
    }
}

/// `kids_get_spec` descends into exactly the child that `kids_get` finds.
proof fn lemma_kids_get_spec<T>(s: Seq<(char, Rc<PatriciaTrie<T>>)>, c: char, k: Seq<char>)
    ensures
        kids_get_spec(s, c, k) == (match kids_get(s, c) {
            Some(child) => child.get_spec(k),
            None => None,
        }),
    decreases s.len(),
{
    if s.len() > 0 && s[0].0 != c {
        lemma_kids_get_spec(s.drop_first(), c, k);
    }
}

/// Two sequences sharing their first `n` characters are equal when their
/// remainders are.
proof fn lemma_skip_eq(n: int, x: Seq<char>, y: Seq<char>)
    requires
        0 <= n <= x.len(),
        n <= y.len(),
        x.subrange(0, n) == y.subrange(0, n),
        x.skip(n) == y.skip(n),
    ensures
        x == y,
{
    assert(x.skip(n).len() == x.len() - n);
    assert(y.skip(n).len() == y.len() - n);
    assert(x.len() == y.len());
    assert forall|p: int| 0 <= p < x.len() implies x[p] == y[p] by {
        if p < n {
            assert(x.subrange(0, n)[p] == x[p]);
            assert(y.subrange(0, n)[p] == y[p]);
        } else {
            assert(x.skip(n)[p - n] == x[p]);
            assert(y.skip(n)[p - n] == y[p]);
        }
    }
    assert(x =~= y);
}

/// Looking a character up behind a freshly appended entry: the old entries
/// win, the new one answers only what they did not.
proof fn lemma_kids_get_push<T>(
    s: Seq<(char, Rc<PatriciaTrie<T>>)>,
    p: (char, Rc<PatriciaTrie<T>>),
    d: char,
)
    ensures
        kids_get(s.push(p), d) == (if kids_get(s, d) is Some {
            kids_get(s, d)
        } else if p.0 == d {
            Some(p.1)
        } else {
            None
        }),
    decreases s.len(),
{
    if s.len() == 0 {
        assert(s.push(p).drop_first() =~= Seq::<(char, Rc<PatriciaTrie<T>>)>::empty());
        assert(kids_get(Seq::<(char, Rc<PatriciaTrie<T>>)>::empty(), d) is None);
        assert(s.push(p)[0] == p);
    } else {
        assert(s.push(p).drop_first() =~= s.drop_first().push(p));
        assert(s.push(p)[0] == s[0]);
        lemma_kids_get_push(s.drop_first(), p, d);
    }
}

impl<T: Copy> PatriciaTrie<T> {
    /// A fresh node holding just `k` bound to `v`.
    fn leaf(k: &str, v: T) -> (res: Self)
        ensures
            res.wf(),
            res is Node,
            res.get_spec(k@) == Some(v),
            k@.len() > 0 ==> res.first_char_is(k@[0]),
            forall|k2: Seq<char>| k2 != k@ ==> #[trigger] res.get_spec(k2) is None,
    {
        let res = PatriciaTrie::Node {
            key: k.to_owned(),
            value: Some(v),
            children: Vec::new(),
        };
        proof {
            assert(res.get_spec(k@) == Some(v));
            assert forall|k2: Seq<char>| k2 != k@ implies #[trigger] res.get_spec(k2) is None by {
                assert(kids_get_spec(
                    Seq::<(char, Rc<PatriciaTrie<T>>)>::empty(),
                    k2[k@.len() as int],
                    k2.skip(k@.len() as int),
                ) is None);
            }
        }
        res
    }

    /// The canonical empty trie.
    pub fn empty() -> (res: Self)
        ensures
            res.wf(),
            res == PatriciaTrie::<T>::Tip,
    {
        PatriciaTrie::Tip
    }
}

/// A top-level copy of a child list; every subtree is shared through `Rc`.
fn kids_dup<T>(s: &Vec<(char, Rc<PatriciaTrie<T>>)>) -> (r: Vec<(char, Rc<PatriciaTrie<T>>)>)
    ensures
        r@ == s@,
{
    let mut r: Vec<(char, Rc<PatriciaTrie<T>>)> = Vec::new();
    let mut i: usize = 0;
    while i < s.len()
        invariant
            i <= s.len(),
            r@ =~= s@.subrange(0, i as int),
        decreases s.len() - i,
    {
        let c = s[i].0;
        let rc = s[i].1.clone();
        r.push((c, rc));
        proof {
            assert(r@ =~= s@.subrange(0, i + 1));
        }
        i = i + 1;
    }
    proof {
        assert(r@ =~= s@);
    }
    r
}

/// Finds the index of the child stored under `c`, scanning from `i`.
fn kids_find_idx<T>(s: &Vec<(char, Rc<PatriciaTrie<T>>)>, c: char, i: usize) -> (r: Option<usize>)
    requires
        i <= s@.len(),
    ensures
        (match r {
            Some(j) => i <= j < s@.len() && s@[j as int].0 == c && kids_get(s@.skip(i as int), c)
                == Some(s@[j as int].1),
            None => kids_get(s@.skip(i as int), c) is None,
        }),
    decreases s@.len() - i,
{
    if i == s.len() {
        proof {
            assert(s@.skip(i as int) =~= Seq::<(char, Rc<PatriciaTrie<T>>)>::empty());
        }
        None
    } else {
        let cc = s[i].0;
        proof {
            assert(s@.skip(i as int)[0] == s@[i as int]);
            assert(s@.skip(i as int).drop_first() =~= s@.skip(i + 1));
        }
        if char_eq(cc, c) {
            Some(i)
        } else {
            kids_find_idx(s, c, i + 1)
        }
    }
}

/// A child list has no entry for `d` when no element carries that tag.
proof fn lemma_kids_get_absent<T>(s: Seq<(char, Rc<PatriciaTrie<T>>)>, d: char)
    requires
        forall|p: int| 0 <= p < s.len() ==> (#[trigger] s[p]).0 != d,
    ensures
        kids_get(s, d) is None,
    decreases s.len(),
{
    if s.len() > 0 {
        assert forall|p: int| 0 <= p < s.drop_first().len() implies (
        #[trigger] s.drop_first()[p]).0 != d by {
            assert(s.drop_first()[p] == s[p + 1]);
        }
        lemma_kids_get_absent(s.drop_first(), d);
    }
}

/// A child list has an entry for `d` when some element carries that tag.
proof fn lemma_kids_get_present<T>(s: Seq<(char, Rc<PatriciaTrie<T>>)>, d: char, p: int)
    requires
        0 <= p < s.len(),
        s[p].0 == d,
    ensures
        kids_get(s, d) is Some,
    decreases s.len(),
{
    if s[0].0 != d {
        assert(s.drop_first()[p - 1] == s[p]);
        lemma_kids_get_present(s.drop_first(), d, p - 1);
    }
}

/// Binds `c` to the subtree `t` in a child list: any previous entry for
/// `c` is dropped, all others are kept (their order may change).  The
/// ghost predicate `pred`, which holds of every old entry and of the new
/// one, holds of every entry of the result; callers use it to carry
/// well-formedness through.
fn kids_put<T>(
    s: &Vec<(char, Rc<PatriciaTrie<T>>)>,
    c: char,
    t: Rc<PatriciaTrie<T>>,
    Ghost(pred): Ghost<spec_fn((char, Rc<PatriciaTrie<T>>)) -> bool>,
) -> (r: Vec<(char, Rc<PatriciaTrie<T>>)>)
    requires
        kids_distinct(s@),
        pred((c, t)),
        forall|q: int| 0 <= q < s@.len() ==> pred(#[trigger] s@[q]),
    ensures
        kids_distinct(r@),
        kids_get(r@, c) == Some(t),
        forall|d: char| d != c ==> kids_get(r@, d) == kids_get(s@, d),
        forall|p: int| 0 <= p < r@.len() ==> pred(#[trigger] r@[p]),
{
    let ghost t0 = t;
    let mut r: Vec<(char, Rc<PatriciaTrie<T>>)> = Vec::new();
    r.push((c, t));
    proof {
        assert forall|d: char| #[trigger] kids_get(r@, d) == (if d == c {
            Some(t0)
        } else {
            kids_get(s@.subrange(0, 0), d)
        }) by {
            assert(r@[0] == (c, t0));
            assert(r@.drop_first() =~= Seq::<(char, Rc<PatriciaTrie<T>>)>::empty());
            assert(kids_get(Seq::<(char, Rc<PatriciaTrie<T>>)>::empty(), d) is None);
            assert(s@.subrange(0, 0) =~= Seq::<(char, Rc<PatriciaTrie<T>>)>::empty());
        }
    }
    let mut i: usize = 0;
    while i < s.len()
        invariant
            i <= s.len(),
            kids_distinct(s@),
            pred((c, t0)),
            forall|q: int| 0 <= q < s@.len() ==> pred(#[trigger] s@[q]),
            r@.len() >= 1,
            r@[0] == (c, t0),
            forall|d: char| #![trigger kids_get(r@, d)]
                kids_get(r@, d) == (if d == c {
                    Some(t0)
                } else {
                    kids_get(s@.subrange(0, i as int), d)
                }),
            forall|p: int| 1 <= p < r@.len() ==> (#[trigger] r@[p]).0 != c,
            forall|p: int| 0 <= p < r@.len() ==> pred(#[trigger] r@[p]),
            kids_distinct(r@),
        decreases s.len() - i,
    {
        let ghost r_old = r@;
        let cc = s[i].0;
        let keep = !char_eq(cc, c);
        if keep {
            let rc = s[i].1.clone();
            r.push((cc, rc));
            proof {
                assert(r@ == r_old.push((cc, rc)));
                assert(cc == s@[i as int].0);
                assert(rc == s@[i as int].1);
                assert(r@[r@.len() - 1] == (cc, rc));
                assert((cc, rc) =~= s@[i as int]);
                assert forall|d: char| #[trigger] kids_get(r@, d) == (if d == c {
                    Some(t0)
                } else {
                    kids_get(s@.subrange(0, i + 1), d)
                }) by {
                    lemma_kids_get_push(r_old, (cc, rc), d);
                    assert(s@.subrange(0, i + 1) =~= s@.subrange(0, i as int).push(s@[i as int]));
                    lemma_kids_get_push(s@.subrange(0, i as int), s@[i as int], d);
                }
                assert(kids_get(s@.subrange(0, i as int), cc) is None) by {
                    assert forall|p: int| 0 <= p < s@.subrange(0, i as int).len() implies (
                    #[trigger] s@.subrange(0, i as int)[p]).0 != cc by {
                        assert(s@.subrange(0, i as int)[p] == s@[p]);
                    }
                    lemma_kids_get_absent(s@.subrange(0, i as int), cc);
                }
                assert forall|p1: int, p2: int| 0 <= p1 < p2 < r@.len() implies (
                #[trigger] r@[p1]).0 != (#[trigger] r@[p2]).0 by {
                    if p2 == r@.len() - 1 && p1 >= 1 {
                        if r_old[p1].0 == cc {
                            lemma_kids_get_present(r_old, cc, p1);
                        }
                    }
                }
            }
        } else {
            proof {
                assert forall|d: char| #[trigger] kids_get(r@, d) == (if d == c {
                    Some(t0)
                } else {
                    kids_get(s@.subrange(0, i + 1), d)
                }) by {
                    assert(s@.subrange(0, i + 1) =~= s@.subrange(0, i as int).push(s@[i as int]));
                    lemma_kids_get_push(s@.subrange(0, i as int), s@[i as int], d);
                }
            }
        }
        i = i + 1;
    }
    proof {
        assert(s@.subrange(0, s@.len() as int) =~= s@);
    }
    r
}

/// Rebinds inside the appropriate child: into the existing child for the
/// first character of `k1`, or into a fresh leaf when there is none.
fn child_bind<T: Copy>(
    children: &Vec<(char, Rc<PatriciaTrie<T>>)>,
    k1: &str,
    v: T,
) -> (res: PatriciaTrie<T>)
    requires
        kids_distinct(children@),
        forall|i: int|
            0 <= i < children@.len() ==> (#[trigger] children@[i]).1.first_char_is(
                children@[i].0,
            ),
        forall|i: int| 0 <= i < children@.len() ==> (#[trigger] children@[i]).1.wf(),
        k1@.len() > 0,
    ensures
        res.wf(),
        res is Node,
        res.first_char_is(k1@[0]),
        res.get_spec(k1@) == Some(v),
        forall|k2: Seq<char>|
            k2 != k1@ ==> #[trigger] res.get_spec(k2) == kids_get_spec(children@, k1@[0], k2),
    decreases k1@.len(), *children, 0int,
{
    let c = k1.get_char(0);
    match kids_find_idx(children, c, 0) {
        Some(j) => {
            proof {
                assert(children@.skip(0) =~= children@);
                assert(children@[j as int].1.first_char_is(c));
            }
            let res = children[j].1.bind_rec(k1, v);
            proof {
                assert forall|k2: Seq<char>| k2 != k1@ implies #[trigger] res.get_spec(k2)
                    == kids_get_spec(children@, k1@[0], k2) by {
                    lemma_kids_get_spec(children@, c, k2);
                }
            }
            res
        },
        None => {
            let res = PatriciaTrie::leaf(k1, v);
            proof {
                assert(children@.skip(0) =~= children@);
                assert forall|k2: Seq<char>| k2 != k1@ implies #[trigger] res.get_spec(k2)
                    == kids_get_spec(children@, k1@[0], k2) by {
                    lemma_kids_get_spec(children@, c, k2);
                }
            }
            res
        },
    }
}

impl<T: Copy> PatriciaTrie<T> {
    /// Binds `k` to `v` below this node, splitting key fragments at the
    /// longest common prefix as needed.
    fn bind_rec(&self, k: &str, v: T) -> (res: Self)
        requires
            self.wf(),
        ensures
            res.wf(),
            res is Node,
            res.get_spec(k@) == Some(v),
            k@.len() > 0 && (*self is Tip || self.first_char_is(k@[0]))
                ==> res.first_char_is(k@[0]),
            forall|k2: Seq<char>| k2 != k@ ==> #[trigger] res.get_spec(k2) == self.get_spec(k2),
        decreases k@.len(), *self, 1int,
    {
        match self {
            PatriciaTrie::Tip => {
                let res = Self::leaf(k, v);
                proof {
                    assert forall|k2: Seq<char>| k2 != k@ implies #[trigger] res.get_spec(k2)
                        == self.get_spec(k2) by {}
                }
                res
            },
            PatriciaTrie::Node { key, value, children } => {
                let klen = k.unicode_len();
                let keylen = key.as_str().unicode_len();
                let i = longest_common_prefix(k, key.as_str());
                proof {
                    lemma_lcp(k@, key@);
                }
                if i == klen && i == keylen {
                    // the key is already present: rebind its value
                    let res = PatriciaTrie::Node {
                        key: k.to_owned(),
                        value: Some(v),
                        children: kids_dup(children),
                    };
                    proof {
                        assert(k@.subrange(0, i as int) =~= k@);
                        assert(key@.subrange(0, i as int) =~= key@);
                        assert(k@ == key@);
                        assert(res.get_spec(k@) == Some(v));
                        assert forall|k2: Seq<char>| k2 != k@ implies #[trigger] res.get_spec(k2)
                            == self.get_spec(k2) by {}
                    }
                    res
                } else if i == keylen {
                    // this node's fragment is a proper prefix of k
                    let k1 = k.substring_char(i, klen);
                    proof {
                        assert(k1@ =~= k@.skip(i as int));
                    }
                    let nc = child_bind(children, k1, v);
                    let c = k1.get_char(0);
                    let ghost pred = |e: (char, Rc<PatriciaTrie<T>>)|
                        e.1.first_char_is(e.0) && e.1.wf();
                    proof {
                        assert(pred((c, Rc::new(nc))));
                        assert forall|q: int| 0 <= q < children@.len() implies pred(
                            #[trigger] children@[q],
                        ) by {}
                    }
                    let newkids = kids_put(children, c, Rc::new(nc), Ghost(pred));
                    let res = PatriciaTrie::Node {
                        key: key.clone(),
                        value: *value,
                        children: newkids,
                    };
                    proof {
                        assert forall|p: int| 0 <= p < newkids@.len() implies (
                        #[trigger] newkids@[p]).1.first_char_is(newkids@[p].0)
                            && newkids@[p].1.wf() by {
                            assert(pred(newkids@[p]));
                        }
                        assert(res.wf());
                        assert(k@.subrange(0, keylen as int) =~= key@.subrange(0, keylen as int));
                        assert(key@.subrange(0, keylen as int) =~= key@);
                        assert(k@[keylen as int] == k1@[0]);
                        lemma_kids_get_spec(newkids@, c, k@.skip(keylen as int));
                        assert(k1@ == k@.skip(keylen as int));
                        assert(res.get_spec(k@) == Some(v));
                        assert forall|k2: Seq<char>| k2 != k@ implies #[trigger] res.get_spec(k2)
                            == self.get_spec(k2) by {
                            if k2 == key@ {
                            } else if key@.len() < k2.len() && k2.subrange(0, keylen as int)
                                == key@ {
                                let d = k2[keylen as int];
                                let k2p = k2.skip(keylen as int);
                                lemma_kids_get_spec(newkids@, d, k2p);
                                lemma_kids_get_spec(children@, d, k2p);
                                if d == c {
                                    if k2p == k1@ {
                                        assert(k@.subrange(0, keylen as int) == key@);
                                        lemma_skip_eq(keylen as int, k2, k@);
                                        assert(false);
                                    }
                                    assert(nc.get_spec(k2p) == kids_get_spec(
                                        children@,
                                        k1@[0],
                                        k2p,
                                    ));
                                }
                            }
                        }
                    }
                    res
                } else if i == klen {
                    // k is a proper prefix of this node's fragment
                    let k1 = key.as_str().substring_char(i, keylen);
                    let c1 = k1.get_char(0);
                    let inner = PatriciaTrie::Node {
                        key: k1.to_owned(),
                        value: *value,
                        children: kids_dup(children),
                    };
                    let rc1 = Rc::new(inner);
                    let mut kids: Vec<(char, Rc<PatriciaTrie<T>>)> = Vec::new();
                    kids.push((c1, rc1));
                    let res = PatriciaTrie::Node {
                        key: k.to_owned(),
                        value: Some(v),
                        children: kids,
                    };
                    proof {
                        assert(res.get_spec(k@) == Some(v));
                        assert(kids@.len() == 1);
                        assert(kids@[0] == (c1, rc1));
                        assert(inner.wf());
                        assert(rc1.first_char_is(c1));
                        assert(res.wf());
                        assert(key@.subrange(0, klen as int) =~= k@);
                        assert(k1@ =~= key@.skip(klen as int));
                        assert(kids@.drop_first() =~= Seq::<(char, Rc<PatriciaTrie<T>>)>::empty());
                        assert forall|kk: Seq<char>| kk != k@ implies #[trigger] res.get_spec(kk)
                            == self.get_spec(kk) by {
                            if k@.len() < kk.len() && kk.subrange(0, klen as int) == k@ {
                                let d = kk[klen as int];
                                let kkp = kk.skip(klen as int);
                                lemma_kids_get_spec(kids@, d, kkp);
                                if d == c1 {
                                    assert(kids_get(kids@, d) == Some(rc1));
                                    if kkp == k1@ {
                                        lemma_skip_eq(klen as int, kk, key@);
                                        assert(kk == key@);
                                        assert(inner.get_spec(kkp) == *value);
                                        assert(self.get_spec(kk) == *value);
                                    } else if k1@.len() < kkp.len() && kkp.subrange(
                                        0,
                                        k1@.len() as int,
                                    ) == k1@ {
                                        let m = k1@.len() as int;
                                        assert(keylen == klen + m);
                                        assert(kk.len() > keylen);
                                        assert forall|p: int| 0 <= p < keylen implies kk[p]
                                            == key@[p] by {
                                            if p < klen {
                                                assert(kk.subrange(0, klen as int)[p] == kk[p]);
                                                assert(k@[p] == key@.subrange(
                                                    0,
                                                    klen as int,
                                                )[p]);
                                            } else {
                                                assert(kkp[p - klen] == kk[p]);
                                                assert(kkp.subrange(0, m)[p - klen] == kkp[p
                                                    - klen]);
                                                assert(k1@[p - klen] == key@.skip(klen as int)[p
                                                    - klen]);
                                            }
                                        }
                                        assert(kk.subrange(0, keylen as int) =~= key@);
                                        assert(kk[keylen as int] == kkp[m]);
                                        assert(kk.skip(keylen as int) =~= kkp.skip(m));
                                        assert(inner.get_spec(kkp) == kids_get_spec(
                                            children@,
                                            kkp[m],
                                            kkp.skip(m),
                                        ));
                                        assert(self.get_spec(kk) == kids_get_spec(
                                            children@,
                                            kk[keylen as int],
                                            kk.skip(keylen as int),
                                        ));
                                    } else {
                                        assert(inner.get_spec(kkp) is None);
                                        if kk == key@ {
                                            assert(kkp == key@.skip(klen as int));
                                            assert(false);
                                        }
                                        if key@.len() < kk.len() && kk.subrange(
                                            0,
                                            keylen as int,
                                        ) == key@ {
                                            let m = k1@.len() as int;
                                            assert(kkp.len() > m);
                                            assert forall|p: int| 0 <= p < m implies kkp[p]
                                                == k1@[p] by {
                                                assert(kk.subrange(0, keylen as int)[klen + p]
                                                    == kk[klen + p]);
                                                assert(kkp[p] == kk[klen + p]);
                                                assert(k1@[p] == key@.skip(klen as int)[p]);
                                            }
                                            assert(kkp.subrange(0, m) =~= k1@);
                                            assert(false);
                                        }
                                        assert(self.get_spec(kk) is None);
                                    }
                                } else {
                                    assert(kids_get(
                                        Seq::<(char, Rc<PatriciaTrie<T>>)>::empty(),
                                        d,
                                    ) is None);
                                    assert(kids_get(kids@, d) is None);
                                    assert(res.get_spec(kk) is None);
                                    if kk == key@ {
                                        assert(kk[klen as int] == key@[klen as int]);
                                        assert(key@[klen as int] == k1@[0]);
                                        assert(false);
                                    }
                                    if key@.len() < kk.len() && kk.subrange(0, keylen as int)
                                        == key@ {
                                        assert(kk.subrange(0, keylen as int)[klen as int]
                                            == kk[klen as int]);
                                        assert(key@[klen as int] == k1@[0]);
                                        assert(false);
                                    }
                                    assert(self.get_spec(kk) is None);
                                }
                            } else if kk != k@ {
                                assert(res.get_spec(kk) == (if kk == k@ {
                                    Some(v)
                                } else {
                                    None
                                }));
                                if kk == key@ {
                                    assert(kk.len() == keylen > klen);
                                    assert forall|p: int| 0 <= p < klen implies kk[p]
                                        == k@[p] by {
                                        assert(key@.subrange(0, klen as int)[p] == key@[p]);
                                        assert(k@[p] == key@.subrange(0, klen as int)[p]);
                                    }
                                    assert(kk.subrange(0, klen as int) =~= k@);
                                    assert(false);
                                }
                                if key@.len() < kk.len() && kk.subrange(0, keylen as int)
                                    == key@ {
                                    assert forall|p: int| 0 <= p < klen implies kk[p]
                                        == k@[p] by {
                                        assert(kk.subrange(0, keylen as int)[p] == kk[p]);
                                        assert(k@[p] == key@.subrange(0, klen as int)[p]);
                                        assert(key@.subrange(0, klen as int)[p] == key@[p]);
                                    }
                                    assert(kk.subrange(0, klen as int) =~= k@);
                                    assert(false);
                                }
                                assert(self.get_spec(kk) is None);
                            }
                        }
                    }
                    res
                } else {
                    // the fragments diverge: split at the common prefix
                    let com = k.substring_char(0, i);
                    let k1 = key.as_str().substring_char(i, keylen);
                    let k2 = k.substring_char(i, klen);
                    let c1 = k1.get_char(0);
                    let c2 = k2.get_char(0);
                    let oldnode = PatriciaTrie::Node {
                        key: k1.to_owned(),
                        value: *value,
                        children: kids_dup(children),
                    };
                    let newleaf = Self::leaf(k2, v);
                    let rc1 = Rc::new(oldnode);
                    let rc2 = Rc::new(newleaf);
                    let mut kids: Vec<(char, Rc<PatriciaTrie<T>>)> = Vec::new();
                    kids.push((c1, rc1));
                    kids.push((c2, rc2));
                    let res = PatriciaTrie::Node {
                        key: com.to_owned(),
                        value: None,
                        children: kids,
                    };
                    proof {
                        assert(c1 == key@[i as int] && c2 == k@[i as int]);
                        assert(c1 != c2);
                        assert(kids@.len() == 2);
                        assert(kids@[0] == (c1, rc1));
                        assert(kids@[1] == (c2, rc2));
                        assert(oldnode.wf());
                        assert(rc1.first_char_is(c1));
                        assert(rc2.first_char_is(c2));
                        assert(kids_distinct(kids@));
                        assert(res.wf());
                        assert(k@.subrange(0, i as int) =~= com@);
                        assert(kids@.drop_first().len() == 1);
                        assert(kids@.drop_first()[0] == kids@[1]);
                        assert(kids_get(kids@.drop_first(), c2) == Some(rc2));
                        assert(kids_get(kids@, c2) == Some(rc2));
                        lemma_kids_get_spec(kids@, c2, k@.skip(i as int));
                        assert(k2@ =~= k@.skip(i as int));
                        assert(res.get_spec(k@) == Some(v));
                        assert(key@.subrange(0, i as int) =~= com@);
                        assert(k1@ =~= key@.skip(i as int));
                        assert forall|kk: Seq<char>| kk != k@ implies #[trigger] res.get_spec(kk)
                            == self.get_spec(kk) by {
                            if com@.len() < kk.len() && kk.subrange(0, i as int) == com@ {
                                let d = kk[i as int];
                                let kkp = kk.skip(i as int);
                                lemma_kids_get_spec(kids@, d, kkp);
                                if d == c1 {
                                    assert(kids_get(kids@, d) == Some(rc1));
                                    if kkp == k1@ {
                                        lemma_skip_eq(i as int, kk, key@);
                                        assert(kk == key@);
                                        assert(oldnode.get_spec(kkp) == *value);
                                        assert(self.get_spec(kk) == *value);
                                    } else if k1@.len() < kkp.len() && kkp.subrange(
                                        0,
                                        k1@.len() as int,
                                    ) == k1@ {
                                        let m = k1@.len() as int;
                                        assert(keylen == i + m);
                                        assert(kk.len() > keylen);
                                        assert forall|p: int| 0 <= p < keylen implies kk[p]
                                            == key@[p] by {
                                            if p < i {
                                                assert(kk.subrange(0, i as int)[p] == kk[p]);
                                                assert(com@[p] == key@.subrange(0, i as int)[p]);
                                            } else {
                                                assert(kkp[p - i] == kk[p]);
                                                assert(kkp.subrange(0, m)[p - i] == kkp[p - i]);
                                                assert(k1@[p - i] == key@.skip(i as int)[p - i]);
                                            }
                                        }
                                        assert(kk.subrange(0, keylen as int) =~= key@);
                                        assert(kk[keylen as int] == kkp[m]);
                                        assert(kk.skip(keylen as int) =~= kkp.skip(m));
                                        assert(oldnode.get_spec(kkp) == kids_get_spec(
                                            children@,
                                            kkp[m],
                                            kkp.skip(m),
                                        ));
                                        assert(self.get_spec(kk) == kids_get_spec(
                                            children@,
                                            kk[keylen as int],
                                            kk.skip(keylen as int),
                                        ));
                                    } else {
                                        assert(oldnode.get_spec(kkp) is None);
                                        if kk == key@ {
                                            assert(kkp == key@.skip(i as int));
                                            assert(false);
                                        }
                                        if key@.len() < kk.len() && kk.subrange(
                                            0,
                                            keylen as int,
                                        ) == key@ {
                                            let m = k1@.len() as int;
                                            assert(kkp.len() > m);
                                            assert forall|p: int| 0 <= p < m implies kkp[p]
                                                == k1@[p] by {
                                                assert(kk.subrange(0, keylen as int)[i + p]
                                                    == kk[i + p]);
                                                assert(kkp[p] == kk[i + p]);
                                                assert(k1@[p] == key@.skip(i as int)[p]);
                                            }
                                            assert(kkp.subrange(0, m) =~= k1@);
                                            assert(false);
                                        }
                                        assert(self.get_spec(kk) is None);
                                    }
                                } else if d == c2 {
                                    assert(kids_get(kids@, d) == Some(rc2));
                                    if kkp == k2@ {
                                        lemma_skip_eq(i as int, kk, k@);
                                        assert(false);
                                    }
                                    assert(newleaf.get_spec(kkp) is None);
                                    if kk == key@ {
                                        assert(kk[i as int] == key@[i as int]);
                                        assert(false);
                                    }
                                    if key@.len() < kk.len() && kk.subrange(0, keylen as int)
                                        == key@ {
                                        assert(kk.subrange(0, keylen as int)[i as int]
                                            == kk[i as int]);
                                        assert(false);
                                    }
                                    assert(self.get_spec(kk) is None);
                                } else {
                                    assert(kids_get(
                                        Seq::<(char, Rc<PatriciaTrie<T>>)>::empty(),
                                        d,
                                    ) is None);
                                    assert(kids@.drop_first().drop_first() =~= Seq::<
                                        (char, Rc<PatriciaTrie<T>>),
                                    >::empty());
                                    assert(kids_get(kids@.drop_first(), d) is None);
                                    assert(kids_get(kids@, d) is None);
                                    assert(res.get_spec(kk) is None);
                                    if kk == key@ {
                                        assert(kk[i as int] == key@[i as int]);
                                        assert(false);
                                    }
                                    if key@.len() < kk.len() && kk.subrange(0, keylen as int)
                                        == key@ {
                                        assert(kk.subrange(0, keylen as int)[i as int]
                                            == kk[i as int]);
                                        assert(false);
                                    }
                                    assert(self.get_spec(kk) is None);
                                }
                            } else {
                                assert(res.get_spec(kk) is None);
                                if kk == key@ {
                                    assert(kk.len() == keylen > i);
                                    assert forall|p: int| 0 <= p < i implies kk[p]
                                        == com@[p] by {
                                        assert(key@.subrange(0, i as int)[p] == key@[p]);
                                    }
                                    assert(kk.subrange(0, i as int) =~= com@);
                                    assert(false);
                                }
                                if key@.len() < kk.len() && kk.subrange(0, keylen as int)
                                    == key@ {
                                    assert forall|p: int| 0 <= p < i implies kk[p]
                                        == com@[p] by {
                                        assert(kk.subrange(0, keylen as int)[p] == kk[p]);
                                        assert(key@.subrange(0, i as int)[p] == key@[p]);
                                    }
                                    assert(kk.subrange(0, i as int) =~= com@);
                                    assert(false);
                                }
                                assert(self.get_spec(kk) is None);
                            }
                        }
                    }
                    res
                }
            },
        }
    }

    /// Looks up the value bound to `k` below this node.
    fn lookup_rec(&self, k: &str) -> (res: T)
        requires
            self.wf(),
            self.get_spec(k@) is Some,
        ensures
            Some(res) == self.get_spec(k@),
        decreases k@.len(), *self,
    {
        match self {
            PatriciaTrie::Tip => unreached(),
            PatriciaTrie::Node { key, value, children } => {
                let klen = k.unicode_len();
                let keylen = key.as_str().unicode_len();
                let i = longest_common_prefix(k, key.as_str());
                proof {
                    lemma_lcp(k@, key@);
                }
                if i == klen && i == keylen {
                    proof {
                        assert(k@.subrange(0, i as int) =~= k@);
                        assert(key@.subrange(0, i as int) =~= key@);
                        assert(k@ == key@);
                    }
                    match value {
                        Some(vv) => *vv,
                        None => unreached(),
                    }
                } else if i == keylen {
                    let k1 = k.substring_char(i, klen);
                    let c = k1.get_char(0);
                    proof {
                        assert(k1@ =~= k@.skip(i as int));
                        assert(k@.subrange(0, keylen as int) =~= key@.subrange(0, keylen as int));
                        assert(k@[keylen as int] == k1@[0]);
                        lemma_kids_get_spec(children@, c, k@.skip(keylen as int));
                        assert(children@.skip(0) =~= children@);
                    }
                    match kids_find_idx(children, c, 0) {
                        Some(j) => {
                            proof {
                                assert(children@[j as int].1.wf());
                            }
                            children[j].1.lookup_rec(k1)
                        },
                        None => unreached(),
                    }
                } else if i == klen {
                    proof {
                        assert(key@.len() > k@.len());
                        assert(self.get_spec(k@) is None);
                    }
                    unreached()
                } else {
                    proof {
                        assert(k@[i as int] != key@[i as int]);
                        if k@.subrange(0, keylen as int) == key@ {
                            assert(k@.subrange(0, keylen as int)[i as int] == k@[i as int]);
                            assert(false);
                        }
                        assert(self.get_spec(k@) is None);
                    }
                    unreached()
                }
            },
        }
    }

    /// Binds `k` to `v`, overwriting any previous binding for `k` and
    /// leaving every other key bound exactly as before.
    pub fn bind(&self, k: String, v: T) -> (res: Self)
        requires
            self.wf(),
        ensures
            res.wf(),
            res.get_spec(k@) == Some(v),
            forall|k2: Seq<char>|
                k2 != k@ ==> #[trigger] res.get_spec(k2) == self.get_spec(k2),
    {
        self.bind_rec(k.as_str(), v)
    }

    /// Returns the value bound to `k`.
    pub fn lookup(&self, k: String) -> (res: T)
        requires
            self.wf(),
            self.get_spec(k@) is Some,
        ensures
            Some(res) == self.get_spec(k@),
    {
        self.lookup_rec(k.as_str())
    }
}

} // verus!
