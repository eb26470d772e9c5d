//! A persistent cons-list stack.  Every operation returns a new list that
//! shares its tail with the input through `Rc`.

use std::rc::Rc;

use vstd::prelude::*;

verus! {

/// The stack interface, modelled as a sequence whose first element is the
/// top of the stack.
pub trait Stack<T>: Sized {
    spec fn seq_model(&self) -> Seq<T>;

    fn empty() -> (s: Self)
        ensures
            s.seq_model() == Seq::<T>::empty(),
    ;

    fn is_empty(&self) -> (b: bool)
        ensures
            b <==> self.seq_model().len() == 0,
    ;

    fn cons(&self, x: T) -> (s: Self)
        ensures
            s.seq_model() == seq![x].add(self.seq_model()),
    ;

    fn head(&self) -> (x: T)
        requires
            self.seq_model().len() > 0,
        ensures
            x == self.seq_model()[0],
    ;

    fn tail(&self) -> (s: Self)
        requires
            self.seq_model().len() > 0,
        ensures
            s.seq_model() == self.seq_model().drop_first(),
    ;

    fn append(&self, y: &Self) -> (s: Self)
        ensures
            s.seq_model() == self.seq_model().add(y.seq_model()),
    ;

    fn update(&self, i: usize, x: T) -> (s: Self)
        requires
            i < self.seq_model().len(),
        ensures
            s.seq_model() == self.seq_model().update(i as int, x),
    ;
}

#[derive(Clone, Debug, PartialEq, Eq)]
pub enum List<T> {
    Nil,
    Cons(T, Rc<List<T>>),
}

impl<T: Copy> List<T> {
    /// The sequence of elements, front first.
    pub open spec fn to_seq(&self) -> Seq<T>
        decreases self,
    {
        match self {
            List::Nil => Seq::empty(),
            List::Cons(h, t) => seq![*h].add(t.to_seq()),
        }
    }

    /// A shallow copy sharing the tail through `Rc`.
    fn duplicate(&self) -> (r: Self)
        ensures
            r == *self,
    {
        match self {
            List::Nil => List::Nil,
            List::Cons(h, t) => List::Cons(*h, t.clone()),
        }
    }

    fn append_rec(&self, y: &List<T>) -> (r: Self)
        ensures
            r.to_seq() == self.to_seq().add(y.to_seq()),
        decreases *self,
    {
        match self {
            List::Nil => {
                let r = y.duplicate();
                proof {
                    assert(r.to_seq() =~= self.to_seq().add(y.to_seq()));
                }
                r
            },
            List::Cons(h, t) => {
                let rest = t.append_rec(y);
                let r = List::Cons(*h, Rc::new(rest));
                proof {
                    assert(r.to_seq() =~= self.to_seq().add(y.to_seq()));
                }
                r
            },
        }
    }

    fn update_rec(&self, i: usize, x: T) -> (r: Self)
        requires
            i < self.to_seq().len(),
        ensures
            r.to_seq() == self.to_seq().update(i as int, x),
        decreases *self,
    {
        match self {
            List::Nil => unreached(),
            List::Cons(h, t) => {
                if i == 0 {
                    let r = List::Cons(x, t.clone());
                    proof {
                        assert(r.to_seq() =~= self.to_seq().update(i as int, x));
                    }
                    r
                } else {
                    let rest = t.update_rec(i - 1, x);
                    let r = List::Cons(*h, Rc::new(rest));
                    proof {
                        assert(r.to_seq() =~= self.to_seq().update(i as int, x));
                    }
                    r
                }
            },
        }
    }
}

impl<T: Copy> Stack<T> for List<T> {
    open spec fn seq_model(&self) -> Seq<T> {
        self.to_seq()
    }

    fn empty() -> Self {
        List::Nil
    }

    fn is_empty(&self) -> bool {
        match self {
            List::Nil => true,
            List::Cons(_, _) => false,
        }
    }

    /// A new cell on top of a shallow copy of the old list.
    fn cons(&self, x: T) -> Self {
        let copy = self.duplicate();
        let s = List::Cons(x, Rc::new(copy));
        proof {
            assert(s.seq_model() =~= seq![x].add(self.seq_model()));
        }
        s
    }

    fn head(&self) -> T {
        match self {
            List::Nil => unreached(),
            List::Cons(h, _) => *h,
        }
    }

    fn tail(&self) -> Self {
        match self {
            List::Nil => unreached(),
            List::Cons(_, t) => t.duplicate(),
        }
    }

    fn append(&self, y: &Self) -> Self {
        self.append_rec(y)
    }

    fn update(&self, i: usize, x: T) -> Self {
        self.update_rec(i, x)
    }
}

} // verus!
