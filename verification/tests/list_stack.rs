use std::rc::Rc;

use okasaki::stack::List::{Cons, Nil};
use okasaki::stack::{List, Stack};

#[test]
fn list() {
    let l1: List<usize> = Stack::empty();
    let l2 = l1.cons(3).cons(2).cons(1);
    let l3 = l1.cons(5).cons(4);

    assert!(l1.is_empty());
    assert!(!l2.is_empty());
    assert_eq!(l2, Cons(1, Rc::new(Cons(2, Rc::new(Cons(3, Rc::new(Nil)))))));
    assert_eq!(l2.head(), 1);
    assert_eq!(l2.tail(), Cons(2, Rc::new(Cons(3, Rc::new(Nil)))));

    assert_eq!(l1.append(&l2), l2);
    assert_eq!(l2.append(&l1), l2);

    assert_eq!(
        l2.append(&l3),
        Cons(
            1,
            Rc::new(Cons(
                2,
                Rc::new(Cons(3, Rc::new(Cons(4, Rc::new(Cons(5, Rc::new(Nil)))))))
            ))
        )
    );

    assert_eq!(
        l3.append(&l2),
        Cons(
            4,
            Rc::new(Cons(
                5,
                Rc::new(Cons(1, Rc::new(Cons(2, Rc::new(Cons(3, Rc::new(Nil)))))))
            ))
        )
    );

    assert_eq!(l3.update(0, 0), Cons(0, Rc::new(Cons(5, Rc::new(Nil)))));

    assert_eq!(l3.update(1, 0), Cons(4, Rc::new(Cons(0, Rc::new(Nil)))));
}

#[test]
fn append_keeps_order() {
    let e: List<usize> = Stack::empty();
    let a = e.cons(2).cons(1);
    let b = e.cons(9);
    assert_eq!(
        a.append(&b),
        Cons(1, Rc::new(Cons(2, Rc::new(Cons(9, Rc::new(Nil))))))
    );
    assert_eq!(e.append(&e), Nil);
}
