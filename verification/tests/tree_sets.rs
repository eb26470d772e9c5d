use std::rc::Rc;

use okasaki::tree::Tree;
use okasaki::tree::Tree::{Node, Tip};
use okasaki::tree_set::SetOps;

#[test]
fn treeset() {
    let t: Tree<usize> = SetOps::empty();
    let t2 = t
        .insert(6)
        .insert(8)
        .insert(9)
        .insert(7)
        .insert(4)
        .insert(5)
        .insert(1);

    assert_eq!(
        t2,
        Node(
            Rc::new(Node(
                Rc::new(Node(Rc::new(Tip), 1, Rc::new(Tip))),
                4,
                Rc::new(Node(Rc::new(Tip), 5, Rc::new(Tip)))
            )),
            6,
            Rc::new(Node(
                Rc::new(Node(Rc::new(Tip), 7, Rc::new(Tip))),
                8,
                Rc::new(Node(Rc::new(Tip), 9, Rc::new(Tip)))
            ))
        )
    );

    assert!(t2.member(1));
    assert!(t2.member(9));
    assert!(t2.member(6));

    assert!(!t2.member(0));
    assert!(!t2.member(10));

    assert_eq!(t2.member(1), t2.member2(1));
    assert_eq!(t2.member(0), t2.member2(0));
}

#[test]
fn duplicate_insert_shares_structure() {
    let t: Tree<usize> = SetOps::empty();
    let t1 = t.insert(3).insert(1).insert(4);
    let t2 = t1.insert(3);
    assert_eq!(t1, t2);
    assert!(t2.member(3));
    assert!(t2.member2(4));
    assert!(!t2.member2(2));
}
