use okasaki::binomial::BinomialHeap;
use okasaki::heap::{EmptyHeapError, Heap};
use okasaki::leftist::LeftistHeap;

#[test]
fn leftistheap() {
    let h: LeftistHeap<usize> = Heap::empty();
    let h2: LeftistHeap<usize> = h.insert(10).insert(9).insert(8).insert(11).insert(1).insert(4);

    assert!(h.is_empty());
    assert!(!h2.is_empty());

    assert_eq!(h2.find_min(), Ok(1));
    assert_eq!(
        h2.delete_min().unwrap(),
        h.insert(10).insert(9).insert(8).insert(11).insert(4)
    );
}

#[test]
fn binomialheap() {
    let h: BinomialHeap<usize> = Heap::empty();
    let h1 = Heap::insert(&h, 10);
    let h1 = Heap::insert(&h1, 9);
    let h1 = Heap::insert(&h1, 8);
    let h1 = Heap::insert(&h1, 11);
    let h1 = Heap::insert(&h1, 1);
    let h2 = Heap::insert(&h1, 4);

    assert!(Heap::is_empty(&h));
    assert!(!Heap::is_empty(&h2));

    assert_eq!(h2.find_min(), Ok(1));

    let e = Heap::insert(&h, 10);
    let e = Heap::insert(&e, 9);
    let e = Heap::insert(&e, 8);
    let e = Heap::insert(&e, 11);
    let e = Heap::insert(&e, 4);
    assert_eq!(h2.delete_min().unwrap(), e);
}

#[test]
fn empty_heap_errors() {
    let lh: LeftistHeap<usize> = Heap::empty();
    assert_eq!(lh.find_min(), Err(EmptyHeapError));
    assert_eq!(lh.delete_min(), Err(EmptyHeapError));

    let bh: BinomialHeap<usize> = Heap::empty();
    assert_eq!(bh.find_min(), Err(EmptyHeapError));
    assert_eq!(bh.delete_min(), Err(EmptyHeapError));
}

#[test]
fn insert_leaves_empty() {
    let lh: LeftistHeap<usize> = Heap::empty();
    assert!(lh.is_empty());
    assert!(!lh.insert(7).is_empty());

    let bh: BinomialHeap<usize> = Heap::empty();
    assert!(Heap::is_empty(&bh));
    assert!(!Heap::is_empty(&Heap::insert(&bh, 7)));
}

fn drain_leftist(mut h: LeftistHeap<usize>) -> Vec<usize> {
    let mut out = Vec::new();
    while let Ok(m) = h.find_min() {
        out.push(m);
        h = h.delete_min().unwrap();
    }
    out
}

fn drain_binomial(mut h: BinomialHeap<usize>) -> Vec<usize> {
    let mut out = Vec::new();
    while let Ok(m) = Heap::find_min(&h) {
        out.push(m);
        h = Heap::delete_min(&h).unwrap();
    }
    out
}

#[test]
fn heapsort_order() {
    let values = [31usize, 4, 15, 9, 2, 6, 5, 35, 8, 9, 7, 9, 3, 2];

    let mut lh: LeftistHeap<usize> = Heap::empty();
    for v in values {
        lh = lh.insert(v);
    }
    let drained = drain_leftist(lh);
    let mut sorted = values.to_vec();
    sorted.sort();
    assert_eq!(drained, sorted);

    let mut bh: BinomialHeap<usize> = Heap::empty();
    for v in values {
        bh = Heap::insert(&bh, v);
    }
    let drained = drain_binomial(bh);
    assert_eq!(drained, sorted);
}

#[test]
fn merge_commutes_in_content() {
    let a_vals = [8usize, 3, 11, 3];
    let b_vals = [5usize, 12, 1];

    let mut a: LeftistHeap<usize> = Heap::empty();
    for v in a_vals {
        a = a.insert(v);
    }
    let mut b: LeftistHeap<usize> = Heap::empty();
    for v in b_vals {
        b = b.insert(v);
    }
    let ab = a.merge(&b);
    let ba = b.merge(&a);
    assert_eq!(ab.find_min(), Ok(1));
    assert_eq!(ba.find_min(), Ok(1));
    assert_eq!(drain_leftist(ab), drain_leftist(ba));

    let mut a: BinomialHeap<usize> = Heap::empty();
    for v in a_vals {
        a = Heap::insert(&a, v);
    }
    let mut b: BinomialHeap<usize> = Heap::empty();
    for v in b_vals {
        b = Heap::insert(&b, v);
    }
    let ab = Heap::merge(&a, &b);
    let ba = Heap::merge(&b, &a);
    assert_eq!(Heap::find_min(&ab), Ok(1));
    assert_eq!(Heap::find_min(&ba), Ok(1));
    assert_eq!(drain_binomial(ab), drain_binomial(ba));
}

fn build<H: Heap>(values: &[usize]) -> H {
    let mut h: H = Heap::empty();
    for v in values {
        h = Heap::insert(&h, *v);
    }
    h
}

#[test]
fn representations_agree() {
    let values = [20usize, 17, 2, 39, 2, 25];
    let lh: LeftistHeap<usize> = build(&values);
    let bh: BinomialHeap<usize> = build(&values);
    assert_eq!(Heap::find_min(&lh), Heap::find_min(&bh));
    assert_eq!(drain_leftist(lh), drain_binomial(bh));
}

#[test]
fn delete_to_empty() {
    let lh: LeftistHeap<usize> = Heap::empty();
    let lh1 = lh.insert(5);
    let lh0 = lh1.delete_min().unwrap();
    assert!(lh0.is_empty());
    assert_eq!(lh0.find_min(), Err(EmptyHeapError));

    let bh: BinomialHeap<usize> = Heap::empty();
    let bh1 = Heap::insert(&bh, 5);
    let bh0 = Heap::delete_min(&bh1).unwrap();
    assert!(Heap::is_empty(&bh0));
    assert_eq!(Heap::find_min(&bh0), Err(EmptyHeapError));
}

#[test]
fn merge_with_empty_keeps_content() {
    let e: LeftistHeap<usize> = Heap::empty();
    let h = e.insert(3).insert(7);
    assert_eq!(drain_leftist(h.merge(&e)), vec![3, 7]);
    assert_eq!(drain_leftist(e.merge(&h)), vec![3, 7]);

    let eb: BinomialHeap<usize> = Heap::empty();
    let hb = Heap::insert(&Heap::insert(&eb, 3), 7);
    assert_eq!(drain_binomial(Heap::merge(&hb, &eb)), vec![3, 7]);
    assert_eq!(drain_binomial(Heap::merge(&eb, &hb)), vec![3, 7]);
}
