use okasaki::tree::Tree;
use okasaki::tree_map::MapOps;

#[test]
fn treemap() {
    let m: Tree<(String, usize)> = MapOps::empty();
    let m2 = m
        .bind("hello".to_string(), 0)
        .bind("world".to_string(), 1)
        .bind("foo".to_string(), 2)
        .bind("bar".to_string(), 3);

    assert_eq!(m2.lookup("hello".to_string()), 0);
    assert_eq!(m2.lookup("world".to_string()), 1);
    assert_eq!(m2.lookup("foo".to_string()), 2);
    assert_eq!(m2.lookup("bar".to_string()), 3);
}

#[test]
fn rebinding_keeps_first_value() {
    let m: Tree<(String, usize)> = MapOps::empty();
    let m2 = m.bind("key".to_string(), 1).bind("key".to_string(), 2);
    assert_eq!(m2.lookup("key".to_string()), 1);
}

#[test]
fn prefixed_keys_are_distinct() {
    let m: Tree<(String, usize)> = MapOps::empty();
    let m2 = m
        .bind("ab".to_string(), 10)
        .bind("a".to_string(), 20)
        .bind("abc".to_string(), 30)
        .bind("".to_string(), 40);
    assert_eq!(m2.lookup("ab".to_string()), 10);
    assert_eq!(m2.lookup("a".to_string()), 20);
    assert_eq!(m2.lookup("abc".to_string()), 30);
    assert_eq!(m2.lookup("".to_string()), 40);
}
