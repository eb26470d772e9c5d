use okasaki::trie::{longest_common_prefix, PatriciaTrie};

#[test]
fn patricia_trie() {
    let t: PatriciaTrie<usize> = PatriciaTrie::empty();
    let t2 = t
        .bind("test".to_string(), 0)
        .bind("slow".to_string(), 1)
        .bind("water".to_string(), 2)
        .bind("slower".to_string(), 3)
        .bind("tester".to_string(), 4)
        .bind("te".to_string(), 5);

    assert_eq!(t2.lookup("test".to_string()), 0);
    assert_eq!(t2.lookup("slow".to_string()), 1);
    assert_eq!(t2.lookup("water".to_string()), 2);
    assert_eq!(t2.lookup("slower".to_string()), 3);
    assert_eq!(t2.lookup("tester".to_string()), 4);
    assert_eq!(t2.lookup("te".to_string()), 5);
}

#[test]
fn rebinding_overwrites() {
    let t: PatriciaTrie<usize> = PatriciaTrie::empty();
    let t2 = t.bind("te".to_string(), 5).bind("te".to_string(), 9);
    assert_eq!(t2.lookup("te".to_string()), 9);
}

#[test]
fn common_prefix_lengths() {
    assert_eq!(longest_common_prefix("slow", "slower"), 4);
    assert_eq!(longest_common_prefix("test", "toast"), 1);
    assert_eq!(longest_common_prefix("", "water"), 0);
    assert_eq!(longest_common_prefix("same", "same"), 4);
}
