use kor::Trie;

#[test]
fn longest_match_prefers_longer_key() {
    let mut t: Trie<i32> = Trie::new();
    t.insert("아", 1);
    t.insert("아버지", 2);
    let (p, v) = t.find_longest_match("아버지는").unwrap();
    assert_eq!(p, "아버지");
    assert_eq!(*v, 2);
}

#[test]
fn shortest_match_prefers_shorter_key() {
    let mut t: Trie<i32> = Trie::new();
    t.insert("아", 1);
    t.insert("아버지", 2);
    let (p, v) = t.find_shortest_match("아버지는").unwrap();
    assert_eq!(p, "아");
    assert_eq!(*v, 1);
}

#[test]
fn longest_match_skips_gap_without_value() {
    // "ab" has no value of its own; the walk must still reach "abc".
    let mut t: Trie<i32> = Trie::new();
    t.insert("a", 1);
    t.insert("abc", 3);
    let (p, v) = t.find_longest_match("abcd").unwrap();
    assert_eq!(p, "abc");
    assert_eq!(*v, 3);
}

#[test]
fn no_match_returns_none() {
    let mut t: Trie<i32> = Trie::new();
    t.insert("abc", 1);
    assert!(t.find_longest_match("xyz").is_none());
    assert!(t.find_shortest_match("ab").is_none());
}

#[test]
fn reinsert_overwrites_value() {
    let mut t: Trie<i32> = Trie::new();
    t.insert("ab", 1);
    t.insert("ab", 2);
    let (p, v) = t.find_longest_match("ab").unwrap();
    assert_eq!(p, "ab");
    assert_eq!(*v, 2);
}

#[test]
fn remove_returns_old_value() {
    let mut t: Trie<i32> = Trie::new();
    t.insert("ab", 1);
    assert_eq!(t.remove("ab"), Some(1));
    assert_eq!(t.remove("ab"), None);
    assert!(t.find_longest_match("ab").is_none());
}

#[test]
fn remove_absent_key_changes_nothing() {
    let mut t: Trie<i32> = Trie::new();
    t.insert("ab", 1);
    assert_eq!(t.remove("zz"), None);
    assert_eq!(t.remove("a"), None);
    let (p, v) = t.find_longest_match("ab").unwrap();
    assert_eq!((p, *v), ("ab", 1));
}

#[test]
fn empty_key_is_never_a_match() {
    let mut t: Trie<i32> = Trie::new();
    t.insert("", 7);
    assert!(t.find_longest_match("x").is_none());
    assert!(t.find_shortest_match("x").is_none());
    assert_eq!(t.remove(""), Some(7));
}

#[test]
fn removing_short_key_uncovers_no_longer_match() {
    let mut t: Trie<i32> = Trie::new();
    t.insert("ab", 1);
    t.insert("abcd", 2);
    t.remove("abcd");
    let (p, v) = t.find_longest_match("abcdef").unwrap();
    assert_eq!((p, *v), ("ab", 1));
}
