use btree::btree::{child_index, find_pair, has_zero_byte};
use btree::key_order::{bytes_less, key_equal, key_less, key_less_eq};
use btree::node_type::{Key, KeyValuePair, NodeType};
use std::cmp::Ordering;

#[test]
fn bytes_are_ordered_like_words_in_a_dictionary() {
    assert!(bytes_less(b"", b"a"));
    assert!(!bytes_less(b"", b""));
    assert!(!bytes_less(b"a", b""));
    assert!(bytes_less(b"a", b"b"));
    assert!(bytes_less(b"ab", b"b"));
    assert!(bytes_less(b"a", b"ab"));
    assert!(!bytes_less(b"ab", b"a"));
    assert!(!bytes_less(b"abc", b"abc"));
    assert!(bytes_less(&[1, 255], &[2, 0]));
    assert!(bytes_less(&[1, 2, 3], &[1, 2, 4]));
    assert!(!bytes_less(&[1, 2, 4], &[1, 2, 3]));
}

#[test]
fn keys_are_ordered_as_their_bytes_are() {
    assert!(key_less("apple", "banana"));
    assert!(key_less("Zebra", "apple"));
    assert!(key_less("a", "é"));
    assert!(key_less("é", "€"));
    assert!(!key_less("same", "same"));
    assert!(key_less_eq("same", "same"));
    assert!(key_less_eq("a", "b"));
    assert!(!key_less_eq("b", "a"));
    assert!(key_equal("é", "é"));
    assert!(!key_equal("e", "é"));
    // the order of the standard library is the same
    for (a, b) in [("a", "b"), ("ab", "a"), ("", "x"), ("é", "z"), ("k10", "k9")] {
        assert_eq!(key_less(a, b), a < b);
        assert_eq!(key_less_eq(a, b), a <= b);
    }
}

#[test]
fn pairs_are_ordered_by_their_keys_alone() {
    let a1 = KeyValuePair::new("a".to_string(), "1".to_string());
    let a2 = KeyValuePair::new("a".to_string(), "2".to_string());
    let b0 = KeyValuePair::new("b".to_string(), "0".to_string());
    assert_eq!(a1.partial_cmp(&a2), Some(Ordering::Equal));
    assert_eq!(a1.partial_cmp(&b0), Some(Ordering::Less));
    assert_eq!(b0.partial_cmp(&a2), Some(Ordering::Greater));
    assert!(a1 < b0);
    assert!(a1 != a2);
    assert!(Key("a".to_string()) < Key("b".to_string()));
}

#[test]
fn child_index_picks_the_first_key_that_is_not_smaller() {
    let keys = vec![
        Key("d".to_string()),
        Key("h".to_string()),
        Key("p".to_string()),
    ];
    assert_eq!(child_index(&keys, "a"), 0);
    assert_eq!(child_index(&keys, "d"), 0);
    assert_eq!(child_index(&keys, "e"), 1);
    assert_eq!(child_index(&keys, "h"), 1);
    assert_eq!(child_index(&keys, "i"), 2);
    assert_eq!(child_index(&keys, "p"), 2);
    assert_eq!(child_index(&keys, "q"), 3);
    assert_eq!(child_index(&vec![], "q"), 0);
}

#[test]
fn find_pair_finds_the_key_or_its_place() {
    let pairs: Vec<KeyValuePair> = ["b", "d", "f", "h", "j"]
        .iter()
        .map(|k| KeyValuePair::new(k.to_string(), k.to_uppercase()))
        .collect();
    assert_eq!(find_pair(&pairs, "b"), Ok(0));
    assert_eq!(find_pair(&pairs, "f"), Ok(2));
    assert_eq!(find_pair(&pairs, "j"), Ok(4));
    assert_eq!(find_pair(&pairs, "a"), Err(0));
    assert_eq!(find_pair(&pairs, "c"), Err(1));
    assert_eq!(find_pair(&pairs, "i"), Err(4));
    assert_eq!(find_pair(&pairs, "k"), Err(5));
    assert_eq!(find_pair(&vec![], "k"), Err(0));
}

#[test]
fn zero_bytes_are_seen() {
    assert!(!has_zero_byte(b""));
    assert!(!has_zero_byte(b"abc"));
    assert!(has_zero_byte(b"a\0c"));
    assert!(has_zero_byte(b"\0"));
    assert!(has_zero_byte(b"abc\0"));
}

#[test]
fn type_bytes_stand_for_node_kinds() {
    assert_eq!(NodeType::from(1), NodeType::Internal(vec![], vec![]));
    assert_eq!(NodeType::from(2), NodeType::Leaf(vec![]));
    assert_eq!(NodeType::from(0), NodeType::Unexpected);
    assert_eq!(NodeType::from(3), NodeType::Unexpected);
    assert_eq!(NodeType::Internal(vec![], vec![]).tag(), 1);
    assert_eq!(NodeType::Leaf(vec![]).tag(), 2);
    assert_eq!(NodeType::Unexpected.tag(), 3);
}
