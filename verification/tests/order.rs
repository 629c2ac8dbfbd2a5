use station_stats::order::{compare_keys, key_less, sorted_entries};
use station_stats::table::Table;
use std::cmp::Ordering;

#[test]
fn key_less_compares_byte_by_byte() {
    assert!(key_less(b"a", b"b"));
    assert!(!key_less(b"b", b"a"));
    assert!(key_less(b"ab", b"ac"));
    assert!(key_less(b"Z", b"a"));
    assert!(!key_less(b"a", b"Z"));
    assert!(key_less(b"a\x7f", b"a\x80"));
    assert!(key_less(b"\x00", b"\xff"));
}

#[test]
fn a_proper_prefix_comes_first() {
    assert!(key_less(b"", b"a"));
    assert!(key_less(b"ab", b"abc"));
    assert!(!key_less(b"abc", b"ab"));
    assert!(!key_less(b"a", b""));
}

#[test]
fn no_key_comes_before_itself() {
    assert!(!key_less(b"", b""));
    assert!(!key_less(b"abc", b"abc"));
}

#[test]
fn compare_keys_agrees_with_the_order_of_byte_slices() {
    let keys: [&[u8]; 9] =
        [b"", b"a", b"ab", b"abc", b"b", b"B", "Zürich".as_bytes(), b"Zurich", b"\xff"];
    for a in keys {
        for b in keys {
            assert_eq!(compare_keys(a, b), a.cmp(b));
            assert_eq!(key_less(a, b), a < b);
        }
    }
    assert_eq!(compare_keys(b"a", b"b"), Ordering::Less);
    assert_eq!(compare_keys(b"b", b"a"), Ordering::Greater);
    assert_eq!(compare_keys(b"a", b"a"), Ordering::Equal);
}

#[test]
fn sorted_entries_ascend_by_key() {
    let mut t = Table::new();
    for key in ["delta", "alpha", "Charlie", "bravo", "alphabet", "", "echo", "Zulu"] {
        t.record(key.as_bytes(), 1);
    }
    let keys: Vec<Vec<u8>> = sorted_entries(t).into_iter().map(|e| e.0).collect();
    let expected: Vec<Vec<u8>> =
        ["", "Charlie", "Zulu", "alpha", "alphabet", "bravo", "delta", "echo"]
            .iter()
            .map(|k| k.as_bytes().to_vec())
            .collect();
    assert_eq!(keys, expected);
}

#[test]
fn sorted_entries_keep_the_statistics() {
    let mut t = Table::new();
    t.record(b"b", 5);
    t.record(b"a", 7);
    t.record(b"b", -5);
    let items = sorted_entries(t);
    assert_eq!(items.len(), 2);
    assert_eq!(items[0].0, b"a");
    assert_eq!((items[0].1.min(), items[0].1.max(), items[0].1.count()), (7, 7, 1));
    assert_eq!(items[1].0, b"b");
    assert_eq!((items[1].1.min(), items[1].1.max(), items[1].1.sum()), (-5, 5, 0));
}
