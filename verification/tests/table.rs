use station_stats::statistic::Statistic;
use station_stats::table::Table;

fn stat(values: &[i32]) -> Statistic {
    let mut s = Statistic::new();
    for v in values {
        s.add(*v);
    }
    s
}

#[test]
fn a_new_table_holds_nothing() {
    let t = Table::new();
    assert_eq!(t.get(b"a"), None);
    assert_eq!(t.get(b""), None);
    assert!(t.into_entries().is_empty());
}

#[test]
fn record_creates_and_updates_entries() {
    let mut t = Table::new();
    t.record(b"a", 10);
    assert_eq!(t.get(b"a"), Some(stat(&[10])));
    assert_eq!(t.get(b"b"), None);
    t.record(b"b", -3);
    t.record(b"a", 25);
    assert_eq!(t.get(b"a"), Some(stat(&[10, 25])));
    assert_eq!(t.get(b"b"), Some(stat(&[-3])));
}

#[test]
fn keys_are_told_apart_by_their_bytes() {
    let mut t = Table::new();
    t.record(b"ab", 1);
    t.record(b"a", 2);
    t.record(b"", 3);
    t.record(b"AB", 4);
    assert_eq!(t.get(b"ab"), Some(stat(&[1])));
    assert_eq!(t.get(b"a"), Some(stat(&[2])));
    assert_eq!(t.get(b""), Some(stat(&[3])));
    assert_eq!(t.get(b"AB"), Some(stat(&[4])));
    assert_eq!(t.get(b"abc"), None);
}

#[test]
fn into_entries_lists_every_entry_once() {
    let mut t = Table::new();
    t.record(b"x", 1);
    t.record(b"y", 2);
    t.record(b"x", 3);
    t.record(b"z", 4);
    let mut items = t.into_entries();
    items.sort_by(|a, b| a.0.cmp(&b.0));
    assert_eq!(
        items,
        vec![
            (b"x".to_vec(), stat(&[1, 3])),
            (b"y".to_vec(), stat(&[2])),
            (b"z".to_vec(), stat(&[4])),
        ]
    );
}

#[test]
fn absorb_inserts_new_keys_and_merges_known_ones() {
    let mut a = Table::new();
    a.record(b"both", 10);
    a.record(b"mine", 1);
    let mut b = Table::new();
    b.record(b"both", -20);
    b.record(b"both", 30);
    b.record(b"theirs", 2);
    a.absorb(b);
    assert_eq!(a.get(b"both"), Some(stat(&[10, -20, 30])));
    assert_eq!(a.get(b"mine"), Some(stat(&[1])));
    assert_eq!(a.get(b"theirs"), Some(stat(&[2])));
    assert_eq!(a.into_entries().len(), 3);
}

#[test]
fn absorbing_an_empty_table_changes_nothing() {
    let mut a = Table::new();
    a.record(b"k", 5);
    a.absorb(Table::new());
    assert_eq!(a.get(b"k"), Some(stat(&[5])));
    assert_eq!(a.into_entries().len(), 1);
    let mut e = Table::new();
    let mut b = Table::new();
    b.record(b"k", 5);
    e.absorb(b);
    assert_eq!(e.get(b"k"), Some(stat(&[5])));
}
