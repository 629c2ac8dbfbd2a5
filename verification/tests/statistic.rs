use station_stats::statistic::Statistic;

fn of(values: &[i32]) -> Statistic {
    let mut s = Statistic::new();
    for v in values {
        s.add(*v);
    }
    s
}

#[test]
fn new_statistic_holds_the_sentinels() {
    let s = Statistic::new();
    assert_eq!(s.min(), i32::MAX);
    assert_eq!(s.max(), i32::MIN);
    assert_eq!(s.sum(), 0);
    assert_eq!(s.count(), 0);
}

#[test]
fn add_updates_all_four_fields() {
    let mut s = Statistic::new();
    s.add(100);
    assert_eq!((s.min(), s.max(), s.sum(), s.count()), (100, 100, 100, 1));
    s.add(-55);
    assert_eq!((s.min(), s.max(), s.sum(), s.count()), (-55, 100, 45, 2));
    s.add(200);
    assert_eq!((s.min(), s.max(), s.sum(), s.count()), (-55, 200, 245, 3));
}

#[test]
fn add_accepts_the_extreme_values() {
    let s = of(&[i32::MAX, i32::MIN]);
    assert_eq!(s.min(), i32::MIN);
    assert_eq!(s.max(), i32::MAX);
    assert_eq!(s.sum(), -1);
    assert_eq!(s.count(), 2);
}

#[test]
fn merge_combines_two_statistics() {
    let mut a = of(&[10, 30]);
    let b = of(&[-5, 20, 45]);
    a.merge(&b);
    assert_eq!((a.min(), a.max(), a.sum(), a.count()), (-5, 45, 100, 5));
}

#[test]
fn merge_is_commutative() {
    let a = of(&[10, 30]);
    let b = of(&[-5, 20, 45]);
    let mut ab = a;
    ab.merge(&b);
    let mut ba = b;
    ba.merge(&a);
    assert_eq!(ab, ba);
}

#[test]
fn merge_is_associative() {
    let a = of(&[1, 2]);
    let b = of(&[-7]);
    let c = of(&[100, 50, 25]);
    let mut left = a;
    left.merge(&b);
    left.merge(&c);
    let mut bc = b;
    bc.merge(&c);
    let mut right = a;
    right.merge(&bc);
    assert_eq!(left, right);
}

#[test]
fn merge_with_a_new_statistic_changes_nothing() {
    let a = of(&[10, -30, 7]);
    let mut left = a;
    left.merge(&Statistic::new());
    assert_eq!(left, a);
    let mut right = Statistic::new();
    right.merge(&a);
    assert_eq!(right, a);
}

#[test]
fn merging_groups_equals_one_pass() {
    let all = [12, -4, 99, 0, -57, 33, 8];
    let whole = of(&all);
    let mut parts = of(&all[..3]);
    parts.merge(&of(&all[3..5]));
    parts.merge(&of(&all[5..]));
    assert_eq!(parts, whole);
    let mut shuffled = of(&all[5..]);
    shuffled.merge(&of(&all[..3]));
    shuffled.merge(&of(&all[3..5]));
    assert_eq!(shuffled, whole);
}

#[test]
fn mean_of_exact_quotient() {
    assert_eq!(of(&[100, 200]).mean(), 150);
    assert_eq!(of(&[-55]).mean(), -55);
    assert_eq!(of(&[0, 0, 0]).mean(), 0);
}

#[test]
fn mean_rounds_to_nearest() {
    assert_eq!(of(&[1, 1, 2]).mean(), 1);
    assert_eq!(of(&[1, 2, 2]).mean(), 2);
    assert_eq!(of(&[-1, -1, -2]).mean(), -1);
    assert_eq!(of(&[-1, -2, -2]).mean(), -2);
}

#[test]
fn mean_rounds_a_tie_away_from_zero() {
    assert_eq!(of(&[1, 2]).mean(), 2);
    assert_eq!(of(&[-1, -2]).mean(), -2);
    assert_eq!(of(&[0, 1]).mean(), 1);
    assert_eq!(of(&[0, -1]).mean(), -1);
}

#[test]
fn mean_lies_between_min_and_max() {
    let s = of(&[i32::MAX, i32::MAX, i32::MAX - 1]);
    assert!(s.min() <= s.mean() && s.mean() <= s.max());
    assert_eq!(s.mean(), i32::MAX);
    let t = of(&[i32::MIN, i32::MIN + 1]);
    assert_eq!(t.mean(), i32::MIN);
}
