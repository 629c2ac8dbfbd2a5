//! The order of keys, byte by byte, and the entries of a table in that order.

use crate::statistic::Statistic;
use crate::table::{lists, Table};
use std::cmp::Ordering;
use vstd::prelude::*;

verus! {

/// Whether `a` and `b` agree on their first `k` bytes.
pub open spec fn agree_upto(a: Seq<u8>, b: Seq<u8>, k: int) -> bool {
    &&& 0 <= k <= a.len()
    &&& k <= b.len()
    &&& forall|j: int| 0 <= j < k ==> a[j] == b[j]
}

/// Whether `a` comes before `b` with `k` as the length of their common
/// prefix: either `a` ends there and `b` goes on, or the next byte of `a` is
/// the smaller one.
pub open spec fn before_at(a: Seq<u8>, b: Seq<u8>, k: int) -> bool {
    &&& agree_upto(a, b, k)
    &&& k < b.len()
    &&& k == a.len() || a[k] < b[k]
}

/// Whether `a` comes before `b` in the order of keys: the lexicographic order
/// of their bytes.
pub open spec fn key_before(a: Seq<u8>, b: Seq<u8>) -> bool {
    exists|k: int| before_at(a, b, k)
}

/// Whether the keys of `items` strictly ascend.
pub open spec fn ascending(items: Seq<(Vec<u8>, Statistic)>) -> bool {
    forall|i: int, j: int|
        0 <= i < j < items.len() ==> key_before((#[trigger] items[i]).0@, (#[trigger] items[j]).0@)
}

/// No key comes before itself, and of two keys at most one comes before the
/// other.
pub proof fn lemma_key_order_asymmetric(a: Seq<u8>, b: Seq<u8>)
    ensures
        !(key_before(a, b) && key_before(b, a)),
        !key_before(a, a),
{
    if key_before(a, b) && key_before(b, a) {
        let k = choose|k: int| before_at(a, b, k);
        let l = choose|l: int| before_at(b, a, l);
        if k < l {
            assert(b[k] == a[k]);
        } else if l < k {
            assert(a[l] == b[l]);
        }
    }
    if key_before(a, a) {
        let k = choose|k: int| before_at(a, a, k);
    }
}

/// Of two different keys that agree on their first `k` bytes, one comes
/// before the other.
pub proof fn lemma_key_order_total_from(a: Seq<u8>, b: Seq<u8>, k: int)
    requires
        agree_upto(a, b, k),
        a != b,
    ensures
        key_before(a, b) || key_before(b, a),
    decreases a.len() - k,
{
    if k == a.len() {
        if k == b.len() {
            assert(a =~= b);
        } else {
            assert(before_at(a, b, k));
        }
    } else if k == b.len() {
        assert(agree_upto(b, a, k));
        assert(before_at(b, a, k));
    } else if a[k] < b[k] {
        assert(before_at(a, b, k));
    } else if b[k] < a[k] {
        assert(agree_upto(b, a, k));
        assert(before_at(b, a, k));
    } else {
        lemma_key_order_total_from(a, b, k + 1);
    }
}

/// Of two different keys, one comes before the other.
pub proof fn lemma_key_order_total(a: Seq<u8>, b: Seq<u8>)
    requires
        a != b,
    ensures
        key_before(a, b) || key_before(b, a),
{
    lemma_key_order_total_from(a, b, 0);
}

/// The order of keys is transitive.
pub proof fn lemma_key_order_transitive(a: Seq<u8>, b: Seq<u8>, c: Seq<u8>)
    requires
        key_before(a, b),
        key_before(b, c),
    ensures
        key_before(a, c),
{
    let k = choose|k: int| before_at(a, b, k);
    let l = choose|l: int| before_at(b, c, l);
    let m = if k <= l { k } else { l };
    assert(agree_upto(a, c, m));
    if k < l {
        assert(b[k] == c[k]);
    } else if l < k {
        assert(a[l] == b[l]);
    }
    assert(before_at(a, c, m));
}

/// Tells whether `a` comes before `b` in the order of keys.
pub fn key_less(a: &[u8], b: &[u8]) -> (less: bool)
    ensures
        less == key_before(a@, b@),
{
    let mut i: usize = 0;
    while i < a.len() && i < b.len()
        invariant
            agree_upto(a@, b@, i as int),
        decreases a@.len() - i,
    {
        if a[i] != b[i] {
            let less = a[i] < b[i];
            proof {
                if less {
                    assert(before_at(a@, b@, i as int));
                } else if key_before(a@, b@) {
                    let k = choose|k: int| before_at(a@, b@, k);
                    if i < k {
                        assert(a@[i as int] == b@[i as int]);
                    }
                }
            }
            return less;
        }
        i = i + 1;
    }
    proof {
        if a.len() < b.len() {
            assert(before_at(a@, b@, i as int));
        } else if key_before(a@, b@) {
            let k = choose|k: int| before_at(a@, b@, k);
        }
    }
    a.len() < b.len()
}

/// Compares two keys in the order of keys.
pub fn compare_keys(a: &[u8], b: &[u8]) -> (r: Ordering)
    ensures
        r == Ordering::Less <==> key_before(a@, b@),
        r == Ordering::Greater <==> key_before(b@, a@),
        r == Ordering::Equal <==> a@ == b@,
{
    proof {
        lemma_key_order_asymmetric(a@, b@);
        if a@ != b@ {
            lemma_key_order_total(a@, b@);
        }
    }
    if key_less(a, b) {
        Ordering::Less
    } else if key_less(b, a) {
        Ordering::Greater
    } else {
        Ordering::Equal
    }
}

/// `slice::sort_by`, comparing the keys with [`compare_keys`]: the items are
/// rearranged so that no item has a key that comes before the key of an
/// earlier item. Nothing is added or lost.
#[verifier::external_body]
fn sort_entries(items: &mut Vec<(Vec<u8>, Statistic)>)
    ensures
        final(items)@.to_multiset() == old(items)@.to_multiset(),
        forall|i: int, j: int|
            0 <= i < j < final(items)@.len() ==> !key_before(
                (#[trigger] final(items)@[j]).0@,
                (#[trigger] final(items)@[i]).0@,
            ),
{
    items.sort_by(|x, y| compare_keys(&x.0, &y.0));
}

/// The entries of `table`, in the order of their keys.
pub fn sorted_entries(table: Table) -> (items: Vec<(Vec<u8>, Statistic)>)
    ensures
        lists(items@, table@),
        ascending(items@),
{
    let mut items = table.into_entries();
    let ghost loose = items@;
    sort_entries(&mut items);
    proof {
        let sorted = items@;
        broadcast use vstd::seq_lib::group_to_multiset_ensures;

        assert(loose.no_duplicates()) by {
            assert forall|i: int, j: int|
                0 <= i < loose.len() && 0 <= j < loose.len() && i != j implies loose[i]
                != loose[j] by {
                if i < j {
                    assert(loose[i].0@ != loose[j].0@);
                } else {
                    assert(loose[j].0@ != loose[i].0@);
                }
            }
        }
        loose.lemma_multiset_has_no_duplicates();
        sorted.lemma_multiset_has_no_duplicates_conv();
        assert forall|i: int| 0 <= i < sorted.len() implies table@.contains_key(
            (#[trigger] sorted[i]).0@,
        ) && table@[sorted[i].0@] == sorted[i].1@ by {
            assert(sorted.to_multiset().contains(sorted[i]));
            assert(loose.contains(sorted[i]));
            let j = choose|j: int| 0 <= j < loose.len() && loose[j] == sorted[i];
            assert(table@.contains_key(loose[j].0@));
        }
        assert forall|k: Seq<u8>| #[trigger] table@.contains_key(k) implies exists|i: int|
            0 <= i < sorted.len() && #[trigger] sorted[i].0@ == k by {
            let j = choose|j: int| 0 <= j < loose.len() && #[trigger] loose[j].0@ == k;
            assert(loose.to_multiset().contains(loose[j]));
            assert(sorted.contains(loose[j]));
            let i = choose|i: int| 0 <= i < sorted.len() && sorted[i] == loose[j];
            assert(sorted[i].0@ == k);
        }
        assert forall|i: int, j: int| 0 <= i < j < sorted.len() implies key_before(
            (#[trigger] sorted[i]).0@,
            (#[trigger] sorted[j]).0@,
        ) by {
            assert(sorted[i] != sorted[j]);
            assert(sorted[i].0@ != sorted[j].0@) by {
                if sorted[i].0@ == sorted[j].0@ {
                    assert(sorted.to_multiset().contains(sorted[i]));
                    assert(sorted.to_multiset().contains(sorted[j]));
                    assert(loose.contains(sorted[i]));
                    assert(loose.contains(sorted[j]));
                    let a = choose|a: int| 0 <= a < loose.len() && loose[a] == sorted[i];
                    let b = choose|b: int| 0 <= b < loose.len() && loose[b] == sorted[j];
                    if a < b {
                        assert(loose[a].0@ != loose[b].0@);
                    } else if b < a {
                        assert(loose[b].0@ != loose[a].0@);
                    }
                }
            }
            lemma_key_order_total(sorted[i].0@, sorted[j].0@);
        }
    }
    items
}

} // verus!
