//! What holds of aggregation as a whole: the result does not depend on how
//! the records are grouped, nor on the order in which they are seen or the
//! groups merged.

use crate::records::{
    in_range, lemma_in_range_concat, lemma_tally_concat, lemma_tally_push, tally, Observation,
};
use crate::reducer::merged_all;
use crate::statistic::Summary;
use crate::table::{lookup, merged, noted};
use vstd::prelude::*;

verus! {

/// The records of all `groups`, one group after the other.
pub open spec fn joined(groups: Seq<Seq<Observation>>) -> Seq<Observation>
    decreases groups.len(),
{
    if groups.len() == 0 {
        Seq::empty()
    } else {
        joined(groups.drop_last()) + groups.last()
    }
}

/// The tally of each group.
pub open spec fn tallies(groups: Seq<Seq<Observation>>) -> Seq<Map<Seq<u8>, Summary>> {
    Seq::new(groups.len(), |i: int| tally(groups[i]))
}

/// Whether the values of all groups are in range.
pub open spec fn all_in_range(groups: Seq<Seq<Observation>>) -> bool {
    forall|i: int| 0 <= i < groups.len() ==> in_range(#[trigger] groups[i])
}

/// Merging two mappings does not depend on which comes first.
pub proof fn lemma_merged_commutative(a: Map<Seq<u8>, Summary>, b: Map<Seq<u8>, Summary>)
    ensures
        merged(a, b) == merged(b, a),
{
    assert(merged(a, b) =~= merged(b, a));
}

/// Merging three mappings does not depend on which two are merged first.
pub proof fn lemma_merged_associative(
    a: Map<Seq<u8>, Summary>,
    b: Map<Seq<u8>, Summary>,
    c: Map<Seq<u8>, Summary>,
)
    ensures
        merged(merged(a, b), c) == merged(a, merged(b, c)),
{
    assert forall|k: Seq<u8>|
        lookup(merged(a, b), k) == lookup(a, k).combine(lookup(b, k)) && lookup(merged(b, c), k)
            == lookup(b, k).combine(lookup(c, k)) by {}
    assert(merged(merged(a, b), c) =~= merged(a, merged(b, c)));
}

/// Merging with a mapping that holds nothing changes nothing, if every
/// summary of the other is valid.
pub proof fn lemma_merged_identity(a: Map<Seq<u8>, Summary>)
    requires
        forall|k: Seq<u8>| #[trigger] a.contains_key(k) ==> a[k].valid(),
    ensures
        merged(a, Map::empty()) == a,
        merged(Map::empty(), a) == a,
{
    assert(merged(a, Map::empty()) =~= a);
    assert(merged(Map::empty(), a) =~= a);
}

/// Noting two values in a mapping does not depend on which is noted first.
pub proof fn lemma_noted_commutes(
    m: Map<Seq<u8>, Summary>,
    k1: Seq<u8>,
    v1: int,
    k2: Seq<u8>,
    v2: int,
)
    ensures
        noted(noted(m, k1, v1), k2, v2) == noted(noted(m, k2, v2), k1, v1),
{
    assert(noted(noted(m, k1, v1), k2, v2) =~= noted(noted(m, k2, v2), k1, v1));
}

/// The records of groups in range are in range.
pub proof fn lemma_joined_in_range(groups: Seq<Seq<Observation>>)
    requires
        all_in_range(groups),
    ensures
        in_range(joined(groups)),
    decreases groups.len(),
{
    if groups.len() > 0 {
        let front = groups.drop_last();
        assert forall|i: int| 0 <= i < front.len() implies in_range(#[trigger] front[i]) by {
            assert(front[i] == groups[i]);
        }
        lemma_joined_in_range(front);
        lemma_in_range_concat(joined(front), groups.last());
    }
}

/// Aggregating each group on its own and merging the results gives what
/// aggregating all records in one pass gives, however the records are cut
/// into groups.
pub proof fn lemma_grouping_is_irrelevant(groups: Seq<Seq<Observation>>)
    requires
        all_in_range(groups),
    ensures
        merged_all(tallies(groups)) == tally(joined(groups)),
    decreases groups.len(),
{
    if groups.len() == 0 {
        assert(tally(joined(groups)) =~= Map::<Seq<u8>, Summary>::empty());
    } else {
        let front = groups.drop_last();
        assert forall|i: int| 0 <= i < front.len() implies in_range(#[trigger] front[i]) by {
            assert(front[i] == groups[i]);
        }
        lemma_grouping_is_irrelevant(front);
        lemma_joined_in_range(front);
        lemma_tally_concat(joined(front), groups.last());
        assert(tallies(groups).drop_last() =~= tallies(front));
        assert(tallies(groups).last() == tally(groups.last()));
    }
}

/// Taking a record out of a run and noting it last gives the tally of the
/// run.
pub proof fn lemma_tally_remove(records: Seq<Observation>, i: int)
    requires
        0 <= i < records.len(),
    ensures
        tally(records) == noted(tally(records.remove(i)), records[i].key, records[i].value),
    decreases records.len(),
{
    let front = records.drop_last();
    let last = records.last();
    let taken = records[i];
    assert(records =~= front.push(last));
    lemma_tally_push(front, last);
    if i == records.len() - 1 {
        assert(records.remove(i) =~= front);
    } else {
        lemma_tally_remove(front, i);
        let rest = front.remove(i);
        assert(records.remove(i) =~= rest.push(last));
        lemma_tally_push(rest, last);
        lemma_noted_commutes(tally(rest), taken.key, taken.value, last.key, last.value);
    }
}

/// The order in which records are seen does not matter: two runs with the
/// same records, each as often in one as in the other, have the same tally.
pub proof fn lemma_order_is_irrelevant(a: Seq<Observation>, b: Seq<Observation>)
    requires
        a.to_multiset() == b.to_multiset(),
    ensures
        tally(a) == tally(b),
    decreases a.len(),
{
    broadcast use vstd::seq_lib::group_to_multiset_ensures;

    assert(a.len() == b.len()) by {
        vstd::seq_lib::to_multiset_len(a);
        vstd::seq_lib::to_multiset_len(b);
    }
    if a.len() == 0 {
        assert(a =~= b);
    } else {
        let front = a.drop_last();
        let last = a.last();
        assert(a =~= front.push(last));
        assert(a.to_multiset().count(last) > 0) by {
            assert(a.contains(last));
        }
        assert(b.contains(last));
        let i = choose|i: int| 0 <= i < b.len() && b[i] == last;
        let rest = b.remove(i);
        assert(front.to_multiset() =~= rest.to_multiset()) by {
            assert(a.to_multiset() =~= front.to_multiset().insert(last));
            assert(rest.to_multiset() == b.to_multiset().remove(last));
        }
        lemma_tally_remove(b, i);
        lemma_order_is_irrelevant(front, rest);
        lemma_tally_push(front, last);
    }
}

/// Taking a mapping out of a run of mappings and merging it in last gives the
/// merge of the run.
pub proof fn lemma_merged_all_remove(parts: Seq<Map<Seq<u8>, Summary>>, i: int)
    requires
        0 <= i < parts.len(),
    ensures
        merged_all(parts) == merged(merged_all(parts.remove(i)), parts[i]),
    decreases parts.len(),
{
    let front = parts.drop_last();
    let last = parts.last();
    if i == parts.len() - 1 {
        assert(parts.remove(i) =~= front);
    } else {
        lemma_merged_all_remove(front, i);
        let rest = front.remove(i);
        assert(parts.remove(i) =~= rest.push(last));
        assert(rest.push(last).drop_last() =~= rest);
        let base = merged_all(rest);
        lemma_merged_associative(base, parts[i], last);
        lemma_merged_commutative(parts[i], last);
        lemma_merged_associative(base, last, parts[i]);
    }
}

/// The order in which tables are merged does not matter: two runs of the
/// same mappings, each as often in one as in the other, merge to the same
/// mapping.
pub proof fn lemma_merge_order_is_irrelevant(
    a: Seq<Map<Seq<u8>, Summary>>,
    b: Seq<Map<Seq<u8>, Summary>>,
)
    requires
        a.to_multiset() == b.to_multiset(),
    ensures
        merged_all(a) == merged_all(b),
    decreases a.len(),
{
    broadcast use vstd::seq_lib::group_to_multiset_ensures;

    assert(a.len() == b.len()) by {
        vstd::seq_lib::to_multiset_len(a);
        vstd::seq_lib::to_multiset_len(b);
    }
    if a.len() == 0 {
        assert(a =~= b);
    } else {
        let front = a.drop_last();
        let last = a.last();
        assert(a =~= front.push(last));
        assert(a.to_multiset().count(last) > 0) by {
            assert(a.contains(last));
        }
        assert(b.contains(last));
        let i = choose|i: int| 0 <= i < b.len() && b[i] == last;
        let rest = b.remove(i);
        assert(front.to_multiset() =~= rest.to_multiset()) by {
            assert(a.to_multiset() =~= front.to_multiset().insert(last));
            assert(rest.to_multiset() == b.to_multiset().remove(last));
        }
        lemma_merged_all_remove(b, i);
        lemma_merge_order_is_irrelevant(front, rest);
    }
}

} // verus!
