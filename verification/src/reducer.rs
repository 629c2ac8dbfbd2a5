//! Folding the tables of all ranges into one.

use crate::statistic::{lemma_combine_valid, Summary, MAX_COUNT};
use crate::table::{lookup, merged, valid_mapping, Table};
use vstd::prelude::*;

verus! {

/// The mappings that `tables` stand for, in order.
pub open spec fn views(tables: Seq<Table>) -> Seq<Map<Seq<u8>, Summary>> {
    Seq::new(tables.len(), |i: int| tables[i]@)
}

/// All of `parts` merged, from the first to the last.
pub open spec fn merged_all(parts: Seq<Map<Seq<u8>, Summary>>) -> Map<Seq<u8>, Summary>
    decreases parts.len(),
{
    if parts.len() == 0 {
        Map::empty()
    } else {
        merged(merged_all(parts.drop_last()), parts.last())
    }
}

/// Whether no key has more than [`MAX_COUNT`] values in `m`.
pub open spec fn within_capacity(m: Map<Seq<u8>, Summary>) -> bool {
    forall|k: Seq<u8>| (#[trigger] lookup(m, k)).count <= MAX_COUNT
}

/// Merging valid mappings gives a valid mapping, if the counts stay within
/// capacity; and a part of them never holds more for a key than the whole.
pub proof fn lemma_merged_all_valid(parts: Seq<Map<Seq<u8>, Summary>>, n: int)
    requires
        forall|i: int| 0 <= i < parts.len() ==> valid_mapping(#[trigger] parts[i]),
        within_capacity(merged_all(parts)),
        0 <= n <= parts.len(),
    ensures
        valid_mapping(merged_all(parts.take(n))),
        forall|k: Seq<u8>|
            (#[trigger] lookup(merged_all(parts.take(n)), k)).count <= lookup(
                merged_all(parts),
                k,
            ).count,
    decreases parts.len() - n,
{
    let whole = merged_all(parts);
    let part = merged_all(parts.take(n));
    if n == parts.len() {
        assert(parts.take(n) =~= parts);
        lemma_merged_all_sane(parts);
        assert forall|k: Seq<u8>| #[trigger] whole.contains_key(k) implies whole[k].valid() && 0
            < whole[k].count <= MAX_COUNT by {
            assert(lookup(whole, k).count <= MAX_COUNT);
        }
    } else {
        lemma_merged_all_valid(parts, n + 1);
        let more = parts.take(n + 1);
        let bigger = merged_all(more);
        assert(more.drop_last() =~= parts.take(n));
        assert(more.last() == parts[n]);
        lemma_merged_all_sane(parts.take(n));
        assert forall|k: Seq<u8>|
            (#[trigger] lookup(part, k)).count <= lookup(whole, k).count by {
            assert(lookup(bigger, k).count <= lookup(whole, k).count);
            assert(lookup(bigger, k) == lookup(part, k).combine(lookup(parts[n], k)));
        }
        assert forall|k: Seq<u8>| #[trigger] part.contains_key(k) implies part[k].valid() && 0
            < part[k].count <= MAX_COUNT by {
            assert(lookup(part, k).count <= lookup(whole, k).count);
            assert(lookup(whole, k).count <= MAX_COUNT);
        }
    }
}

/// Merging valid mappings gives summaries that are valid and, for the keys
/// held, of at least one value.
pub proof fn lemma_merged_all_sane(parts: Seq<Map<Seq<u8>, Summary>>)
    requires
        forall|i: int| 0 <= i < parts.len() ==> valid_mapping(#[trigger] parts[i]),
    ensures
        forall|k: Seq<u8>| (#[trigger] lookup(merged_all(parts), k)).valid(),
        forall|k: Seq<u8>| #[trigger]
            merged_all(parts).contains_key(k) ==> merged_all(parts)[k].count > 0,
    decreases parts.len(),
{
    if parts.len() > 0 {
        let front = parts.drop_last();
        assert forall|i: int| 0 <= i < front.len() implies valid_mapping(#[trigger] front[i]) by {
            assert(front[i] == parts[i]);
        }
        lemma_merged_all_sane(front);
        let last = parts.last();
        assert(valid_mapping(last));
        assert forall|k: Seq<u8>| (#[trigger] lookup(merged_all(parts), k)).valid() by {
            assert(lookup(merged_all(front), k).valid());
            assert(lookup(last, k).valid());
            lemma_combine_valid(lookup(merged_all(front), k), lookup(last, k));
        }
        assert forall|k: Seq<u8>| #[trigger]
            merged_all(parts).contains_key(k) implies merged_all(parts)[k].count > 0 by {
            if last.contains_key(k) {
                assert(last[k].count > 0);
            } else {
                assert(merged_all(front).contains_key(k));
            }
        }
    }
}

/// Merges all of `tables` into one, the first to the last.
pub fn reduce(tables: Vec<Table>) -> (total: Table)
    requires
        forall|i: int| 0 <= i < tables@.len() ==> (#[trigger] tables@[i]).wf(),
        within_capacity(merged_all(views(tables@))),
    ensures
        total@ == merged_all(views(tables@)),
        total.wf(),
{
    let ghost parts = views(tables@);
    let ghost all = tables@;
    let mut total = Table::new();
    assert(parts.take(0) =~= Seq::<Map<Seq<u8>, Summary>>::empty());
    for table in it: tables
        invariant
            it.seq() == all,
            parts == views(all),
            forall|i: int| 0 <= i < all.len() ==> (#[trigger] all[i]).wf(),
            within_capacity(merged_all(parts)),
            total@ == merged_all(parts.take(it.index() as int)),
            total.wf(),
    {
        let ghost n = it.index() as int;
        proof {
            assert(table == all[n]);
            let more = parts.take(n + 1);
            assert(more.drop_last() =~= parts.take(n));
            assert(more.last() == table@);
            assert forall|i: int| 0 <= i < parts.len() implies valid_mapping(
                #[trigger] parts[i],
            ) by {
                assert(all[i].wf());
            }
            lemma_merged_all_valid(parts, n + 1);
            assert forall|k: Seq<u8>|
                (#[trigger] lookup(total@, k)).count + lookup(table@, k).count <= MAX_COUNT by {
                assert(lookup(merged_all(more), k) == lookup(total@, k).combine(
                    lookup(table@, k),
                ));
                assert(lookup(merged_all(more), k).count <= lookup(merged_all(parts), k).count);
                assert(lookup(merged_all(parts), k).count <= MAX_COUNT);
            }
        }
        total.absorb(table);
    }
    assert(parts.take(all.len() as int) =~= parts);
    total
}

} // verus!
