//! The mapping from key to statistic that one scan fills and a merge combines.

use crate::statistic::{
    lemma_bounded_fits, lemma_combine_valid, lemma_observe_valid, Statistic, Summary, MAX_COUNT,
};
use rustc_hash::{FxBuildHasher, FxHashMap};
use vstd::prelude::*;

verus! {

/// The summary that a mapping has for a key: the empty summary for a key that
/// it does not hold.
pub open spec fn lookup(m: Map<Seq<u8>, Summary>, key: Seq<u8>) -> Summary {
    if m.contains_key(key) {
        m[key]
    } else {
        Summary::empty()
    }
}

/// The mapping after one more value has been seen for `key`.
pub open spec fn noted(m: Map<Seq<u8>, Summary>, key: Seq<u8>, value: int) -> Map<
    Seq<u8>,
    Summary,
> {
    m.insert(key, lookup(m, key).observe(value))
}

/// Two mappings taken together: the keys of both, each with the merge of what
/// the two hold for it.
pub open spec fn merged(a: Map<Seq<u8>, Summary>, b: Map<Seq<u8>, Summary>) -> Map<
    Seq<u8>,
    Summary,
> {
    Map::new(
        |k: Seq<u8>| a.contains_key(k) || b.contains_key(k),
        |k: Seq<u8>| lookup(a, k).combine(lookup(b, k)),
    )
}

/// A mapping whose every summary is valid and has seen at least one value and
/// at most [`MAX_COUNT`].
pub open spec fn valid_mapping(m: Map<Seq<u8>, Summary>) -> bool {
    forall|k: Seq<u8>| #[trigger]
        m.contains_key(k) ==> m[k].valid() && 0 < m[k].count <= MAX_COUNT
}

#[verifier::external_type_specification]
#[verifier::external_body]
pub struct ExFxBuildHasher(FxBuildHasher);

/// What a hash map from key bytes to statistic holds: which keys, and the
/// statistic of each.
pub uninterp spec fn entries(map: FxHashMap<Vec<u8>, Statistic>) -> Map<Seq<u8>, Statistic>;

/// `FxHashMap::default`: a map that holds nothing.
#[verifier::external_body]
fn empty_map() -> (fresh: FxHashMap<Vec<u8>, Statistic>)
    ensures
        entries(fresh) =~= Map::empty(),
{
    FxHashMap::default()
}

/// `HashMap::get`, copied out: the statistic stored under the bytes of `key`,
/// if there is one.
#[verifier::external_body]
fn find(map: &FxHashMap<Vec<u8>, Statistic>, key: &[u8]) -> (found: Option<Statistic>)
    ensures
        found == (if entries(*map).contains_key(key@) {
            Some(entries(*map)[key@])
        } else {
            None
        }),
{
    map.get(key).copied()
}

/// `HashMap::entry` followed by `Entry::or_insert_with`: a mutable reference to
/// the statistic stored under `key`. If the key was absent, this call first
/// stores a statistic made by `Statistic::new` under it. Every other entry
/// stays as it was, and the entry of `key` ends as the reference leaves it.
#[verifier::external_body]
fn slot(map: &mut FxHashMap<Vec<u8>, Statistic>, key: Vec<u8>) -> (stat: &mut Statistic)
    ensures
        entries(*old(map)).contains_key(key@) ==> *stat == entries(*old(map))[key@],
        !entries(*old(map)).contains_key(key@) ==> stat@ == Summary::empty(),
        entries(*final(map)) == entries(*old(map)).insert(key@, *final(stat)),
{
    map.entry(key).or_insert_with(Statistic::new)
}

/// `HashMap::into_iter`, collected: every entry of the map once, in an order
/// that is not specified.
#[verifier::external_body]
fn into_items(map: FxHashMap<Vec<u8>, Statistic>) -> (items: Vec<(Vec<u8>, Statistic)>)
    ensures
        forall|i: int|
            0 <= i < items@.len() ==> entries(map).contains_key(#[trigger] items@[i].0@)
                && entries(map)[items@[i].0@] == items@[i].1,
        forall|k: Seq<u8>| #[trigger]
            entries(map).contains_key(k) ==> exists|i: int|
                0 <= i < items@.len() && #[trigger] items@[i].0@ == k,
        forall|i: int, j: int|
            0 <= i < j < items@.len() ==> #[trigger] items@[i].0@ != #[trigger] items@[j].0@,
{
    map.into_iter().collect()
}

/// A mapping from key to statistic.
pub struct Table {
    map: FxHashMap<Vec<u8>, Statistic>,
}

impl View for Table {
    type V = Map<Seq<u8>, Summary>;

    closed spec fn view(&self) -> Map<Seq<u8>, Summary> {
        Map::new(
            |k: Seq<u8>| entries(self.map).contains_key(k),
            |k: Seq<u8>| entries(self.map)[k]@,
        )
    }
}

/// Whether `items` lists the entries of `m`: each item is an entry, each entry
/// is an item, and no key comes twice.
pub open spec fn lists(items: Seq<(Vec<u8>, Statistic)>, m: Map<Seq<u8>, Summary>) -> bool {
    &&& forall|i: int|
        0 <= i < items.len() ==> m.contains_key(#[trigger] items[i].0@) && m[items[i].0@]
            == items[i].1@
    &&& forall|k: Seq<u8>| #[trigger]
        m.contains_key(k) ==> exists|i: int| 0 <= i < items.len() && #[trigger] items[i].0@ == k
    &&& forall|i: int, j: int|
        0 <= i < j < items.len() ==> #[trigger] items[i].0@ != #[trigger] items[j].0@
}

impl Table {
    /// The invariant of the type: every key has a valid statistic of at least
    /// one value and at most [`MAX_COUNT`].
    pub open spec fn wf(&self) -> bool {
        valid_mapping(self@)
    }

    /// A table without entries.
    pub fn new() -> (table: Table)
        ensures
            table@ == Map::<Seq<u8>, Summary>::empty(),
            table.wf(),
    {
        let table = Table { map: empty_map() };
        assert(table@ =~= Map::<Seq<u8>, Summary>::empty());
        table
    }

    /// The statistic of `key`, if the table has one.
    pub fn get(&self, key: &[u8]) -> (found: Option<Statistic>)
        ensures
            match found {
                Some(stat) => self@.contains_key(key@) && stat@ == self@[key@],
                None => !self@.contains_key(key@),
            },
    {
        find(&self.map, key)
    }

    /// Takes in one value for `key`, which gets an entry if it had none.
    pub fn record(&mut self, key: &[u8], value: i32)
        requires
            old(self).wf(),
            lookup(old(self)@, key@).count < MAX_COUNT,
        ensures
            final(self)@ == noted(old(self)@, key@, value as int),
            final(self).wf(),
    {
        let owned = vstd::slice::slice_to_vec(key);
        let stat = slot(&mut self.map, owned);
        proof {
            assert(stat@ == lookup(old(self)@, key@));
            assert(stat@.valid());
            lemma_observe_valid(stat@, value as int);
            lemma_bounded_fits(stat@.observe(value as int));
        }
        stat.add(value);
        assert(self@ =~= noted(old(self)@, key@, value as int));
    }

    /// Takes in everything that `other` holds: a key that is new here gets the
    /// statistic that `other` has for it, any other key the merge of the two.
    pub fn absorb(&mut self, other: Table)
        requires
            old(self).wf(),
            other.wf(),
            forall|k: Seq<u8>|
                (#[trigger] lookup(old(self)@, k)).count + lookup(other@, k).count <= MAX_COUNT,
        ensures
            final(self)@ == merged(old(self)@, other@),
            final(self).wf(),
    {
        let ghost theirs = other@;
        let items = into_items(other.map);
        assert(lists(items@, theirs));
        let mut items = items;
        while items.len() > 0
            invariant
                old(self).wf(),
                valid_mapping(theirs),
                self.wf(),
                forall|k: Seq<u8>|
                    (#[trigger] lookup(old(self)@, k)).count + lookup(theirs, k).count
                        <= MAX_COUNT,
                forall|j: int|
                    0 <= j < items@.len() ==> theirs.contains_key(#[trigger] items@[j].0@)
                        && theirs[items@[j].0@] == items@[j].1@,
                forall|a: int, b: int|
                    0 <= a < b < items@.len() ==> #[trigger] items@[a].0@ != #[trigger] items@[b].0@,
                forall|k: Seq<u8>|
                    #![trigger self@.contains_key(k)]
                    #![trigger lookup(self@, k)]
                    {
                        let pending = exists|j: int|
                            0 <= j < items@.len() && #[trigger] items@[j].0@ == k;
                        &&& self@.contains_key(k) <==> old(self)@.contains_key(k) || (
                        theirs.contains_key(k) && !pending)
                        &&& lookup(self@, k) == if pending {
                            lookup(old(self)@, k)
                        } else {
                            lookup(old(self)@, k).combine(lookup(theirs, k))
                        }
                    },
                forall|k: Seq<u8>| #[trigger]
                    theirs.contains_key(k) ==> self@.contains_key(k) || exists|j: int|
                        0 <= j < items@.len() && #[trigger] items@[j].0@ == k,
            decreases items.len(),
        {
            let ghost before = self@;
            let ghost rest = items@;
            let (key, theirs_stat) = items.pop().unwrap();
            let ghost last = rest.len() - 1;
            assert(rest[last] == (key, theirs_stat));
            assert(items@ =~= rest.subrange(0, last));
            assert(forall|j: int| 0 <= j < last ==> items@[j] == rest[j]);
            assert(!(exists|j: int| 0 <= j < items@.len() && #[trigger] items@[j].0@ == key@));
            assert(lookup(before, key@) == lookup(old(self)@, key@));
            let ghost k0 = key@;
            let stat = slot(&mut self.map, key);
            proof {
                assert(stat@ == lookup(before, k0));
                assert(stat@.valid());
                assert(theirs_stat@.valid());
                lemma_combine_valid(stat@, theirs_stat@);
                assert(lookup(old(self)@, k0).count + lookup(theirs, k0).count <= MAX_COUNT);
                lemma_bounded_fits(stat@.combine(theirs_stat@));
                assert(lookup(theirs, k0) == theirs_stat@);
            }
            stat.merge(&theirs_stat);
            assert(self@ =~= before.insert(k0, lookup(before, k0).combine(theirs_stat@)));
            assert forall|k: Seq<u8>|
                #![trigger self@.contains_key(k)]
                #![trigger lookup(self@, k)]
                {
                    let pending = exists|j: int|
                        0 <= j < items@.len() && #[trigger] items@[j].0@ == k;
                    &&& self@.contains_key(k) <==> old(self)@.contains_key(k) || (
                    theirs.contains_key(k) && !pending)
                    &&& lookup(self@, k) == if pending {
                        lookup(old(self)@, k)
                    } else {
                        lookup(old(self)@, k).combine(lookup(theirs, k))
                    }
                } by {
                let was = exists|j: int| 0 <= j < rest.len() && #[trigger] rest[j].0@ == k;
                let pending = exists|j: int| 0 <= j < items@.len() && #[trigger] items@[j].0@ == k;
                assert(before.contains_key(k) <==> old(self)@.contains_key(k) || (
                theirs.contains_key(k) && !was));
                if k == k0 {
                    assert(rest[last].0@ == k);
                    assert(was);
                } else {
                    if was {
                        let j = choose|j: int| 0 <= j < rest.len() && #[trigger] rest[j].0@ == k;
                        assert(j < last);
                        assert(items@[j].0@ == k);
                    }
                    if pending {
                        let j = choose|j: int|
                            0 <= j < items@.len() && #[trigger] items@[j].0@ == k;
                        assert(rest[j].0@ == k);
                    }
                    assert(was == pending);
                }
            }
        }
        assert(self@ =~= merged(old(self)@, theirs)) by {
            assert forall|k: Seq<u8>|
                self@.contains_key(k) <==> old(self)@.contains_key(k) || theirs.contains_key(
                    k,
                ) by {
                assert(!(exists|j: int| 0 <= j < items@.len() && #[trigger] items@[j].0@ == k));
            }
            assert forall|k: Seq<u8>| self@.contains_key(k) implies self@[k] == lookup(
                old(self)@,
                k,
            ).combine(lookup(theirs, k)) by {
                assert(!(exists|j: int| 0 <= j < items@.len() && #[trigger] items@[j].0@ == k));
                assert(lookup(self@, k) == self@[k]);
            }
        }
    }

    /// The entries of the table, each once, in an order that is not specified.
    pub fn into_entries(self) -> (items: Vec<(Vec<u8>, Statistic)>)
        ensures
            lists(items@, self@),
    {
        into_items(self.map)
    }
}

} // verus!
