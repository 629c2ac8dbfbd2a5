//! The whole run on one buffer: plan, scan, merge and render.

use crate::laws::{joined, lemma_grouping_is_irrelevant, tallies};
use crate::ranges::{
    is_partition, lemma_partition_complete, plan_ranges, records_in, undecodable_in, ByteRange,
};
use crate::records::{
    has_undecodable, in_range, lemma_readings_in_range, lemma_scan_keys, lemma_scan_valid,
    lemma_tally_valid, lines, readings, scan, Observation, MAX_SCAN_LEN,
};
use crate::reducer::{merged_all, reduce, views, within_capacity};
use crate::report::{
    is_key_order, is_report, lemma_line_is_text, lemma_report_unique, line_text, report, texts,
};
use crate::scanner::ScanError;
use crate::statistic::Summary;
use crate::table::Table;
use crate::worker::aggregate;
use vstd::prelude::*;
use vstd::utf8::valid_utf8;

verus! {

/// The bytes of `buf` that `range` names.
pub open spec fn piece(buf: Seq<u8>, range: ByteRange) -> Seq<u8> {
    buf.subrange(range.start as int, range.end as int)
}

/// The records of each range, scanned on its own.
pub open spec fn groups_of(buf: Seq<u8>, ranges: Seq<ByteRange>) -> Seq<Seq<Observation>> {
    Seq::new(ranges.len(), |i: int| readings(lines(piece(buf, ranges[i]))))
}

/// The records of the ranges are the records of their groups, joined.
pub proof fn lemma_records_in_joined(buf: Seq<u8>, ranges: Seq<ByteRange>)
    ensures
        records_in(buf, ranges) == joined(groups_of(buf, ranges)),
    decreases ranges.len(),
{
    if ranges.len() > 0 {
        lemma_records_in_joined(buf, ranges.drop_last());
        assert(groups_of(buf, ranges).drop_last() =~= groups_of(buf, ranges.drop_last()));
    }
}

/// Scans each of `ranges` into a table of its own, one after the other. The
/// scan fails if some range has a key that is not text.
pub fn scan_ranges(buf: &[u8], ranges: &Vec<ByteRange>) -> (result: Result<Vec<Table>, ScanError>)
    requires
        forall|i: int|
            0 <= i < ranges@.len() ==> (#[trigger] ranges@[i]).start <= ranges@[i].end
                <= buf@.len() && ranges@[i].end - ranges@[i].start <= MAX_SCAN_LEN,
    ensures
        match result {
            Ok(tables) => {
                &&& !undecodable_in(buf@, ranges@)
                &&& tables@.len() == ranges@.len()
                &&& forall|i: int|
                    0 <= i < tables@.len() ==> (#[trigger] tables@[i]).wf() && tables@[i]@
                        == scan(piece(buf@, ranges@[i]))
            },
            Err(e) => undecodable_in(buf@, ranges@),
        },
{
    let mut tables: Vec<Table> = Vec::new();
    let mut i: usize = 0;
    while i < ranges.len()
        invariant
            0 <= i <= ranges@.len(),
            forall|j: int|
                0 <= j < ranges@.len() ==> (#[trigger] ranges@[j]).start <= ranges@[j].end
                    <= buf@.len() && ranges@[j].end - ranges@[j].start <= MAX_SCAN_LEN,
            tables@.len() == i,
            forall|j: int|
                0 <= j < i ==> (#[trigger] tables@[j]).wf() && tables@[j]@ == scan(
                    piece(buf@, ranges@[j]),
                ),
            forall|j: int|
                0 <= j < i ==> !has_undecodable(
                    lines(buf@.subrange((#[trigger] ranges@[j]).start as int, ranges@[j].end as int)),
                ),
        decreases ranges@.len() - i,
    {
        let range = ranges[i];
        match aggregate(buf, range.start, range.end) {
            Ok(table) => {
                tables.push(table);
            },
            Err(e) => {
                return Err(e);
            },
        }
        i = i + 1;
    }
    Ok(tables)
}

/// The whole run: cuts `buf` into one range per worker, scans each range,
/// merges the tables and renders the result. What comes out is the report of
/// the buffer scanned as one piece, whatever the number of workers. The run
/// fails exactly if some line of the buffer has a key that is not text.
pub fn summarize(buf: &[u8], workers: usize) -> (result: Result<Vec<Vec<u8>>, ScanError>)
    requires
        workers >= 1,
        buf@.len() <= MAX_SCAN_LEN,
    ensures
        match result {
            Ok(out) => {
                &&& !has_undecodable(lines(buf@))
                &&& is_report(texts(out@), scan(buf@))
                &&& forall|i: int| 0 <= i < out@.len() ==> valid_utf8((#[trigger] out@[i])@)
            },
            Err(e) => has_undecodable(lines(buf@)),
        },
{
    let ranges = plan_ranges(buf, workers);
    proof {
        lemma_partition_complete(buf@, ranges@);
    }
    match scan_ranges(buf, &ranges) {
        Ok(tables) => {
            proof {
                lemma_merge_of_partition(buf@, ranges@, views(tables@));
            }
            let total = reduce(tables);
            let out = report(total);
            proof {
                lemma_output_is_text(buf@, texts(out@));
                assert forall|i: int| 0 <= i < out@.len() implies valid_utf8(
                    (#[trigger] out@[i])@,
                ) by {
                    assert(texts(out@)[i] == out@[i]@);
                }
            }
            Ok(out)
        },
        Err(e) => Err(e),
    }
}

/// Merging the tables of the ranges of a partition gives the table of the
/// whole buffer, which holds no key more often than fits.
pub proof fn lemma_merge_of_partition(
    buf: Seq<u8>,
    ranges: Seq<ByteRange>,
    parts: Seq<Map<Seq<u8>, Summary>>,
)
    requires
        is_partition(ranges, buf),
        buf.len() <= MAX_SCAN_LEN,
        parts.len() == ranges.len(),
        forall|i: int| 0 <= i < parts.len() ==> #[trigger] parts[i] == scan(piece(buf, ranges[i])),
    ensures
        merged_all(parts) == scan(buf),
        within_capacity(merged_all(parts)),
{
    let groups = groups_of(buf, ranges);
    assert(parts =~= tallies(groups));
    assert forall|i: int| 0 <= i < groups.len() implies in_range(#[trigger] groups[i]) by {
        lemma_readings_in_range(lines(piece(buf, ranges[i])));
    }
    lemma_grouping_is_irrelevant(groups);
    lemma_records_in_joined(buf, ranges);
    lemma_partition_complete(buf, ranges);
    lemma_scan_valid(buf);
    lemma_tally_valid(readings(lines(buf)));
}

/// Every line of the report of a buffer is text.
pub proof fn lemma_output_is_text(buf: Seq<u8>, out: Seq<Seq<u8>>)
    requires
        is_report(out, scan(buf)),
    ensures
        forall|i: int| 0 <= i < out.len() ==> valid_utf8(#[trigger] out[i]),
{
    let m = scan(buf);
    let keys = choose|keys: Seq<Seq<u8>>|
        {
            &&& #[trigger] is_key_order(keys, m)
            &&& out.len() == keys.len()
            &&& forall|i: int|
                0 <= i < keys.len() ==> #[trigger] out[i] == line_text(keys[i], m[keys[i]])
        };
    assert forall|i: int| 0 <= i < out.len() implies valid_utf8(#[trigger] out[i]) by {
        assert(m.contains_key(keys[i]));
        lemma_scan_keys(buf, keys[i]);
        lemma_line_is_text(keys[i], m[keys[i]]);
    }
}

/// The output of a run is determined by the bytes of the buffer alone: two
/// runs on the same bytes, with whatever numbers of workers, give the same
/// lines.
pub proof fn lemma_output_is_determined(buf: Seq<u8>, first: Seq<Seq<u8>>, second: Seq<Seq<u8>>)
    requires
        is_report(first, scan(buf)),
        is_report(second, scan(buf)),
    ensures
        first == second,
{
    lemma_report_unique(first, second, scan(buf));
}

} // verus!
