//! The scan of one byte range into a table of its own.

use crate::records::{
    has_undecodable, lemma_readings_concat, lemma_readings_in_range, lemma_scan_valid,
    lemma_tally_push, lemma_tally_valid, lines, reading, readings, scan, tally, MAX_SCAN_LEN,
};
use crate::scanner::{next_line, read_line, Line, ScanError};
use crate::statistic::MAX_COUNT;
use crate::table::Table;
use vstd::prelude::*;
use vstd::slice::slice_subrange;

verus! {

/// Scans the bytes `start..end` of `buf` line by line and aggregates their
/// records into a new table. A line without a separator or without a
/// supported value is skipped; what follows the last terminator of the range
/// is not looked at; a key that is not text fails the scan.
pub fn aggregate(buf: &[u8], start: usize, end: usize) -> (result: Result<Table, ScanError>)
    requires
        start <= end <= buf@.len(),
        end - start <= MAX_SCAN_LEN,
    ensures
        match result {
            Ok(table) => {
                &&& !has_undecodable(lines(buf@.subrange(start as int, end as int)))
                &&& table@ == scan(buf@.subrange(start as int, end as int))
                &&& table.wf()
            },
            Err(e) => has_undecodable(lines(buf@.subrange(start as int, end as int))),
        },
{
    let ghost all = lines(buf@.subrange(start as int, end as int));
    let ghost done = Seq::<Seq<u8>>::empty();
    let mut table = Table::new();
    let mut from = start;
    proof {
        lemma_scan_valid(buf@.subrange(start as int, end as int));
        assert(tally(readings(done)) =~= table@);
        assert(done + all =~= all);
    }
    loop
        invariant
            start <= from <= end <= buf@.len(),
            all == lines(buf@.subrange(start as int, end as int)),
            all == done + lines(buf@.subrange(from as int, end as int)),
            readings(all).len() <= MAX_COUNT,
            table@ == tally(readings(done)),
            table.wf(),
            !has_undecodable(done),
        ensures
            !has_undecodable(all),
            table@ == tally(readings(all)),
            table.wf(),
        decreases end - from,
    {
        let found = next_line(buf, from, end);
        if found.is_none() {
            assert(done + Seq::<Seq<u8>>::empty() =~= done);
            break;
        }
        let at = found.unwrap();
        let line = slice_subrange(buf, from, at);
        let read = read_line(line);
        let ghost rest = lines(buf@.subrange(at + 1, end as int));
        let ghost more = done.push(line@);
        proof {
            assert(all =~= more + rest);
            assert(more =~= done + seq![line@]);
            lemma_readings_concat(more, rest);
            lemma_readings_concat(done, seq![line@]);
            assert(more.drop_last() =~= done);
            assert(more.last() == line@);
            assert(more[done.len() as int] == line@);
        }
        match read {
            Line::Record { key, value } => {
                proof {
                    let o = reading(line@)->Record_0;
                    assert(readings(more) == readings(done).push(o));
                    lemma_readings_in_range(done);
                    lemma_tally_valid(readings(done));
                    lemma_tally_push(readings(done), o);
                }
                table.record(key, value);
            },
            Line::UndecodableKey => {
                assert(has_undecodable(more));
                return Err(ScanError::UndecodableKey);
            },
            _ => {
                assert(readings(more) == readings(done));
            },
        }
        proof {
            assert(!has_undecodable(more)) by {
                if has_undecodable(more) {
                    let j = choose|j: int|
                        0 <= j < more.len() && reading(#[trigger] more[j]) is UndecodableKey;
                    if j < done.len() {
                        assert(done[j] == more[j]);
                    }
                }
            }
            done = more;
        }
        from = at + 1;
    }
    Ok(table)
}

} // verus!
