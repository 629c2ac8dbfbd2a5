//! Cutting a buffer into contiguous byte ranges that begin and end at line
//! boundaries.

use crate::records::{
    aligned, has_undecodable, lemma_lines_concat, lemma_readings_concat, lines, readings,
    Observation, NEWLINE,
};
use crate::scanner::find_byte;
use vstd::prelude::*;

verus! {

/// The bytes `start..end` of a buffer.
#[derive(Clone, Copy, Debug, PartialEq, Eq, Structural)]
pub struct ByteRange {
    pub start: usize,
    pub end: usize,
}

/// The index just behind the first terminator at or after `from`, or the
/// length of `buf` if there is no terminator from there on.
pub open spec fn next_line_start(buf: Seq<u8>, from: int) -> int
    decreases buf.len() - from,
{
    if from >= buf.len() {
        buf.len() as int
    } else if buf[from] == NEWLINE {
        from + 1
    } else {
        next_line_start(buf, from + 1)
    }
}

/// Where range `i` of `workers` begins: at 0 for the first; for the others at
/// the line start that follows `i` strides of `buf.len() / workers` bytes;
/// behind the last range, at the end of the buffer.
pub open spec fn boundary(buf: Seq<u8>, workers: int, i: int) -> int {
    if i <= 0 {
        0
    } else if i >= workers {
        buf.len() as int
    } else {
        next_line_start(buf, i * (buf.len() as int / workers))
    }
}

/// Whether `ranges` is the plan for `buf` and `workers`: one range per
/// worker, from its boundary to the next.
pub open spec fn is_plan(ranges: Seq<ByteRange>, buf: Seq<u8>, workers: int) -> bool {
    &&& ranges.len() == workers
    &&& forall|i: int|
        0 <= i < workers ==> (#[trigger] ranges[i]).start == boundary(buf, workers, i)
            && ranges[i].end == boundary(buf, workers, i + 1)
}

/// Whether a buffer may be cut at `at` without cutting a record that is read:
/// at its start, behind a terminator, or at its end.
pub open spec fn is_cut(buf: Seq<u8>, at: int) -> bool {
    &&& 0 <= at <= buf.len()
    &&& at == buf.len() || aligned(buf.subrange(0, at))
}

/// Whether `ranges` cuts `buf` into pieces that follow one another from its
/// first byte to its last, each cut at a line boundary.
pub open spec fn is_partition(ranges: Seq<ByteRange>, buf: Seq<u8>) -> bool {
    &&& ranges.len() >= 1
    &&& ranges[0].start == 0
    &&& ranges.last().end == buf.len()
    &&& forall|i: int|
        0 <= i < ranges.len() ==> (#[trigger] ranges[i]).start <= ranges[i].end && is_cut(
            buf,
            ranges[i].end as int,
        )
    &&& forall|i: int|
        0 <= i < ranges.len() - 1 ==> (#[trigger] ranges[i]).end == ranges[i + 1].start
}

/// The records that are read when each of `ranges` is scanned on its own, in
/// the order of the ranges.
pub open spec fn records_in(buf: Seq<u8>, ranges: Seq<ByteRange>) -> Seq<Observation>
    decreases ranges.len(),
{
    if ranges.len() == 0 {
        Seq::empty()
    } else {
        records_in(buf, ranges.drop_last()) + readings(
            lines(buf.subrange(ranges.last().start as int, ranges.last().end as int)),
        )
    }
}

/// Whether some range of `ranges`, scanned on its own, has a line whose key
/// is not text.
pub open spec fn undecodable_in(buf: Seq<u8>, ranges: Seq<ByteRange>) -> bool {
    exists|i: int|
        0 <= i < ranges.len() && has_undecodable(
            lines(buf.subrange((#[trigger] ranges[i]).start as int, ranges[i].end as int)),
        )
}

/// The next line start lies behind `from`, within the buffer, and is a place
/// to cut.
pub proof fn lemma_next_line_start(buf: Seq<u8>, from: int)
    requires
        0 <= from <= buf.len(),
    ensures
        from <= next_line_start(buf, from) <= buf.len(),
        is_cut(buf, next_line_start(buf, from)),
    decreases buf.len() - from,
{
    if from < buf.len() && buf[from] != NEWLINE {
        lemma_next_line_start(buf, from + 1);
    }
}

/// A later byte has no earlier next line start.
pub proof fn lemma_next_line_start_monotone(buf: Seq<u8>, from: int, later: int)
    requires
        0 <= from <= later <= buf.len(),
    ensures
        next_line_start(buf, from) <= next_line_start(buf, later),
    decreases buf.len() - from,
{
    lemma_next_line_start(buf, later);
    if from < later && buf[from] != NEWLINE {
        lemma_next_line_start_monotone(buf, from + 1, later);
    }
}

/// If no terminator lies in `from..at`, and `at` is a terminator or the end
/// of the buffer, then the next line start of `from` is just behind `at`, or
/// the end.
pub proof fn lemma_next_line_start_found(buf: Seq<u8>, from: int, at: int)
    requires
        0 <= from <= at <= buf.len(),
        forall|j: int| from <= j < at ==> buf[j] != NEWLINE,
        at < buf.len() ==> buf[at] == NEWLINE,
    ensures
        next_line_start(buf, from) == if at < buf.len() { at + 1 } else { at },
    decreases at - from,
{
    if from < at {
        lemma_next_line_start_found(buf, from + 1, at);
    }
}

/// A whole number of strides, for at most as many strides as there are
/// workers, stays within the buffer, and more strides reach further.
pub proof fn lemma_stride(len: int, workers: int, i: int)
    requires
        0 <= len,
        1 <= workers,
        0 <= i <= workers,
    ensures
        0 <= i * (len / workers) <= len,
        i < workers ==> i * (len / workers) <= (i + 1) * (len / workers),
{
    let stride = len / workers;
    assert(0 <= stride && workers * stride <= len) by (nonlinear_arith)
        requires
            stride == len / workers,
            0 <= len,
            1 <= workers,
    ;
    assert(0 <= i * stride <= workers * stride) by (nonlinear_arith)
        requires
            0 <= i <= workers,
            0 <= stride,
    ;
    assert((i + 1) * stride == i * stride + stride) by (nonlinear_arith);
}

/// The boundaries of a plan lie in order within the buffer, each at a place
/// to cut.
pub proof fn lemma_boundary(buf: Seq<u8>, workers: int, i: int)
    requires
        1 <= workers,
        0 <= i < workers,
    ensures
        0 <= boundary(buf, workers, i) <= boundary(buf, workers, i + 1) <= buf.len(),
        is_cut(buf, boundary(buf, workers, i)),
        is_cut(buf, boundary(buf, workers, i + 1)),
{
    let len = buf.len() as int;
    lemma_stride(len, workers, i);
    lemma_stride(len, workers, i + 1);
    let stride = len / workers;
    lemma_next_line_start(buf, i * stride);
    lemma_next_line_start(buf, (i + 1) * stride);
    lemma_next_line_start_monotone(buf, i * stride, (i + 1) * stride);
    assert(buf.subrange(0, 0) =~= Seq::<u8>::empty());
}

/// A plan is a partition: its ranges are disjoint, follow one another, cover
/// the buffer, and are cut at line boundaries.
pub proof fn lemma_plan_is_partition(ranges: Seq<ByteRange>, buf: Seq<u8>, workers: int)
    requires
        1 <= workers,
        is_plan(ranges, buf, workers),
    ensures
        is_partition(ranges, buf),
{
    assert forall|i: int| 0 <= i < ranges.len() implies (#[trigger] ranges[i]).start
        <= ranges[i].end && is_cut(buf, ranges[i].end as int) by {
        lemma_boundary(buf, workers, i);
    }
    assert forall|i: int| 0 <= i < ranges.len() - 1 implies (#[trigger] ranges[i]).end
        == ranges[i + 1].start by {
        assert(ranges[i + 1].start == boundary(buf, workers, i + 1));
    }
}

/// The ranges of a partition lie in order: a later range begins where an
/// earlier one has ended, or behind.
pub proof fn lemma_partition_in_order(buf: Seq<u8>, ranges: Seq<ByteRange>, i: int, j: int)
    requires
        is_partition(ranges, buf),
        0 <= i < j < ranges.len(),
    ensures
        ranges[i].end <= ranges[j].start,
    decreases j - i,
{
    if i + 1 < j {
        lemma_partition_in_order(buf, ranges, i, j - 1);
        assert(ranges[j - 1].start <= ranges[j - 1].end);
        assert(ranges[j - 1].end == ranges[j].start);
    } else {
        assert(ranges[i].end == ranges[i + 1].start);
    }
}

/// The ranges of a partition are pairwise disjoint and together cover the
/// buffer: every byte of the buffer lies in exactly one of them.
pub proof fn lemma_partition_covers(buf: Seq<u8>, ranges: Seq<ByteRange>, at: int)
    requires
        is_partition(ranges, buf),
        0 <= at < buf.len(),
    ensures
        exists|i: int| 0 <= i < ranges.len() && (#[trigger] ranges[i]).start <= at < ranges[i].end,
        forall|i: int, j: int|
            0 <= i < ranges.len() && 0 <= j < ranges.len() && (#[trigger] ranges[i]).start <= at
                < ranges[i].end && (#[trigger] ranges[j]).start <= at < ranges[j].end ==> i == j,
{
    lemma_partition_reaches(buf, ranges, at, ranges.len() - 1);
    assert forall|i: int, j: int|
        0 <= i < ranges.len() && 0 <= j < ranges.len() && (#[trigger] ranges[i]).start <= at
            < ranges[i].end && (#[trigger] ranges[j]).start <= at < ranges[j].end implies i
        == j by {
        if i < j {
            lemma_partition_in_order(buf, ranges, i, j);
        } else if j < i {
            lemma_partition_in_order(buf, ranges, j, i);
        }
    }
}

/// A byte before the end of range `n` of a partition lies in one of the
/// ranges up to `n`.
pub proof fn lemma_partition_reaches(buf: Seq<u8>, ranges: Seq<ByteRange>, at: int, n: int)
    requires
        is_partition(ranges, buf),
        0 <= n < ranges.len(),
        0 <= at < ranges[n].end,
    ensures
        exists|i: int| 0 <= i <= n && (#[trigger] ranges[i]).start <= at < ranges[i].end,
    decreases n,
{
    if ranges[n].start <= at {
    } else {
        assert(n > 0);
        assert(ranges[n - 1].end == ranges[n].start);
        lemma_partition_reaches(buf, ranges, at, n - 1);
    }
}

/// Scanning the first `n` ranges of a partition one by one reads the records
/// of the buffer up to the end of the last of them, and meets a key that is
/// not text exactly if the buffer has one up to there.
pub proof fn lemma_partition_prefix(buf: Seq<u8>, ranges: Seq<ByteRange>, n: int)
    requires
        is_partition(ranges, buf),
        1 <= n <= ranges.len(),
    ensures
        records_in(buf, ranges.take(n)) == readings(
            lines(buf.subrange(0, ranges[n - 1].end as int)),
        ),
        undecodable_in(buf, ranges.take(n)) <==> has_undecodable(
            lines(buf.subrange(0, ranges[n - 1].end as int)),
        ),
    decreases n,
{
    let these = ranges.take(n);
    let last = ranges[n - 1];
    let piece = buf.subrange(last.start as int, last.end as int);
    let before = buf.subrange(0, last.start as int);
    let upto = buf.subrange(0, last.end as int);
    assert(these.last() == last);
    assert(these.drop_last() =~= ranges.take(n - 1));
    assert(is_cut(buf, last.end as int));
    assert(upto =~= before + piece);
    if n == 1 {
        assert(before =~= Seq::<u8>::empty());
        assert(records_in(buf, these.drop_last()) =~= Seq::<Observation>::empty());
        assert(!undecodable_in(buf, ranges.take(0)));
    } else {
        lemma_partition_prefix(buf, ranges, n - 1);
        assert(ranges[n - 2].end == last.start);
        assert(is_cut(buf, ranges[n - 2].end as int));
    }
    assert(lines(upto) == lines(before) + lines(piece)) by {
        if aligned(before) {
            lemma_lines_concat(before, piece);
        } else {
            assert(piece =~= Seq::<u8>::empty());
            assert(upto =~= before);
            assert(lines(before) + lines(piece) =~= lines(before));
        }
    }
    lemma_readings_concat(lines(before), lines(piece));
    if undecodable_in(buf, these) {
        let i = choose|i: int|
            0 <= i < these.len() && has_undecodable(
                lines(buf.subrange((#[trigger] these[i]).start as int, these[i].end as int)),
            );
        if i < n - 1 {
            assert(ranges.take(n - 1)[i] == these[i]);
        }
    }
    if undecodable_in(buf, ranges.take(n - 1)) {
        let i = choose|i: int|
            0 <= i < n - 1 && has_undecodable(
                lines(
                    buf.subrange(
                        (#[trigger] ranges.take(n - 1)[i]).start as int,
                        ranges.take(n - 1)[i].end as int,
                    ),
                ),
            );
        assert(these[i] == ranges.take(n - 1)[i]);
    }
    if has_undecodable(lines(piece)) {
        assert(these[n - 1] == last);
    }
}

/// Scanning the ranges of a partition one by one reads exactly the records
/// of the whole buffer, in the same order, and so as many; and it meets a key
/// that is not text exactly if the buffer has one.
pub proof fn lemma_partition_complete(buf: Seq<u8>, ranges: Seq<ByteRange>)
    requires
        is_partition(ranges, buf),
    ensures
        records_in(buf, ranges) == readings(lines(buf)),
        records_in(buf, ranges).len() == readings(lines(buf)).len(),
        undecodable_in(buf, ranges) <==> has_undecodable(lines(buf)),
{
    lemma_partition_prefix(buf, ranges, ranges.len() as int);
    assert(ranges.take(ranges.len() as int) =~= ranges);
    assert(buf.subrange(0, buf.len() as int) =~= buf);
}

/// The start of the line that follows the first terminator at or after
/// `from`, or the end of the buffer if there is none.
pub fn advance(buf: &[u8], from: usize) -> (at: usize)
    requires
        from <= buf@.len(),
    ensures
        at == next_line_start(buf@, from as int),
        from <= at <= buf@.len(),
{
    let n = buf.len();
    let found = find_byte(buf, from, n, NEWLINE);
    proof {
        lemma_next_line_start_found(buf@, from as int, found as int);
    }
    if found < n {
        found + 1
    } else {
        n
    }
}

/// Cuts `buf` into one range per worker. The ranges follow one another from
/// the first byte to the last; each but the first begins just behind the
/// first terminator at or after a whole number of strides of
/// `buf.len() / workers` bytes, so that no record lies in two ranges. Ranges
/// may be empty.
pub fn plan_ranges(buf: &[u8], workers: usize) -> (ranges: Vec<ByteRange>)
    requires
        workers >= 1,
    ensures
        is_plan(ranges@, buf@, workers as int),
        is_partition(ranges@, buf@),
{
    let len = buf.len();
    let stride = len / workers;
    let mut ranges: Vec<ByteRange> = Vec::new();
    let mut start: usize = 0;
    let mut i: usize = 0;
    while i < workers
        invariant
            1 <= workers,
            0 <= i <= workers,
            len == buf@.len(),
            stride == len / workers,
            ranges@.len() == i,
            start == boundary(buf@, workers as int, i as int),
            start <= len,
            forall|j: int|
                0 <= j < i ==> (#[trigger] ranges@[j]).start == boundary(buf@, workers as int, j)
                    && ranges@[j].end == boundary(buf@, workers as int, j + 1),
        decreases workers - i,
    {
        proof {
            lemma_stride(len as int, workers as int, i as int + 1);
            lemma_boundary(buf@, workers as int, i as int);
        }
        let end = if i == workers - 1 {
            len
        } else {
            advance(buf, (i + 1) * stride)
        };
        ranges.push(ByteRange { start, end });
        start = end;
        i = i + 1;
    }
    proof {
        lemma_plan_is_partition(ranges@, buf@, workers as int);
    }
    ranges
}

} // verus!
