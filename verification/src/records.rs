//! What a buffer of lines means: its terminated lines, the record that each
//! line holds, and the summary per key of a sequence of records.

use crate::fixed_point::{is_supported_token, token_value};
use crate::statistic::{lemma_summary_concat, lemma_summary_valid, Summary, MAX_COUNT};
use crate::table::{lookup, merged, noted, valid_mapping};
use vstd::prelude::*;
use vstd::utf8::valid_utf8;

verus! {

/// The byte that ends a record.
pub const NEWLINE: u8 = 10;

/// The byte between key and value.
pub const SEMICOLON: u8 = 59;

/// The bytes behind the last terminator of `s`: the line that is not ended
/// yet.
pub open spec fn pending(s: Seq<u8>) -> Seq<u8>
    decreases s.len(),
{
    if s.len() == 0 {
        Seq::empty()
    } else if s.last() == NEWLINE {
        Seq::empty()
    } else {
        pending(s.drop_last()).push(s.last())
    }
}

/// The terminated lines of `s`, in order and without their terminators. What
/// follows the last terminator is no line.
pub open spec fn lines(s: Seq<u8>) -> Seq<Seq<u8>>
    decreases s.len(),
{
    if s.len() == 0 {
        Seq::empty()
    } else if s.last() == NEWLINE {
        lines(s.drop_last()).push(pending(s.drop_last()))
    } else {
        lines(s.drop_last())
    }
}

/// Whether `s` stops at a line boundary: it is empty or ends with a
/// terminator.
pub open spec fn aligned(s: Seq<u8>) -> bool {
    s.len() == 0 || s.last() == NEWLINE
}

/// Whether the first separator of `line` is at index `p`.
pub open spec fn is_separator_at(line: Seq<u8>, p: int) -> bool {
    &&& 0 <= p < line.len()
    &&& line[p] == SEMICOLON
    &&& forall|j: int| 0 <= j < p ==> line[j] != SEMICOLON
}

/// Whether `line` holds a separator.
pub open spec fn has_separator(line: Seq<u8>) -> bool {
    exists|p: int| is_separator_at(line, p)
}

/// The index of the first separator of a line that has one.
pub open spec fn separator_of(line: Seq<u8>) -> int {
    choose|p: int| is_separator_at(line, p)
}

/// The bytes before the first separator.
pub open spec fn key_of(line: Seq<u8>) -> Seq<u8> {
    line.subrange(0, separator_of(line))
}

/// The bytes behind the first separator.
pub open spec fn token_of(line: Seq<u8>) -> Seq<u8> {
    line.subrange(separator_of(line) + 1, line.len() as int)
}

/// One well-formed record: a key and a value scaled by ten.
pub struct Observation {
    pub key: Seq<u8>,
    pub value: int,
}

/// What a line is read as.
pub enum Reading {
    /// A key that is text, a separator and a value of the supported grammar.
    Record(Observation),
    /// No separator: the line is skipped.
    NoSeparator,
    /// The bytes before the separator are not text: the scan fails.
    UndecodableKey,
    /// The bytes behind the separator are no supported value: the line is
    /// skipped.
    UnreadableValue,
}

/// What `line` is read as. The key is looked at before the value.
pub open spec fn reading(line: Seq<u8>) -> Reading {
    if !has_separator(line) {
        Reading::NoSeparator
    } else if !valid_utf8(key_of(line)) {
        Reading::UndecodableKey
    } else if !is_supported_token(token_of(line)) {
        Reading::UnreadableValue
    } else {
        Reading::Record(Observation { key: key_of(line), value: token_value(token_of(line)) })
    }
}

/// The records of `lines`, in order: every line that reads as one.
pub open spec fn readings(lines: Seq<Seq<u8>>) -> Seq<Observation>
    decreases lines.len(),
{
    if lines.len() == 0 {
        Seq::empty()
    } else {
        match reading(lines.last()) {
            Reading::Record(o) => readings(lines.drop_last()).push(o),
            _ => readings(lines.drop_last()),
        }
    }
}

/// Whether some line of `lines` has a key that is not text.
pub open spec fn has_undecodable(lines: Seq<Seq<u8>>) -> bool {
    exists|i: int| 0 <= i < lines.len() && reading(#[trigger] lines[i]) is UndecodableKey
}

/// Whether every value of `records` is at most `i32::MAX` in magnitude.
pub open spec fn in_range(records: Seq<Observation>) -> bool {
    forall|i: int|
        0 <= i < records.len() ==> -i32::MAX <= (#[trigger] records[i]).value <= i32::MAX
}

/// The values that `records` has for `key`, in order.
pub open spec fn values_of(records: Seq<Observation>, key: Seq<u8>) -> Seq<int>
    decreases records.len(),
{
    if records.len() == 0 {
        Seq::empty()
    } else if records.last().key == key {
        values_of(records.drop_last(), key).push(records.last().value)
    } else {
        values_of(records.drop_last(), key)
    }
}

/// The result of aggregating `records`: every key that occurs, with the
/// summary of its values.
pub open spec fn tally(records: Seq<Observation>) -> Map<Seq<u8>, Summary> {
    Map::new(
        |k: Seq<u8>| values_of(records, k).len() > 0,
        |k: Seq<u8>| Summary::of(values_of(records, k)),
    )
}

/// The result of scanning the bytes `s`: the tally of the records of its
/// lines.
pub open spec fn scan(s: Seq<u8>) -> Map<Seq<u8>, Summary> {
    tally(readings(lines(s)))
}

/// No line holds a terminator, and neither does what follows the last line.
pub proof fn lemma_lines_hold_no_terminator(s: Seq<u8>)
    ensures
        !pending(s).contains(NEWLINE),
        forall|i: int| 0 <= i < lines(s).len() ==> !(#[trigger] lines(s)[i]).contains(NEWLINE),
    decreases s.len(),
{
    if s.len() > 0 {
        lemma_lines_hold_no_terminator(s.drop_last());
        let front = pending(s.drop_last());
        if s.last() != NEWLINE {
            let now = pending(s);
            assert forall|j: int| 0 <= j < now.len() implies now[j] != NEWLINE by {
                if j < front.len() {
                    assert(front.contains(now[j]));
                }
            }
        } else {
            assert forall|i: int| 0 <= i < lines(s).len() implies !(#[trigger] lines(s)[
                i
            ]).contains(NEWLINE) by {
                if i < lines(s).len() - 1 {
                    assert(lines(s)[i] == lines(s.drop_last())[i]);
                }
            }
        }
    }
}

/// The key of a record is text and holds no separator, and its value is at
/// most `i32::MAX` in magnitude.
pub proof fn lemma_record_is_well_formed(line: Seq<u8>)
    requires
        reading(line) is Record,
    ensures
        valid_utf8(reading(line)->Record_0.key),
        !reading(line)->Record_0.key.contains(SEMICOLON),
        -i32::MAX <= reading(line)->Record_0.value <= i32::MAX,
{
    let p = separator_of(line);
    assert(is_separator_at(line, p));
    let key = key_of(line);
    assert forall|j: int| 0 <= j < key.len() implies key[j] != SEMICOLON by {
        assert(key[j] == line[j]);
    }
}

/// Bytes without a terminator hold no line: all of them are still pending.
pub proof fn lemma_lines_of_fragment(s: Seq<u8>)
    requires
        !s.contains(NEWLINE),
    ensures
        lines(s) == Seq::<Seq<u8>>::empty(),
        pending(s) == s,
    decreases s.len(),
{
    if s.len() > 0 {
        assert(s[s.len() - 1] != NEWLINE);
        let front = s.drop_last();
        assert forall|j: int| 0 <= j < front.len() implies front[j] != NEWLINE by {
            assert(front[j] == s[j]);
        }
        lemma_lines_of_fragment(front);
        assert(front.push(s.last()) =~= s);
    } else {
        assert(pending(s) =~= s);
    }
}

/// The lines of a buffer whose first terminator is at `at` are the bytes
/// before it, followed by the lines of what comes behind it.
pub proof fn lemma_lines_first(s: Seq<u8>, at: int)
    requires
        0 <= at < s.len(),
        s[at] == NEWLINE,
        forall|j: int| 0 <= j < at ==> s[j] != NEWLINE,
    ensures
        lines(s) == seq![s.subrange(0, at)] + lines(s.subrange(at + 1, s.len() as int)),
{
    let first = s.subrange(0, at);
    let head = s.subrange(0, at + 1);
    let rest = s.subrange(at + 1, s.len() as int);
    assert(s =~= head + rest);
    assert(head.drop_last() =~= first);
    lemma_lines_of_fragment(first);
    assert(lines(head) =~= seq![first]);
    lemma_lines_concat(head, rest);
}

/// Every key of a tally is the key of one of the records.
pub proof fn lemma_tally_key_occurs(records: Seq<Observation>, key: Seq<u8>)
    requires
        tally(records).contains_key(key),
    ensures
        exists|i: int| 0 <= i < records.len() && (#[trigger] records[i]).key == key,
    decreases records.len(),
{
    if records.len() > 0 {
        if records.last().key == key {
            assert(records[records.len() - 1].key == key);
        } else {
            lemma_tally_key_occurs(records.drop_last(), key);
            let i = choose|i: int|
                0 <= i < records.drop_last().len() && (#[trigger] records.drop_last()[i]).key
                    == key;
            assert(records[i].key == key);
        }
    }
}

/// Every record that is read is what one of the lines reads as.
pub proof fn lemma_reading_has_line(lines: Seq<Seq<u8>>, i: int)
    requires
        0 <= i < readings(lines).len(),
    ensures
        exists|j: int|
            0 <= j < lines.len() && reading(#[trigger] lines[j]) == Reading::Record(
                readings(lines)[i],
            ),
    decreases lines.len(),
{
    let front = lines.drop_last();
    if reading(lines.last()) is Record && i == readings(lines).len() - 1 {
        assert(reading(lines[lines.len() - 1]) == Reading::Record(readings(lines)[i]));
    } else {
        assert(readings(lines)[i] == readings(front)[i]);
        lemma_reading_has_line(front, i);
        let j = choose|j: int|
            0 <= j < front.len() && reading(#[trigger] front[j]) == Reading::Record(
                readings(front)[i],
            );
        assert(lines[j] == front[j]);
    }
}

/// Every key of the result of a scan is text and holds neither a separator
/// nor a terminator.
pub proof fn lemma_scan_keys(s: Seq<u8>, key: Seq<u8>)
    requires
        scan(s).contains_key(key),
    ensures
        valid_utf8(key),
        !key.contains(SEMICOLON),
        !key.contains(NEWLINE),
{
    let records = readings(lines(s));
    lemma_tally_key_occurs(records, key);
    let i = choose|i: int| 0 <= i < records.len() && (#[trigger] records[i]).key == key;
    lemma_reading_has_line(lines(s), i);
    let j = choose|j: int|
        0 <= j < lines(s).len() && reading(#[trigger] lines(s)[j]) == Reading::Record(records[i]);
    let line = lines(s)[j];
    lemma_record_is_well_formed(line);
    lemma_lines_hold_no_terminator(s);
    assert forall|a: int| 0 <= a < key.len() implies key[a] != NEWLINE by {
        assert(key[a] == line[a]);
        assert(line.contains(line[a]));
    }
}

/// A separator is found at one index only.
pub proof fn lemma_separator_unique(line: Seq<u8>, p: int)
    requires
        is_separator_at(line, p),
    ensures
        has_separator(line),
        separator_of(line) == p,
{
    let q = separator_of(line);
    assert(is_separator_at(line, q));
    if q < p {
        assert(line[q] != SEMICOLON);
    }
    if p < q {
        assert(line[p] != SEMICOLON);
    }
}

/// The lines of two pieces are the lines of the first followed by those of
/// the second, provided the first piece stops at a line boundary.
pub proof fn lemma_lines_concat(a: Seq<u8>, b: Seq<u8>)
    requires
        aligned(a),
    ensures
        lines(a + b) == lines(a) + lines(b),
        pending(a + b) == pending(b),
    decreases b.len(),
{
    if b.len() == 0 {
        assert(a + b =~= a);
        assert(lines(a) + lines(b) =~= lines(a));
        if a.len() > 0 {
            assert(pending(a) =~= Seq::<u8>::empty());
        }
    } else {
        lemma_lines_concat(a, b.drop_last());
        assert((a + b).drop_last() =~= a + b.drop_last());
        assert((a + b).last() == b.last());
        if b.last() == NEWLINE {
            assert(lines(a + b) =~= lines(a) + lines(b));
        }
    }
}

/// The records of two runs of lines are those of the first followed by those
/// of the second, and a key that is not text is in the whole exactly if it is
/// in a part.
pub proof fn lemma_readings_concat(x: Seq<Seq<u8>>, y: Seq<Seq<u8>>)
    ensures
        readings(x + y) == readings(x) + readings(y),
        has_undecodable(x + y) <==> has_undecodable(x) || has_undecodable(y),
    decreases y.len(),
{
    if y.len() == 0 {
        assert(x + y =~= x);
        assert(readings(x) + readings(y) =~= readings(x));
    } else {
        lemma_readings_concat(x, y.drop_last());
        assert((x + y).drop_last() =~= x + y.drop_last());
        assert((x + y).last() == y.last());
        assert(readings(x + y) =~= readings(x) + readings(y));
    }
    if has_undecodable(x) {
        let i = choose|i: int| 0 <= i < x.len() && reading(#[trigger] x[i]) is UndecodableKey;
        assert((x + y)[i] == x[i]);
    }
    if has_undecodable(y) {
        let i = choose|i: int| 0 <= i < y.len() && reading(#[trigger] y[i]) is UndecodableKey;
        assert((x + y)[x.len() + i] == y[i]);
    }
    if has_undecodable(x + y) {
        let i = choose|i: int|
            0 <= i < (x + y).len() && reading(#[trigger] (x + y)[i]) is UndecodableKey;
        if i < x.len() {
            assert((x + y)[i] == x[i]);
        } else {
            assert((x + y)[i] == y[i - x.len()]);
        }
    }
}

/// Every record that is read has a value in range.
pub proof fn lemma_readings_in_range(lines: Seq<Seq<u8>>)
    ensures
        in_range(readings(lines)),
        readings(lines).len() <= lines.len(),
    decreases lines.len(),
{
    if lines.len() > 0 {
        lemma_readings_in_range(lines.drop_last());
    }
}

/// The values of a key in range are 32-bit values, and no more than there are
/// records.
pub proof fn lemma_values_in_range(records: Seq<Observation>, key: Seq<u8>)
    requires
        in_range(records),
    ensures
        crate::statistic::all_i32(values_of(records, key)),
        values_of(records, key).len() <= records.len(),
    decreases records.len(),
{
    if records.len() > 0 {
        let front = records.drop_last();
        assert forall|i: int| 0 <= i < front.len() implies -i32::MAX <= (
        #[trigger] front[i]).value <= i32::MAX by {
            assert(front[i] == records[i]);
        }
        lemma_values_in_range(front, key);
        assert(-i32::MAX <= records[records.len() - 1].value <= i32::MAX);
    }
}

/// The values of a key in two runs of records are those in the first
/// followed by those in the second.
pub proof fn lemma_values_concat(a: Seq<Observation>, b: Seq<Observation>, key: Seq<u8>)
    ensures
        values_of(a + b, key) == values_of(a, key) + values_of(b, key),
    decreases b.len(),
{
    if b.len() == 0 {
        assert(a + b =~= a);
        assert(values_of(a, key) + values_of(b, key) =~= values_of(a, key));
    } else {
        lemma_values_concat(a, b.drop_last(), key);
        assert((a + b).drop_last() =~= a + b.drop_last());
        assert((a + b).last() == b.last());
        assert(values_of(a + b, key) =~= values_of(a, key) + values_of(b, key));
    }
}

/// A run of records in range is still in range with one more such record, and
/// so are two such runs joined.
pub proof fn lemma_in_range_concat(a: Seq<Observation>, b: Seq<Observation>)
    requires
        in_range(a),
        in_range(b),
    ensures
        in_range(a + b),
{
    assert forall|i: int| 0 <= i < (a + b).len() implies -i32::MAX <= (#[trigger] (a + b)[
        i
    ]).value <= i32::MAX by {
        if i < a.len() {
            assert((a + b)[i] == a[i]);
        } else {
            assert((a + b)[i] == b[i - a.len()]);
        }
    }
}

/// The tally of at most [`MAX_COUNT`] records in range is a valid mapping, and
/// no key has more values than there are records.
pub proof fn lemma_tally_valid(records: Seq<Observation>)
    requires
        in_range(records),
        records.len() <= MAX_COUNT,
    ensures
        valid_mapping(tally(records)),
        forall|k: Seq<u8>| (#[trigger] lookup(tally(records), k)).count <= records.len(),
{
    assert forall|k: Seq<u8>| (#[trigger] lookup(tally(records), k)).count
        <= records.len() by {
        lemma_values_in_range(records, k);
        lemma_summary_valid(values_of(records, k));
    }
    assert forall|k: Seq<u8>| #[trigger] tally(records).contains_key(k) implies tally(
        records,
    )[k].valid() && 0 < tally(records)[k].count <= MAX_COUNT by {
        lemma_values_in_range(records, k);
        lemma_summary_valid(values_of(records, k));
    }
}

/// Taking one more record into a tally is noting its value for its key.
pub proof fn lemma_tally_push(records: Seq<Observation>, o: Observation)
    ensures
        tally(records.push(o)) == noted(tally(records), o.key, o.value),
        lookup(tally(records), o.key) == Summary::of(values_of(records, o.key)),
{
    let more = records.push(o);
    assert(more.drop_last() =~= records);
    assert(more.last() == o);
    let seen = values_of(records, o.key);
    let grown = seen.push(o.value);
    assert(values_of(more, o.key) == grown);
    assert(grown.drop_last() =~= seen);
    assert(Summary::of(grown) == Summary::of(seen).observe(o.value));
    assert forall|k: Seq<u8>| k != o.key implies values_of(more, k) == values_of(records, k) by {}
    assert(tally(more) =~= noted(tally(records), o.key, o.value));
}

/// Aggregating a run of records in two parts and merging the two results
/// gives the result of aggregating the whole.
pub proof fn lemma_tally_concat(a: Seq<Observation>, b: Seq<Observation>)
    requires
        in_range(a),
        in_range(b),
    ensures
        tally(a + b) == merged(tally(a), tally(b)),
{
    assert forall|k: Seq<u8>|
        values_of(a + b, k) == values_of(a, k) + values_of(b, k) && Summary::of(
            #[trigger] values_of(a + b, k),
        ) == lookup(tally(a), k).combine(lookup(tally(b), k)) by {
        lemma_values_concat(a, b, k);
        lemma_values_in_range(a, k);
        lemma_values_in_range(b, k);
        lemma_summary_concat(values_of(a, k), values_of(b, k));
    }
    assert(tally(a + b) =~= merged(tally(a), tally(b)));
}

/// The longest run of bytes that one scan takes: five bytes for each of
/// [`MAX_COUNT`] records, the shortest record being an empty key, a
/// separator, a value of three bytes and a terminator.
pub const MAX_SCAN_LEN: u64 = 21_474_836_475;

/// The bytes that `lines` take up in a buffer, terminators included.
pub open spec fn span(lines: Seq<Seq<u8>>) -> int
    decreases lines.len(),
{
    if lines.len() == 0 {
        0
    } else {
        span(lines.drop_last()) + lines.last().len() + 1
    }
}

/// The lines of a buffer and what follows them make up the buffer.
pub proof fn lemma_span(s: Seq<u8>)
    ensures
        span(lines(s)) + pending(s).len() == s.len(),
    decreases s.len(),
{
    if s.len() > 0 {
        lemma_span(s.drop_last());
        if s.last() == NEWLINE {
            let ls = lines(s);
            assert(ls.drop_last() =~= lines(s.drop_last()));
            assert(ls.last() == pending(s.drop_last()));
        }
    }
}

/// A line that reads as a record has at least four bytes.
pub proof fn lemma_record_length(line: Seq<u8>)
    requires
        reading(line) is Record,
    ensures
        line.len() >= 4,
{
    let p = separator_of(line);
    assert(is_separator_at(line, p));
    assert(token_of(line).len() >= 3) by {
        let t = token_of(line);
        if t.len() > 0 && t[0] == crate::fixed_point::MINUS {
            assert(t.subrange(1, t.len() as int).len() >= 3);
        }
    }
}

/// Every record takes at least five bytes of the lines it is read from.
pub proof fn lemma_readings_span(lines: Seq<Seq<u8>>)
    ensures
        readings(lines).len() * 5 <= span(lines),
    decreases lines.len(),
{
    if lines.len() > 0 {
        lemma_readings_span(lines.drop_last());
        if reading(lines.last()) is Record {
            lemma_record_length(lines.last());
        }
    }
}

/// A buffer of at most [`MAX_SCAN_LEN`] bytes has at most [`MAX_COUNT`]
/// records, all in range, and so a valid tally.
pub proof fn lemma_scan_valid(s: Seq<u8>)
    requires
        s.len() <= MAX_SCAN_LEN,
    ensures
        readings(lines(s)).len() * 5 <= s.len(),
        readings(lines(s)).len() <= MAX_COUNT,
        in_range(readings(lines(s))),
        valid_mapping(scan(s)),
{
    lemma_span(s);
    lemma_readings_span(lines(s));
    lemma_readings_in_range(lines(s));
    lemma_tally_valid(readings(lines(s)));
}

} // verus!
