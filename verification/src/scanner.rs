//! Finding bytes and reading single lines.

use crate::fixed_point::{is_supported, parse_temperature};
use crate::records::{
    has_separator, is_separator_at, key_of, lemma_lines_first, lemma_lines_of_fragment,
    lemma_separator_unique, lines, reading, token_of, Observation, Reading, NEWLINE, SEMICOLON,
};
use vstd::prelude::*;
use vstd::slice::slice_subrange;
use vstd::utf8::valid_utf8;

verus! {

/// Why a scan fails.
#[derive(Clone, Copy, Debug, PartialEq, Eq, Structural)]
pub enum ScanError {
    /// A line has a separator, and the bytes before it are not text.
    UndecodableKey,
}

/// What a line was read as: the executable counterpart of [`Reading`].
#[derive(Clone, Copy, Debug)]
pub enum Line<'a> {
    /// A key that is text and a value, scaled by ten.
    Record { key: &'a [u8], value: i32 },
    /// The line has no separator.
    NoSeparator,
    /// The bytes before the separator are not text.
    UndecodableKey,
    /// The bytes behind the separator are no supported value.
    UnreadableValue,
}

impl<'a> View for Line<'a> {
    type V = Reading;

    open spec fn view(&self) -> Reading {
        match *self {
            Line::Record { key, value } => Reading::Record(
                Observation { key: key@, value: value as int },
            ),
            Line::NoSeparator => Reading::NoSeparator,
            Line::UndecodableKey => Reading::UndecodableKey,
            Line::UnreadableValue => Reading::UnreadableValue,
        }
    }
}

/// The first index in `from..to` at which `buf` holds `byte`, or `to` if it
/// holds none there.
pub fn find_byte(buf: &[u8], from: usize, to: usize, byte: u8) -> (at: usize)
    requires
        from <= to <= buf@.len(),
    ensures
        from <= at <= to,
        at < to ==> buf@[at as int] == byte,
        forall|j: int| from <= j < at ==> buf@[j] != byte,
{
    let mut i = from;
    while i < to && buf[i] != byte
        invariant
            from <= i <= to <= buf@.len(),
            forall|j: int| from <= j < i ==> buf@[j] != byte,
        decreases to - i,
    {
        i = i + 1;
    }
    i
}

/// The first line of the bytes `from..end` of `buf`: where its terminator
/// is, if there is one before `end`. The lines of those bytes are then that
/// line, followed by the lines behind its terminator; without a terminator
/// they hold no line.
pub fn next_line(buf: &[u8], from: usize, end: usize) -> (found: Option<usize>)
    requires
        from <= end <= buf@.len(),
    ensures
        match found {
            Some(at) => {
                &&& from <= at < end
                &&& buf@[at as int] == NEWLINE
                &&& lines(buf@.subrange(from as int, end as int)) == seq![
                    buf@.subrange(from as int, at as int),
                ] + lines(buf@.subrange(at + 1, end as int))
            },
            None => lines(buf@.subrange(from as int, end as int)) == Seq::<Seq<u8>>::empty(),
        },
{
    let at = find_byte(buf, from, end, NEWLINE);
    let ghost range = buf@.subrange(from as int, end as int);
    if at < end {
        proof {
            lemma_lines_first(range, at - from);
            assert(range.subrange(0, at - from) =~= buf@.subrange(from as int, at as int));
            assert(range.subrange(at - from + 1, range.len() as int) =~= buf@.subrange(
                at + 1,
                end as int,
            ));
        }
        Some(at)
    } else {
        proof {
            lemma_lines_of_fragment(range);
        }
        None
    }
}

/// `std::str::from_utf8`, asked only whether it succeeds: it does exactly on
/// the byte sequences that are valid UTF-8.
#[verifier::external_body]
fn is_text(bytes: &[u8]) -> (valid: bool)
    ensures
        valid == valid_utf8(bytes@),
{
    std::str::from_utf8(bytes).is_ok()
}

/// Reads one line, given without its terminator: splits it at the first
/// separator, checks that the key is text, and reads the value.
pub fn read_line<'a>(line: &'a [u8]) -> (read: Line<'a>)
    ensures
        read@ == reading(line@),
{
    let n = line.len();
    let p = find_byte(line, 0, n, SEMICOLON);
    if p == n {
        assert(!has_separator(line@)) by {
            if has_separator(line@) {
                let q = choose|q: int| is_separator_at(line@, q);
                assert(line@[q] == SEMICOLON);
            }
        }
        return Line::NoSeparator;
    }
    proof {
        lemma_separator_unique(line@, p as int);
    }
    let key = slice_subrange(line, 0, p);
    let token = slice_subrange(line, p + 1, n);
    assert(key@ == key_of(line@));
    assert(token@ == token_of(line@));
    if !is_text(key) {
        Line::UndecodableKey
    } else if !is_supported(token) {
        Line::UnreadableValue
    } else {
        Line::Record { key, value: parse_temperature(token) }
    }
}

} // verus!
