//! The result as text: one line per key, in the order of the keys.

use crate::fixed_point::{
    decimal_digits, is_digit, lemma_decimal_digits, push_tenths, tenths_text,
};
use crate::order::{ascending, key_before, lemma_key_order_asymmetric, sorted_entries};
use crate::records::SEMICOLON;
use crate::statistic::{rounded_mean, Statistic, Summary};
use crate::table::{lists, Table};
use vstd::prelude::*;
use vstd::utf8::{pop_first_scalar, valid_utf8, valid_utf8_concat};

verus! {

/// The byte `/`.
pub const SLASH: u8 = 47;

/// What follows the key in its line: a separator, and the minimum, the
/// rounded mean and the maximum of its values, each with one fractional digit
/// and with `/` between them.
pub open spec fn figures_text(s: Summary) -> Seq<u8> {
    seq![SEMICOLON] + tenths_text(s.min) + seq![SLASH] + tenths_text(
        rounded_mean(s.sum, s.count as int),
    ) + seq![SLASH] + tenths_text(s.max)
}

/// The line of one key: the key and its figures.
pub open spec fn line_text(key: Seq<u8>, s: Summary) -> Seq<u8> {
    key + figures_text(s)
}

/// Whether `keys` are the keys of `m`, each once, strictly ascending.
pub open spec fn is_key_order(keys: Seq<Seq<u8>>, m: Map<Seq<u8>, Summary>) -> bool {
    &&& forall|i: int| 0 <= i < keys.len() ==> m.contains_key(#[trigger] keys[i])
    &&& forall|k: Seq<u8>| #[trigger]
        m.contains_key(k) ==> exists|i: int| 0 <= i < keys.len() && #[trigger] keys[i] == k
    &&& forall|i: int, j: int|
        0 <= i < j < keys.len() ==> key_before(#[trigger] keys[i], #[trigger] keys[j])
}

/// Whether `out` is the report of `m`: the lines of its keys, in the order of
/// the keys.
pub open spec fn is_report(out: Seq<Seq<u8>>, m: Map<Seq<u8>, Summary>) -> bool {
    exists|keys: Seq<Seq<u8>>|
        {
            &&& #[trigger] is_key_order(keys, m)
            &&& out.len() == keys.len()
            &&& forall|i: int|
                0 <= i < keys.len() ==> #[trigger] out[i] == line_text(keys[i], m[keys[i]])
        }
}

/// The bytes of each line.
pub open spec fn texts(lines: Seq<Vec<u8>>) -> Seq<Seq<u8>> {
    Seq::new(lines.len(), |i: int| lines[i]@)
}

/// A mapping has one key order only.
pub proof fn lemma_key_order_unique(a: Seq<Seq<u8>>, b: Seq<Seq<u8>>, m: Map<Seq<u8>, Summary>)
    requires
        is_key_order(a, m),
        is_key_order(b, m),
    ensures
        a == b,
    decreases a.len(),
{
    if a.len() == 0 {
        if b.len() > 0 {
            assert(m.contains_key(b[0]));
        }
        assert(a =~= b);
    } else if b.len() == 0 {
        assert(m.contains_key(a[0]));
    } else {
        // The last key of each is the greatest key of the mapping.
        let x = a.last();
        let y = b.last();
        assert(m.contains_key(x));
        assert(m.contains_key(y));
        let i = choose|i: int| 0 <= i < b.len() && #[trigger] b[i] == x;
        let j = choose|j: int| 0 <= j < a.len() && #[trigger] a[j] == y;
        lemma_key_order_asymmetric(x, y);
        assert(x == y) by {
            if i < b.len() - 1 {
                assert(key_before(b[i], b[b.len() - 1]));
            }
            if j < a.len() - 1 {
                assert(key_before(a[j], a[a.len() - 1]));
            }
        }
        let rest = m.remove(x);
        let a0 = a.drop_last();
        let b0 = b.drop_last();
        lemma_key_order_without_last(a, m);
        lemma_key_order_without_last(b, m);
        lemma_key_order_unique(a0, b0, rest);
        assert(a =~= a0.push(x));
        assert(b =~= b0.push(y));
    }
}

/// Without its last key, a key order is the key order of the mapping without
/// that key.
pub proof fn lemma_key_order_without_last(keys: Seq<Seq<u8>>, m: Map<Seq<u8>, Summary>)
    requires
        is_key_order(keys, m),
        keys.len() > 0,
    ensures
        is_key_order(keys.drop_last(), m.remove(keys.last())),
{
    let x = keys.last();
    let front = keys.drop_last();
    let rest = m.remove(x);
    assert forall|i: int| 0 <= i < front.len() implies rest.contains_key(#[trigger] front[i]) by {
        assert(m.contains_key(keys[i]));
        assert(key_before(keys[i], keys[keys.len() - 1]));
        lemma_key_order_asymmetric(keys[i], x);
    }
    assert forall|k: Seq<u8>| #[trigger] rest.contains_key(k) implies exists|i: int|
        0 <= i < front.len() && #[trigger] front[i] == k by {
        assert(m.contains_key(k));
        let i = choose|i: int| 0 <= i < keys.len() && #[trigger] keys[i] == k;
        assert(front[i] == k);
    }
    assert forall|i: int, j: int| 0 <= i < j < front.len() implies key_before(
        #[trigger] front[i],
        #[trigger] front[j],
    ) by {
        assert(key_before(keys[i], keys[j]));
    }
}

/// A mapping has one report only: whoever renders it, and however often, the
/// same bytes come out.
pub proof fn lemma_report_unique(a: Seq<Seq<u8>>, b: Seq<Seq<u8>>, m: Map<Seq<u8>, Summary>)
    requires
        is_report(a, m),
        is_report(b, m),
    ensures
        a == b,
{
    let ka = choose|keys: Seq<Seq<u8>>|
        {
            &&& #[trigger] is_key_order(keys, m)
            &&& a.len() == keys.len()
            &&& forall|i: int|
                0 <= i < keys.len() ==> #[trigger] a[i] == line_text(keys[i], m[keys[i]])
        };
    let kb = choose|keys: Seq<Seq<u8>>|
        {
            &&& #[trigger] is_key_order(keys, m)
            &&& b.len() == keys.len()
            &&& forall|i: int|
                0 <= i < keys.len() ==> #[trigger] b[i] == line_text(keys[i], m[keys[i]])
        };
    lemma_key_order_unique(ka, kb, m);
    assert(a =~= b);
}

/// Whether every byte of `s` is below 128.
pub open spec fn is_ascii(s: Seq<u8>) -> bool {
    forall|i: int| 0 <= i < s.len() ==> #[trigger] s[i] <= 0x7f
}

/// Bytes below 128 are text.
pub proof fn lemma_ascii_is_text(s: Seq<u8>)
    requires
        is_ascii(s),
    ensures
        valid_utf8(s),
    decreases s.len(),
{
    if s.len() > 0 {
        let b = s[0];
        assert(b & 0x7f <= 0x7f) by (bit_vector);
        let rest = pop_first_scalar(s);
        assert(rest =~= s.subrange(1, s.len() as int));
        assert forall|i: int| 0 <= i < rest.len() implies #[trigger] rest[i] <= 0x7f by {
            assert(rest[i] == s[i + 1]);
        }
        lemma_ascii_is_text(rest);
    }
}

/// The text of a scaled value holds bytes below 128 only.
pub proof fn lemma_tenths_text_is_ascii(v: int)
    ensures
        is_ascii(tenths_text(v)),
{
    let m = if v < 0 { -v } else { v };
    let whole = decimal_digits((m / 10) as nat);
    lemma_decimal_digits((m / 10) as nat);
    let text = tenths_text(v);
    assert forall|i: int| 0 <= i < text.len() implies #[trigger] text[i] <= 0x7f by {
        let j = if v < 0 { i - 1 } else { i };
        if 0 <= j < whole.len() {
            assert(is_digit(whole[j]));
        }
    }
}

/// The line of a key that is text is text.
pub proof fn lemma_line_is_text(key: Seq<u8>, s: Summary)
    requires
        valid_utf8(key),
    ensures
        valid_utf8(line_text(key, s)),
{
    let figures = figures_text(s);
    lemma_tenths_text_is_ascii(s.min);
    lemma_tenths_text_is_ascii(rounded_mean(s.sum, s.count as int));
    lemma_tenths_text_is_ascii(s.max);
    lemma_ascii_is_text(figures);
    valid_utf8_concat(key, figures);
}

/// Renders the line of one key.
pub fn render_line(key: &[u8], stat: &Statistic) -> (line: Vec<u8>)
    requires
        stat.wf(),
        stat@.count > 0,
    ensures
        line@ == line_text(key@, stat@),
        valid_utf8(key@) ==> valid_utf8(line@),
{
    proof {
        if valid_utf8(key@) {
            lemma_line_is_text(key@, stat@);
        }
    }
    let mut line = vstd::slice::slice_to_vec(key);
    line.push(SEMICOLON);
    push_tenths(&mut line, stat.min());
    line.push(SLASH);
    push_tenths(&mut line, stat.mean());
    line.push(SLASH);
    push_tenths(&mut line, stat.max());
    assert(line@ =~= line_text(key@, stat@));
    line
}

/// Renders a table: one line per key, in the order of the keys.
pub fn report(table: Table) -> (out: Vec<Vec<u8>>)
    requires
        table.wf(),
    ensures
        is_report(texts(out@), table@),
{
    let items = sorted_entries(table);
    let mut out: Vec<Vec<u8>> = Vec::new();
    let mut i: usize = 0;
    while i < items.len()
        invariant
            0 <= i <= items@.len(),
            table.wf(),
            lists(items@, table@),
            out@.len() == i,
            forall|j: int|
                0 <= j < i ==> (#[trigger] out@[j])@ == line_text(
                    items@[j].0@,
                    table@[items@[j].0@],
                ),
        decreases items@.len() - i,
    {
        let key = &items[i].0;
        let stat = &items[i].1;
        assert(table@.contains_key(items@[i as int].0@));
        let line = render_line(key.as_slice(), stat);
        out.push(line);
        i = i + 1;
    }
    proof {
        let keys = Seq::new(items@.len(), |j: int| items@[j].0@);
        assert(is_key_order(keys, table@)) by {
            assert forall|j: int| 0 <= j < keys.len() implies table@.contains_key(
                #[trigger] keys[j],
            ) by {
                assert(table@.contains_key(items@[j].0@));
            }
            assert forall|k: Seq<u8>| #[trigger] table@.contains_key(k) implies exists|j: int|
                0 <= j < keys.len() && #[trigger] keys[j] == k by {
                let j = choose|j: int| 0 <= j < items@.len() && #[trigger] items@[j].0@ == k;
                assert(keys[j] == k);
            }
            assert forall|a: int, b: int| 0 <= a < b < keys.len() implies key_before(
                #[trigger] keys[a],
                #[trigger] keys[b],
            ) by {
                assert(key_before(items@[a].0@, items@[b].0@));
            }
        }
        assert forall|j: int| 0 <= j < keys.len() implies #[trigger] texts(out@)[j] == line_text(
            keys[j],
            table@[keys[j]],
        ) by {
            assert(out@[j]@ == line_text(items@[j].0@, table@[items@[j].0@]));
        }
    }
    out
}

} // verus!
