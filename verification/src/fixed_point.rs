//! Decimal text with exactly one fractional digit, read as and written from
//! integers scaled by ten.

use vstd::prelude::*;

verus! {

/// The byte `-`.
pub const MINUS: u8 = 45;

/// The byte `.`.
pub const POINT: u8 = 46;

/// The byte `0`.
pub const ZERO: u8 = 48;

/// The byte `9`.
pub const NINE: u8 = 57;

/// Whether `b` is one of the bytes `0` to `9`.
pub open spec fn is_digit(b: u8) -> bool {
    ZERO <= b <= NINE
}

/// Whether every byte of `s` is a digit.
pub open spec fn all_digits(s: Seq<u8>) -> bool {
    forall|i: int| 0 <= i < s.len() ==> is_digit(#[trigger] s[i])
}

/// The number that the digits of `s` write in base ten; 0 for no digit.
pub open spec fn digits_value(s: Seq<u8>) -> int
    decreases s.len(),
{
    if s.len() == 0 {
        0
    } else {
        digits_value(s.drop_last()) * 10 + (s.last() - ZERO)
    }
}

/// One or more digits, a point, one digit.
pub open spec fn is_unsigned_token(s: Seq<u8>) -> bool {
    &&& s.len() >= 3
    &&& all_digits(s.subrange(0, s.len() - 2))
    &&& s[s.len() - 2] == POINT
    &&& is_digit(s[s.len() - 1])
}

/// The value of an unsigned token, scaled by ten.
pub open spec fn magnitude(s: Seq<u8>) -> int {
    digits_value(s.subrange(0, s.len() - 2)) * 10 + (s[s.len() - 1] - ZERO)
}

/// The grammar of a value: an optional `-`, one or more digits, a point, and
/// exactly one digit.
pub open spec fn is_value_token(s: Seq<u8>) -> bool {
    if s.len() > 0 && s[0] == MINUS {
        is_unsigned_token(s.subrange(1, s.len() as int))
    } else {
        is_unsigned_token(s)
    }
}

/// The value that a token writes, scaled by ten.
pub open spec fn token_value(s: Seq<u8>) -> int {
    if s.len() > 0 && s[0] == MINUS {
        -magnitude(s.subrange(1, s.len() as int))
    } else {
        magnitude(s)
    }
}

/// A token of the grammar whose scaled value is at most `i32::MAX` in
/// magnitude: the tokens that [`parse_temperature`] reads.
pub open spec fn is_supported_token(s: Seq<u8>) -> bool {
    &&& is_value_token(s)
    &&& -i32::MAX <= token_value(s) <= i32::MAX
}

/// The digits of a number grow with every digit appended: a prefix of a digit
/// string is worth no more than the whole.
pub proof fn lemma_digits_prefix(s: Seq<u8>, k: int)
    requires
        all_digits(s),
        0 <= k <= s.len(),
    ensures
        0 <= digits_value(s.subrange(0, k)) <= digits_value(s),
    decreases s.len() - k,
{
    if k == s.len() {
        assert(s.subrange(0, k) =~= s);
        lemma_digits_nonnegative(s);
    } else {
        lemma_digits_prefix(s, k + 1);
        let longer = s.subrange(0, k + 1);
        assert(longer.drop_last() =~= s.subrange(0, k));
        assert(is_digit(s[k]));
        assert(longer.last() == s[k]);
        lemma_digits_nonnegative(s.subrange(0, k));
    }
}

/// A digit string is worth at least zero.
pub proof fn lemma_digits_nonnegative(s: Seq<u8>)
    requires
        all_digits(s),
    ensures
        digits_value(s) >= 0,
    decreases s.len(),
{
    if s.len() > 0 {
        assert(is_digit(s.last()));
        lemma_digits_nonnegative(s.drop_last());
    }
}

fn digit_at(bytes: &[u8], i: usize) -> (r: bool)
    requires
        i < bytes@.len(),
    ensures
        r == is_digit(bytes@[i as int]),
{
    ZERO <= bytes[i] && bytes[i] <= NINE
}

/// Tells whether `bytes` is a token that [`parse_temperature`] reads: one of
/// the grammar, with a scaled value of at most `i32::MAX` in magnitude.
pub fn is_supported(bytes: &[u8]) -> (r: bool)
    ensures
        r == is_supported_token(bytes@),
{
    let n = bytes.len();
    let start: usize = if n > 0 && bytes[0] == MINUS { 1 } else { 0 };
    let ghost body = bytes@.subrange(start as int, n as int);
    proof {
        if start == 0 {
            assert(body =~= bytes@);
        }
    }
    if n - start < 3 {
        return false;
    }
    if bytes[n - 2] != POINT || !digit_at(bytes, n - 1) {
        return false;
    }
    let ghost whole = body.subrange(0, body.len() - 2);
    assert(whole =~= bytes@.subrange(start as int, n - 2));
    let ghost frac = bytes@[n - 1] - ZERO;
    assert(is_supported_token(bytes@) <==> all_digits(whole) && digits_value(whole) * 10 + frac
        <= i32::MAX) by {
        if all_digits(whole) {
            lemma_digits_nonnegative(whole);
        }
    }
    let mut i: usize = start;
    let mut acc: i64 = 0;
    while i < n - 2
        invariant
            start <= i <= n - 2,
            n == bytes@.len(),
            whole == bytes@.subrange(start as int, n - 2),
            0 <= frac <= 9,
            is_supported_token(bytes@) <==> all_digits(whole) && digits_value(whole) * 10 + frac
                <= i32::MAX,
            all_digits(whole.subrange(0, i - start)),
            acc == digits_value(whole.subrange(0, i - start)),
            0 <= acc <= i32::MAX,
        decreases n - i,
    {
        let ghost before = whole.subrange(0, i - start);
        let ghost after = whole.subrange(0, i + 1 - start);
        assert(after.drop_last() =~= before);
        assert(after.last() == bytes@[i as int]);
        if !digit_at(bytes, i) {
            assert(!is_digit(whole[i - start]));
            return false;
        }
        acc = acc * 10 + (bytes[i] - ZERO) as i64;
        i = i + 1;
        if acc > i32::MAX as i64 {
            proof {
                if all_digits(whole) {
                    lemma_digits_prefix(whole, i - start);
                }
            }
            return false;
        }
    }
    assert(whole.subrange(0, i - start) =~= whole);
    acc * 10 + (bytes[n - 1] - ZERO) as i64 <= i32::MAX as i64
}

/// Reads a token as an integer scaled by ten: the digits before the point,
/// times ten, plus the digit behind it, negated after a leading `-`.
pub fn parse_temperature(bytes: &[u8]) -> (value: i32)
    requires
        is_supported_token(bytes@),
    ensures
        value == token_value(bytes@),
{
    let n = bytes.len();
    let mut value: i32 = 0;
    let mut negative = false;
    let mut i: usize = 0;
    if bytes[0] == MINUS {
        negative = true;
        i = 1;
    }
    let ghost start = i;
    let ghost body = bytes@.subrange(start as int, n as int);
    let ghost whole = body.subrange(0, body.len() - 2);
    assert(whole =~= bytes@.subrange(start as int, n - 2));
    proof {
        if start == 0 {
            assert(body =~= bytes@);
        }
    }
    while i < n && bytes[i] != POINT
        invariant
            start <= i <= n - 2,
            n == bytes@.len(),
            n - start >= 3,
            bytes@[n - 2] == POINT,
            whole == bytes@.subrange(start as int, n - 2),
            all_digits(whole),
            digits_value(whole) * 10 + (bytes@[n - 1] - ZERO) <= i32::MAX,
            is_digit(bytes@[n - 1]),
            value == digits_value(whole.subrange(0, i - start)),
        decreases n - i,
    {
        let ghost before = whole.subrange(0, i - start);
        let ghost after = whole.subrange(0, i + 1 - start);
        assert(is_digit(whole[i - start]));
        proof {
            assert(after.drop_last() =~= before);
            assert(after.last() == bytes@[i as int]);
            lemma_digits_prefix(whole, i + 1 - start);
            lemma_digits_prefix(whole, i - start);
        }
        value = value * 10 + (bytes[i] - ZERO) as i32;
        i = i + 1;
    }
    assert(i == n - 2) by {
        if i < n - 2 {
            assert(is_digit(whole[i - start]));
        }
    }
    assert(whole.subrange(0, i - start) =~= whole);
    proof {
        lemma_digits_nonnegative(whole);
    }
    i = i + 1;
    if i < n {
        value = value * 10 + (bytes[i] - ZERO) as i32;
    }
    if negative {
        -value
    } else {
        value
    }
}

/// The digits that write `n` in base ten, without leading zeros.
pub open spec fn decimal_digits(n: nat) -> Seq<u8>
    decreases n,
{
    if n < 10 {
        seq![(ZERO + n) as u8]
    } else {
        decimal_digits(n / 10).push((ZERO + n % 10) as u8)
    }
}

/// The text of a scaled value with one fractional digit: a `-` for a negative
/// value, the digits of the whole part, a point, the digit of the tenths.
pub open spec fn tenths_text(v: int) -> Seq<u8> {
    let m = if v < 0 { -v } else { v };
    let body = decimal_digits((m / 10) as nat).push(POINT).push((ZERO + m % 10) as u8);
    if v < 0 {
        seq![MINUS] + body
    } else {
        body
    }
}

/// A token in the one form that [`tenths_text`] writes: the whole part has no
/// leading zero unless it is the single digit `0`, and zero has no sign.
pub open spec fn is_canonical_token(s: Seq<u8>) -> bool {
    let body = if s.len() > 0 && s[0] == MINUS { s.subrange(1, s.len() as int) } else { s };
    &&& is_value_token(s)
    &&& body.len() == 3 || body[0] != ZERO
    &&& token_value(s) == 0 ==> s[0] != MINUS
}

/// The digits written for a number are digits, and they write that number.
pub proof fn lemma_decimal_digits(n: nat)
    ensures
        decimal_digits(n).len() >= 1,
        all_digits(decimal_digits(n)),
        digits_value(decimal_digits(n)) == n,
        decimal_digits(n).len() == 1 || decimal_digits(n)[0] != ZERO,
    decreases n,
{
    let d = decimal_digits(n);
    if n < 10 {
        assert(d.drop_last() =~= Seq::<u8>::empty());
        assert(digits_value(d.drop_last()) == 0);
    } else {
        lemma_decimal_digits(n / 10);
        let front = decimal_digits(n / 10);
        assert(d.drop_last() =~= front);
        assert(d[0] == front[0]);
        assert(front.len() == 1 ==> front[0] != ZERO) by {
            if front.len() == 1 {
                assert(front.drop_last() =~= Seq::<u8>::empty());
                assert(digits_value(front.drop_last()) == 0);
            }
        }
    }
}

/// A digit string without a leading zero is the one that is written for its
/// value.
pub proof fn lemma_digits_canonical(w: Seq<u8>)
    requires
        w.len() >= 1,
        all_digits(w),
        w.len() == 1 || w[0] != ZERO,
    ensures
        digits_value(w) >= 0,
        decimal_digits(digits_value(w) as nat) == w,
    decreases w.len(),
{
    lemma_digits_nonnegative(w);
    assert(is_digit(w.last()));
    if w.len() == 1 {
        assert(w.drop_last() =~= Seq::<u8>::empty());
        assert(digits_value(w.drop_last()) == 0);
        assert(decimal_digits(digits_value(w) as nat) =~= w);
    } else {
        let front = w.drop_last();
        lemma_digits_canonical(front);
        assert(digits_value(front) >= 1) by {
            lemma_digits_prefix(front, 1);
            let first = front.subrange(0, 1);
            assert(first.drop_last() =~= Seq::<u8>::empty());
            assert(digits_value(first.drop_last()) == 0);
            assert(first.last() == w[0]);
            assert(is_digit(w[0]));
        }
        assert(decimal_digits(digits_value(w) as nat) =~= w);
    }
}

/// What is written for a scaled value is a token that reads back as that
/// value.
pub proof fn lemma_written_reads_back(v: int)
    requires
        -i32::MAX <= v <= i32::MAX,
    ensures
        is_supported_token(tenths_text(v)),
        is_canonical_token(tenths_text(v)),
        token_value(tenths_text(v)) == v,
{
    let m = if v < 0 { -v } else { v };
    let whole = decimal_digits((m / 10) as nat);
    let body = whole.push(POINT).push((ZERO + m % 10) as u8);
    let text = tenths_text(v);
    lemma_decimal_digits((m / 10) as nat);
    assert(body.subrange(0, body.len() - 2) =~= whole);
    assert(is_unsigned_token(body));
    assert(magnitude(body) == m);
    assert(whole[0] != MINUS) by {
        assert(is_digit(whole[0]));
    }
    assert(body[0] == whole[0]);
    if v < 0 {
        assert(text.subrange(1, text.len() as int) =~= body);
    }
}

/// A canonical token is written back exactly as it was read.
pub proof fn lemma_read_writes_back(s: Seq<u8>)
    requires
        is_canonical_token(s),
    ensures
        tenths_text(token_value(s)) == s,
{
    let body = if s.len() > 0 && s[0] == MINUS { s.subrange(1, s.len() as int) } else { s };
    let whole = body.subrange(0, body.len() - 2);
    let m = magnitude(body);
    assert(is_digit(body[body.len() - 1]));
    assert(whole[0] == body[0]);
    lemma_digits_canonical(whole);
    assert(m / 10 == digits_value(whole));
    assert(m % 10 == body[body.len() - 1] - ZERO);
    let written = whole.push(POINT).push((ZERO + m % 10) as u8);
    assert(written =~= body);
    if s[0] == MINUS {
        assert(seq![MINUS] + body =~= s);
    }
}

fn push_decimal(out: &mut Vec<u8>, n: u32)
    ensures
        final(out)@ == old(out)@ + decimal_digits(n as nat),
    decreases n,
{
    if n >= 10 {
        push_decimal(out, n / 10);
    }
    out.push(ZERO + (n % 10) as u8);
    assert(out@ =~= old(out)@ + decimal_digits(n as nat));
}

/// Appends the text of the scaled value `v` to `out`.
pub fn push_tenths(out: &mut Vec<u8>, v: i32)
    ensures
        final(out)@ == old(out)@ + tenths_text(v as int),
{
    let m: u32 = if v < 0 {
        out.push(MINUS);
        (-(v as i64)) as u32
    } else {
        v as u32
    };
    push_decimal(out, m / 10);
    out.push(POINT);
    out.push(ZERO + (m % 10) as u8);
    assert(out@ =~= old(out)@ + tenths_text(v as int));
}

} // verus!
