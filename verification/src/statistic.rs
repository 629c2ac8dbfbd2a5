//! The running minimum, maximum, sum and count of the values seen for one key.

use vstd::prelude::*;

verus! {

/// What a [`Statistic`] stands for: the unbounded minimum, maximum, sum and
/// count of a collection of scaled values.
pub struct Summary {
    pub min: int,
    pub max: int,
    pub sum: int,
    pub count: nat,
}

/// The smaller of two integers.
pub open spec fn lesser(a: int, b: int) -> int {
    if a <= b { a } else { b }
}

/// The larger of two integers.
pub open spec fn greater(a: int, b: int) -> int {
    if a >= b { a } else { b }
}

impl Summary {
    /// The summary of no values at all. Its minimum and maximum are the two
    /// sentinels that every 32-bit value improves upon.
    pub open spec fn empty() -> Summary {
        Summary { min: i32::MAX as int, max: i32::MIN as int, sum: 0, count: 0 }
    }

    /// The summary after one more value has been seen.
    pub open spec fn observe(self, value: int) -> Summary {
        Summary {
            min: lesser(self.min, value),
            max: greater(self.max, value),
            sum: self.sum + value,
            count: self.count + 1,
        }
    }

    /// The summary of two collections taken together.
    pub open spec fn combine(self, other: Summary) -> Summary {
        Summary {
            min: lesser(self.min, other.min),
            max: greater(self.max, other.max),
            sum: self.sum + other.sum,
            count: self.count + other.count,
        }
    }

    /// The summary of the values of `values`, taken in order.
    pub open spec fn of(values: Seq<int>) -> Summary
        decreases values.len(),
    {
        if values.len() == 0 {
            Summary::empty()
        } else {
            Summary::of(values.drop_last()).observe(values.last())
        }
    }

    /// A summary that some collection of 32-bit values can have: with no value
    /// it is the empty summary; otherwise the minimum is at most the maximum,
    /// both are 32-bit values, and the sum lies between `count` times the
    /// minimum and `count` times the maximum.
    pub open spec fn valid(self) -> bool {
        if self.count == 0 {
            self == Summary::empty()
        } else {
            &&& i32::MIN <= self.min <= self.max <= i32::MAX
            &&& self.count * self.min <= self.sum <= self.count * self.max
        }
    }

    /// The sum fits in 64 bits and the count in an unsigned 64-bit integer.
    pub open spec fn fits(self) -> bool {
        &&& i64::MIN <= self.sum <= i64::MAX
        &&& self.count <= u64::MAX
    }
}

/// The most values that one statistic is meant to see. Up to this count the
/// sum of 32-bit values always fits in 64 bits.
pub const MAX_COUNT: u64 = 4_294_967_295;

/// A valid summary of at most [`MAX_COUNT`] values fits the machine's
/// integers.
pub proof fn lemma_bounded_fits(s: Summary)
    requires
        s.valid(),
        s.count <= MAX_COUNT,
    ensures
        s.fits(),
{
    if s.count > 0 {
        assert(s.count * s.min >= -0x8000_0000 * 0xffff_ffff) by (nonlinear_arith)
            requires
                0 < s.count <= 0xffff_ffff,
                s.min >= -0x8000_0000,
        ;
        assert(s.count * s.max <= 0x7fff_ffff * 0xffff_ffff) by (nonlinear_arith)
            requires
                0 < s.count <= 0xffff_ffff,
                s.max <= 0x7fff_ffff,
        ;
    }
}

/// The quotient of `sum` by `count`, rounded to the nearest integer, a tie
/// away from zero.
pub open spec fn rounded_mean(sum: int, count: int) -> int {
    if sum >= 0 {
        (2 * sum + count) / (2 * count)
    } else {
        -((2 * (-sum) + count) / (2 * count))
    }
}

/// The rounded mean of a valid summary lies between its minimum and its
/// maximum.
pub proof fn lemma_mean_between(s: Summary)
    requires
        s.valid(),
        s.count > 0,
    ensures
        s.min <= rounded_mean(s.sum, s.count as int) <= s.max,
{
    let c = s.count as int;
    if s.sum >= 0 {
        let q = (2 * s.sum + c) / (2 * c);
        assert(q >= 0 && q <= s.max && (s.min > 0 ==> q >= s.min)) by (nonlinear_arith)
            requires
                c > 0,
                s.sum >= 0,
                c * s.min <= s.sum <= c * s.max,
                q == (2 * s.sum + c) / (2 * c),
        ;
    } else {
        let m = -s.sum;
        let q = (2 * m + c) / (2 * c);
        assert(c * (-s.max) == -(c * s.max) && c * (-s.min) == -(c * s.min))
            by (nonlinear_arith);
        assert(q >= 0 && q <= -s.min && (s.max < 0 ==> q >= -s.max)) by (nonlinear_arith)
            requires
                c > 0,
                m > 0,
                c * (-s.max) <= m <= c * (-s.min),
                q == (2 * m + c) / (2 * c),
        ;
    }
}

/// Whether every value of `values` is a 32-bit integer.
pub open spec fn all_i32(values: Seq<int>) -> bool {
    forall|i: int| 0 <= i < values.len() ==> i32::MIN <= #[trigger] values[i] <= i32::MAX
}

/// Seeing one more 32-bit value keeps a summary valid.
pub proof fn lemma_observe_valid(s: Summary, value: int)
    requires
        s.valid(),
        i32::MIN <= value <= i32::MAX,
    ensures
        s.observe(value).valid(),
{
    let t = s.observe(value);
    if s.count > 0 {
        assert(t.count * t.min <= s.count * s.min + value) by (nonlinear_arith)
            requires
                t.count == s.count + 1,
                t.min <= s.min,
                t.min <= value,
                s.count >= 0,
        ;
        assert(s.count * s.max + value <= t.count * t.max) by (nonlinear_arith)
            requires
                t.count == s.count + 1,
                t.max >= s.max,
                t.max >= value,
                s.count >= 0,
        ;
    }
}

/// Taking two valid summaries together gives a valid summary.
pub proof fn lemma_combine_valid(a: Summary, b: Summary)
    requires
        a.valid(),
        b.valid(),
    ensures
        a.combine(b).valid(),
{
    let t = a.combine(b);
    if a.count > 0 && b.count > 0 {
        assert(t.count * t.min <= a.count * a.min + b.count * b.min) by (nonlinear_arith)
            requires
                t.count == a.count + b.count,
                t.min <= a.min,
                t.min <= b.min,
                a.count >= 0,
                b.count >= 0,
        ;
        assert(a.count * a.max + b.count * b.max <= t.count * t.max) by (nonlinear_arith)
            requires
                t.count == a.count + b.count,
                t.max >= a.max,
                t.max >= b.max,
                a.count >= 0,
                b.count >= 0,
        ;
    } else if a.count > 0 {
        assert(t == a);
    } else {
        assert(t == b);
    }
}

/// Merging is commutative.
pub proof fn lemma_combine_commutative(a: Summary, b: Summary)
    ensures
        a.combine(b) == b.combine(a),
{
}

/// Merging is associative.
pub proof fn lemma_combine_associative(a: Summary, b: Summary, c: Summary)
    ensures
        a.combine(b).combine(c) == a.combine(b.combine(c)),
{
}

/// The empty summary is the identity of merging, on either side.
pub proof fn lemma_combine_identity(a: Summary)
    requires
        a.valid(),
    ensures
        a.combine(Summary::empty()) == a,
        Summary::empty().combine(a) == a,
{
}

/// Seeing a 32-bit value is merging with the summary of that value alone.
pub proof fn lemma_observe_is_combine(a: Summary, value: int)
    requires
        i32::MIN <= value <= i32::MAX,
    ensures
        a.observe(value) == a.combine(Summary::empty().observe(value)),
{
}

/// The summary of 32-bit values is valid and counts them.
pub proof fn lemma_summary_valid(values: Seq<int>)
    requires
        all_i32(values),
    ensures
        Summary::of(values).valid(),
        Summary::of(values).count == values.len(),
    decreases values.len(),
{
    if values.len() > 0 {
        lemma_summary_valid(values.drop_last());
        lemma_observe_valid(Summary::of(values.drop_last()), values.last());
    }
}

/// Summarising a collection in two parts and merging the two summaries gives
/// the summary of the whole.
pub proof fn lemma_summary_concat(a: Seq<int>, b: Seq<int>)
    requires
        all_i32(a),
        all_i32(b),
    ensures
        Summary::of(a + b) == Summary::of(a).combine(Summary::of(b)),
    decreases b.len(),
{
    if b.len() == 0 {
        assert(a + b =~= a);
        lemma_summary_valid(a);
    } else {
        assert((a + b).drop_last() =~= a + b.drop_last());
        assert((a + b).last() == b.last());
        lemma_summary_concat(a, b.drop_last());
    }
}

/// The running minimum, maximum, sum and count of the scaled values of one key.
#[derive(Clone, Copy, Debug, PartialEq, Eq, Structural)]
pub struct Statistic {
    min: i32,
    sum: i64,
    max: i32,
    count: u64,
}

impl View for Statistic {
    type V = Summary;

    closed spec fn view(&self) -> Summary {
        Summary {
            min: self.min as int,
            max: self.max as int,
            sum: self.sum as int,
            count: self.count as nat,
        }
    }
}

impl Statistic {
    /// The invariant of the type: the summary it stands for is a valid one.
    pub open spec fn wf(&self) -> bool {
        self@.valid()
    }

    /// Two statistics with the same summary are the same statistic.
    pub proof fn lemma_view_injective(a: Statistic, b: Statistic)
        requires
            a@ == b@,
        ensures
            a == b,
    {
    }

    /// A statistic that has seen no value yet.
    pub fn new() -> (s: Self)
        ensures
            s@ == Summary::empty(),
            s.wf(),
    {
        Self { min: i32::MAX, sum: 0, max: i32::MIN, count: 0 }
    }

    /// Takes one more value in.
    pub fn add(&mut self, value: i32)
        requires
            old(self).wf(),
            old(self)@.observe(value as int).fits(),
        ensures
            final(self)@ == old(self)@.observe(value as int),
            final(self).wf(),
    {
        proof {
            lemma_observe_valid(self@, value as int);
        }
        if value < self.min {
            self.min = value;
        }
        if value > self.max {
            self.max = value;
        }
        self.sum = self.sum + value as i64;
        self.count = self.count + 1;
    }

    /// Takes in all that `other` has seen.
    pub fn merge(&mut self, other: &Statistic)
        requires
            old(self).wf(),
            other.wf(),
            old(self)@.combine(other@).fits(),
        ensures
            final(self)@ == old(self)@.combine(other@),
            final(self).wf(),
    {
        proof {
            lemma_combine_valid(self@, other@);
        }
        if other.min < self.min {
            self.min = other.min;
        }
        if other.max > self.max {
            self.max = other.max;
        }
        self.sum = self.sum + other.sum;
        self.count = self.count + other.count;
    }

    /// The mean of the values seen, rounded to the nearest integer, a tie away
    /// from zero. It lies between the minimum and the maximum.
    pub fn mean(&self) -> (r: i32)
        requires
            self.wf(),
            self@.count > 0,
        ensures
            r == rounded_mean(self@.sum, self@.count as int),
            self@.min <= r <= self@.max,
    {
        proof {
            lemma_mean_between(self@);
        }
        let count = self.count as u128;
        if self.sum >= 0 {
            let sum = self.sum as u128;
            ((2 * sum + count) / (2 * count)) as i32
        } else {
            let sum = (-(self.sum as i128)) as u128;
            let q = ((2 * sum + count) / (2 * count)) as i64;
            (-q) as i32
        }
    }

    /// The smallest value seen, or `i32::MAX` if none was.
    pub fn min(&self) -> (r: i32)
        ensures
            r == self@.min,
    {
        self.min
    }

    /// The largest value seen, or `i32::MIN` if none was.
    pub fn max(&self) -> (r: i32)
        ensures
            r == self@.max,
    {
        self.max
    }

    /// The sum of the values seen.
    pub fn sum(&self) -> (r: i64)
        ensures
            r == self@.sum,
    {
        self.sum
    }

    /// The number of values seen.
    pub fn count(&self) -> (r: u64)
        ensures
            r == self@.count,
    {
        self.count
    }
}

} // verus!
