//! Running statistics of one key: minimum, maximum, count and sum.
//!
//! Every value is a whole number of tenths, so that sums are exact and the
//! order in which values arrive cannot change a result.

use vstd::prelude::*;

verus! {

/// Least value a record can carry, in tenths.
pub const VALUE_MIN: i64 = -21474836480;

/// Greatest value a record can carry, in tenths.
pub const VALUE_MAX: i64 = 21474836479;

/// Minimum held by a tally that has seen nothing: no value lies above it.
pub const NO_MIN: i64 = 0x7fff_ffff_ffff_ffff;

/// Maximum held by a tally that has seen nothing: no value lies below it.
pub const NO_MAX: i64 = -0x8000_0000_0000_0000;

/// `v` is a value that a record can carry.
pub open spec fn in_range(v: int) -> bool {
    -21474836480 <= v <= 21474836479
}

pub open spec fn min_int(a: int, b: int) -> int {
    if a <= b {
        a
    } else {
        b
    }
}

pub open spec fn max_int(a: int, b: int) -> int {
    if a >= b {
        a
    } else {
        b
    }
}

/// Mean of `count` values that add up to `sum`, rounded to the nearest whole
/// number, halves upwards.
pub open spec fn rounded_mean(sum: int, count: int) -> int {
    (2 * sum + count) / (2 * count)
}

/// What a `Stats` stands for.
pub struct Tally {
    pub min: int,
    pub max: int,
    pub count: nat,
    pub sum: int,
}

impl Tally {
    /// The tally of no values at all.
    pub open spec fn empty() -> Tally {
        Tally { min: NO_MIN as int, max: NO_MAX as int, count: 0, sum: 0 }
    }

    /// The tally of the one value `v`.
    pub open spec fn single(v: int) -> Tally {
        Tally { min: v, max: v, count: 1, sum: v }
    }

    /// This tally with `v` added to what it has seen.
    pub open spec fn observe(self, v: int) -> Tally {
        Tally {
            min: min_int(self.min, v),
            max: max_int(self.max, v),
            count: self.count + 1,
            sum: self.sum + v,
        }
    }

    /// The tally of everything that `self` and `other` have seen.
    pub open spec fn combine(self, other: Tally) -> Tally {
        Tally {
            min: min_int(self.min, other.min),
            max: max_int(self.max, other.max),
            count: self.count + other.count,
            sum: self.sum + other.sum,
        }
    }

    /// The tally of the values of `vals`, taken in order.
    pub open spec fn of(vals: Seq<int>) -> Tally
        decreases vals.len(),
    {
        if vals.len() == 0 {
            Tally::empty()
        } else {
            Tally::of(vals.drop_last()).observe(vals.last())
        }
    }

    /// The mean in tenths, halves rounded upwards.
    pub open spec fn mean(self) -> int {
        rounded_mean(self.sum, self.count as int)
    }

    /// A tally that has seen nothing holds the two sentinels; one that has
    /// seen values holds a minimum below its maximum, both in range, and a sum
    /// that `count` values in range can reach.
    #[verifier::opaque]
    pub open spec fn wf(self) -> bool {
        if self.count == 0 {
            self == Tally::empty()
        } else {
            &&& in_range(self.min)
            &&& in_range(self.max)
            &&& self.min <= self.max
            &&& self.count * self.min <= self.sum <= self.count * self.max
        }
    }
}

/// Merging is commutative.
pub proof fn lemma_combine_commutative(a: Tally, b: Tally)
    ensures
        a.combine(b) == b.combine(a),
{
}

/// Merging is associative.
pub proof fn lemma_combine_associative(a: Tally, b: Tally, c: Tally)
    ensures
        a.combine(b).combine(c) == a.combine(b.combine(c)),
{
}

/// The empty tally is the unit of merging, on either side.
pub proof fn lemma_combine_empty(a: Tally)
    requires
        a.wf(),
    ensures
        a.combine(Tally::empty()) == a,
        Tally::empty().combine(a) == a,
{
    reveal(Tally::wf);
}

/// The tally of no values is well formed, and so is the tally of one value
/// in range.
pub proof fn lemma_small_wf(v: int)
    ensures
        Tally::empty().wf(),
        in_range(v) ==> Tally::single(v).wf(),
{
    reveal(Tally::wf);
    assert(1 * v == v);
}

/// Seeing one more value is merging with the tally of that value alone.
pub proof fn lemma_observe_is_combine(a: Tally, v: int)
    ensures
        a.observe(v) == a.combine(Tally::single(v)),
        in_range(v) ==> Tally::single(v) == Tally::empty().observe(v),
{
}

/// Seeing a value in range, and merging two tallies, keep a tally well formed.
pub proof fn lemma_wf_preserved(a: Tally, b: Tally, v: int)
    requires
        a.wf(),
        b.wf(),
        in_range(v),
    ensures
        a.observe(v).wf(),
        a.combine(b).wf(),
{
    reveal(Tally::wf);
    let o = a.observe(v);
    let c = a.combine(b);
    if a.count > 0 {
        lemma_scaled_bounds(a.count as int, o.min, a.min, a.sum, a.max, o.max);
    }
    if a.count > 0 && b.count > 0 {
        lemma_scaled_bounds(a.count as int, c.min, a.min, a.sum, a.max, c.max);
        lemma_scaled_bounds(b.count as int, c.min, b.min, b.sum, b.max, c.max);
        assert((a.count + b.count) * c.min == a.count * c.min + b.count * c.min)
            by (nonlinear_arith);
        assert((a.count + b.count) * c.max == a.count * c.max + b.count * c.max)
            by (nonlinear_arith);
    }
    assert((a.count + 1) * o.min == a.count * o.min + o.min) by (nonlinear_arith);
    assert((a.count + 1) * o.max == a.count * o.max + o.max) by (nonlinear_arith);
}

/// Widening the bounds of a sum of `n` values.
proof fn lemma_scaled_bounds(n: int, lo2: int, lo: int, sum: int, hi: int, hi2: int)
    requires
        n >= 0,
        lo2 <= lo,
        hi <= hi2,
        n * lo <= sum <= n * hi,
    ensures
        n * lo2 <= sum <= n * hi2,
{
    assert(n * lo2 <= n * lo) by (nonlinear_arith)
        requires
            n >= 0,
            lo2 <= lo,
    ;
    assert(n * hi <= n * hi2) by (nonlinear_arith)
        requires
            n >= 0,
            hi <= hi2,
    ;
}

/// The tally of a sequence is the merge of the tallies of its two parts,
/// wherever it is cut.
pub proof fn lemma_of_concat(a: Seq<int>, b: Seq<int>)
    ensures
        Tally::of(a + b) == Tally::of(a).combine(Tally::of(b)),
    decreases b.len(),
{
    if b.len() == 0 {
        assert(a + b =~= a);
        lemma_of_min_max(a);
    } else {
        assert((a + b).drop_last() =~= a + b.drop_last());
        lemma_of_concat(a, b.drop_last());
    }
}

/// A tally has seen as many values as it was given.
pub proof fn lemma_of_count(vals: Seq<int>)
    ensures
        Tally::of(vals).count == vals.len(),
    decreases vals.len(),
{
    if vals.len() > 0 {
        lemma_of_count(vals.drop_last());
    }
}

/// The tally of values in range is well formed and has seen as many values
/// as there are.
pub proof fn lemma_of_wf(vals: Seq<int>)
    requires
        forall|i: int| 0 <= i < vals.len() ==> in_range(#[trigger] vals[i]),
    ensures
        Tally::of(vals).wf(),
        Tally::of(vals).count == vals.len(),
    decreases vals.len(),
{
    if vals.len() == 0 {
        lemma_small_wf(0);
    } else {
        let front = vals.drop_last();
        assert forall|i: int| 0 <= i < front.len() implies in_range(#[trigger] front[i]) by {
            assert(front[i] == vals[i]);
        }
        lemma_of_wf(front);
        lemma_wf_preserved(Tally::of(front), Tally::of(front), vals.last());
    }
}

/// A tally of values never holds a minimum above, or a maximum below, the
/// sentinels.
proof fn lemma_of_min_max(a: Seq<int>)
    ensures
        Tally::of(a).min <= NO_MIN,
        Tally::of(a).max >= NO_MAX,
    decreases a.len(),
{
    if a.len() > 0 {
        lemma_of_min_max(a.drop_last());
    }
}

/// The mean of a well-formed tally that has seen values lies between its
/// minimum and its maximum.
pub proof fn lemma_mean_between(t: Tally)
    requires
        t.wf(),
        t.count > 0,
    ensures
        t.min <= t.mean() <= t.max,
{
    reveal(Tally::wf);
    let c = t.count as int;
    let n = 2 * t.sum + c;
    let d = 2 * c;
    let q = n / d;
    vstd::arithmetic::div_mod::lemma_fundamental_div_mod(n, d);
    vstd::arithmetic::div_mod::lemma_mod_bound(n, d);
    // d * q <= n < d * q + d
    assert(d * t.min == 2 * (c * t.min)) by (nonlinear_arith)
        requires
            d == 2 * c,
    ;
    assert(d * t.max == 2 * (c * t.max)) by (nonlinear_arith)
        requires
            d == 2 * c,
    ;
    if q < t.min {
        assert(d * (q + 1) <= d * t.min) by (nonlinear_arith)
            requires
                d > 0,
                q + 1 <= t.min,
        ;
        assert(d * (q + 1) == d * q + d) by (nonlinear_arith);
    }
    if q > t.max {
        assert(d * q >= d * (t.max + 1)) by (nonlinear_arith)
            requires
                d > 0,
                q >= t.max + 1,
        ;
        assert(d * (t.max + 1) == d * t.max + d) by (nonlinear_arith);
    }
}

/// Running statistics of one key.
#[derive(Clone, Copy, Debug, PartialEq, Eq)]
pub struct Stats {
    min: i64,
    max: i64,
    count: u64,
    sum: i128,
}

impl View for Stats {
    type V = Tally;

    open spec fn view(&self) -> Tally {
        Tally {
            min: self.min_tenths() as int,
            max: self.max_tenths() as int,
            count: self.times_seen() as nat,
            sum: self.total() as int,
        }
    }
}

impl Default for Stats {
    /// Statistics of nothing: count 0 and the two sentinels.
    fn default() -> (s: Stats)
        ensures
            s@ == Tally::empty(),
            s@.wf(),
    {
        proof {
            lemma_small_wf(0);
        }
        Stats { min: NO_MIN, max: NO_MAX, count: 0, sum: 0 }
    }
}

impl Stats {
    pub closed spec fn min_tenths(&self) -> i64 {
        self.min
    }

    pub closed spec fn max_tenths(&self) -> i64 {
        self.max
    }

    pub closed spec fn times_seen(&self) -> u64 {
        self.count
    }

    pub closed spec fn total(&self) -> i128 {
        self.sum
    }

    /// Statistics of the one value `v`.
    pub fn of_value(v: i64) -> (s: Stats)
        requires
            in_range(v as int),
        ensures
            s@ == Tally::single(v as int),
            s@.wf(),
    {
        proof {
            lemma_small_wf(v as int);
        }
        Stats { min: v, max: v, count: 1, sum: v as i128 }
    }

    /// Takes one more value in.
    pub fn update(&mut self, v: i64)
        requires
            old(self)@.wf(),
            in_range(v as int),
            old(self)@.count < u64::MAX,
        ensures
            final(self)@ == old(self)@.observe(v as int),
            final(self)@.wf(),
    {
        proof {
            lemma_wf_preserved(self@, self@, v as int);
            lemma_sum_fits(self@);
        }
        if v < self.min {
            self.min = v;
        }
        if v > self.max {
            self.max = v;
        }
        self.count = self.count + 1;
        self.sum = self.sum + v as i128;
    }

    /// Takes in everything that `other` has seen.
    pub fn merge(&mut self, other: &Stats)
        requires
            old(self)@.wf(),
            other@.wf(),
            old(self)@.count + other@.count <= u64::MAX,
        ensures
            final(self)@ == old(self)@.combine(other@),
            final(self)@.wf(),
    {
        proof {
            lemma_wf_preserved(self@, other@, 0);
            lemma_sum_fits(self@);
            lemma_sum_fits(other@);
        }
        if other.min < self.min {
            self.min = other.min;
        }
        if other.max > self.max {
            self.max = other.max;
        }
        self.count = self.count + other.count;
        self.sum = self.sum + other.sum;
    }

    /// The least value seen; the sentinel `NO_MIN` where none was.
    pub fn min(&self) -> (r: i64)
        ensures
            r == self@.min,
    {
        self.min
    }

    /// The greatest value seen; the sentinel `NO_MAX` where none was.
    pub fn max(&self) -> (r: i64)
        ensures
            r == self@.max,
    {
        self.max
    }

    /// How many values were seen.
    pub fn count(&self) -> (r: u64)
        ensures
            r == self@.count,
    {
        self.count
    }

    /// The sum of the values seen.
    pub fn sum(&self) -> (r: i128)
        ensures
            r == self@.sum,
    {
        self.sum
    }

    /// The mean of the values seen, halves rounded upwards.
    pub fn mean(&self) -> (r: i64)
        requires
            self@.wf(),
            self@.count > 0,
        ensures
            r == self@.mean(),
            self@.min <= r <= self@.max,
    {
        proof {
            lemma_mean_between(self@);
            lemma_sum_fits(self@);
        }
        let den: i128 = 2 * (self.count as i128);
        let num: i128 = 2 * self.sum + self.count as i128;
        let q: i128 = floor_div(num, den);
        q as i64
    }
}

/// The sum of a well-formed tally whose count fits 64 bits is far inside the
/// 128-bit range.
proof fn lemma_sum_fits(t: Tally)
    requires
        t.wf(),
        t.count <= u64::MAX,
    ensures
        -0x1000_0000_0000_0000_0000_0000_0000 <= t.sum <= 0x1000_0000_0000_0000_0000_0000_0000,
{
    reveal(Tally::wf);
    if t.count > 0 {
        lemma_scaled_bounds(t.count as int, -21474836480, t.min, t.sum, t.max, 21474836479);
    }
}

/// `num / den` rounded towards minus infinity.
fn floor_div(num: i128, den: i128) -> (q: i128)
    requires
        den > 0,
        -0x4000_0000_0000_0000_0000_0000_0000 <= num <= 0x4000_0000_0000_0000_0000_0000_0000,
    ensures
        q == num as int / den as int,
{
    if num >= 0 {
        let n: u128 = num as u128;
        let d: u128 = den as u128;
        (n / d) as i128
    } else {
        let n: u128 = (-num) as u128;
        let d: u128 = den as u128;
        let up: u128 = n / d;
        let rem: u128 = n % d;
        proof {
            vstd::arithmetic::div_mod::lemma_fundamental_div_mod(n as int, d as int);
            // n == d * up + rem, so num == d * (-up) - rem
            if rem == 0 {
                assert(num as int == (d as int) * (-(up as int)) + 0) by (nonlinear_arith)
                    requires
                        n as int == (d as int) * (up as int) + 0,
                        num as int == -(n as int),
                ;
                vstd::arithmetic::div_mod::lemma_fundamental_div_mod_converse(
                    num as int,
                    d as int,
                    -(up as int),
                    0,
                );
            } else {
                assert(num as int == (d as int) * (-(up as int) - 1) + (d as int - rem as int))
                    by (nonlinear_arith)
                    requires
                        n as int == (d as int) * (up as int) + rem as int,
                        num as int == -(n as int),
                ;
                vstd::arithmetic::div_mod::lemma_fundamental_div_mod_converse(
                    num as int,
                    d as int,
                    -(up as int) - 1,
                    d as int - rem as int,
                );
            }
        }
        if rem == 0 {
            -(up as i128)
        } else {
            -(up as i128) - 1
        }
    }
}

} // verus!
