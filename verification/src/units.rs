//! Rational durations (`Beat`) and pitch offsets (`Interval`), with the
//! arithmetic that the compositions perform on them.
//!
//! A fraction is modelled in specifications as a pair `(n, d)` of integers
//! with `d > 0`; `same` is equality of the numbers that two pairs denote.
//! Durations are also measured in `ticks`: whole multiples of `1 / GRID`
//! beat, which turns every duration sum into plain integer addition.
use vstd::prelude::*;

verus! {

/// Two fractions `n / d` denote the same number.
pub open spec fn same(a: (int, int), b: (int, int)) -> bool {
    a.0 * b.1 == b.0 * a.1
}

/// The sum of two fractions, not reduced.
pub open spec fn sum(a: (int, int), b: (int, int)) -> (int, int) {
    (a.0 * b.1 + b.0 * a.1, a.1 * b.1)
}

/// The difference of two fractions, not reduced.
pub open spec fn diff(a: (int, int), b: (int, int)) -> (int, int) {
    (a.0 * b.1 - b.0 * a.1, a.1 * b.1)
}

pub open spec fn abs(x: int) -> int {
    if x < 0 {
        -x
    } else {
        x
    }
}

/// Division of `n` by `d > 0`, rounded towards zero (Rust's `/` on integers).
pub open spec fn trunc_div(n: int, d: int) -> int {
    if n >= 0 {
        n / d
    } else {
        -((-n) / d)
    }
}

/// The finest grid of beat subdivisions that the compositions use: the least
/// common multiple of 1 through 16.
pub const GRID: u64 = 720720;

/// Largest numerator (and, for intervals, denominator) accepted. It keeps
/// every intermediate value of `euphony`'s rational arithmetic in range:
/// beat sums are compared and added over denominators up to `GRID`, and a
/// placed interval's step count (`7 * num / den`) is cast to `usize`,
/// which has only 32 bits on some targets.
pub const LIMIT: u64 = 65536;

/// A duration measured in beats, `num / den`.
#[derive(Clone, Copy, Debug)]
pub struct Beat {
    pub num: u64,
    pub den: u64,
}

impl Beat {
    pub open spec fn value(self) -> (int, int) {
        (self.num as int, self.den as int)
    }

    /// The duration is a whole number of grid ticks.
    pub open spec fn on_grid(self) -> bool {
        self.den > 0 && GRID as int % self.den as int == 0
    }

    /// The duration in ticks of `1 / GRID` beat.
    pub open spec fn ticks(self) -> int {
        self.num * (GRID as int / self.den as int)
    }

    pub fn new(num: u64, den: u64) -> (b: Beat)
        requires
            den > 0,
        ensures
            b.num == num,
            b.den == den,
    {
        Beat { num, den }
    }
}

/// A pitch offset measured in octaves, `num / den`.
#[derive(Clone, Copy, Debug)]
pub struct Interval {
    pub num: i64,
    pub den: i64,
}

impl Interval {
    pub open spec fn value(self) -> (int, int) {
        (self.num as int, self.den as int)
    }

    /// Numerator and denominator small enough for every operation of this
    /// library to stay far from the limits of `i64`.
    pub open spec fn modest(self) -> bool {
        0 < self.den <= LIMIT && abs(self.num as int) <= LIMIT
    }

    pub fn new(num: i64, den: i64) -> (i: Interval)
        requires
            den > 0,
        ensures
            i.num == num,
            i.den == den,
    {
        Interval { num, den }
    }
}

/// `same` is an equivalence on fractions with positive denominators.
pub proof fn lemma_same_trans(a: (int, int), b: (int, int), c: (int, int))
    requires
        a.1 > 0,
        b.1 > 0,
        c.1 > 0,
        same(a, b),
        same(b, c),
    ensures
        same(a, c),
{
    assert(b.1 * (a.0 * c.1 - c.0 * a.1) == 0) by (nonlinear_arith)
        requires
            a.0 * b.1 == b.0 * a.1,
            b.0 * c.1 == c.0 * b.1,
    ;
    assert(a.0 * c.1 - c.0 * a.1 == 0) by (nonlinear_arith)
        requires
            b.1 * (a.0 * c.1 - c.0 * a.1) == 0,
            b.1 > 0,
    ;
}

/// The number of grid ticks in each fraction of a beat that the
/// compositions use.
pub proof fn lemma_grid_fractions()
    ensures
        GRID as int / 1 == 720720,
        GRID as int / 2 == 360360,
        GRID as int / 3 == 240240,
        GRID as int / 4 == 180180,
        GRID as int / 6 == 120120,
        GRID as int / 8 == 90090,
        GRID as int / 9 == 80080,
        GRID as int / 12 == 60060,
        GRID as int / 16 == 45045,
{
    assert(GRID as int == 720720);
}

/// A positive number is at least as large as each of its divisors.
pub proof fn lemma_divisor_le(x: int, d: int)
    requires
        x > 0,
        d > 0,
        x % d == 0,
    ensures
        d <= x,
{
    assert(d <= x) by (nonlinear_arith)
        requires
            x > 0,
            d > 0,
            x % d == 0,
    {
        let q = x / d;
        assert(x == q * d);
        assert(q >= 1);
    }
}

/// `n / d` equals `m / k` exactly when `k * n` is `m` whole multiples of `d`.
pub proof fn lemma_same_scaled(n: int, d: int, m: int, k: int)
    requires
        d > 0,
        same((n, d), (m, k)),
    ensures
        (k * n) % d == 0,
        (k * n) / d == m,
{
    assert(k * n == m * d) by (nonlinear_arith)
        requires
            n * k == m * d,
    ;
    vstd::arithmetic::div_mod::lemma_mod_multiples_basic(m, d);
    vstd::arithmetic::div_mod::lemma_div_multiples_vanish(m, d);
    assert(m * d == d * m) by (nonlinear_arith);
}

/// The triangle inequality for `a * c + b * e` with `c, e >= 0`.
pub proof fn lemma_abs_combination(a: int, b: int, c: int, e: int)
    requires
        c >= 0,
        e >= 0,
    ensures
        abs(a * c + b * e) <= abs(a) * c + abs(b) * e,
        abs(a * c - b * e) <= abs(a) * c + abs(b) * e,
{
    assert(abs(a * c) == abs(a) * c) by (nonlinear_arith)
        requires
            c >= 0,
    ;
    assert(abs(b * e) == abs(b) * e) by (nonlinear_arith)
        requires
            e >= 0,
    ;
}

/// Adding a fraction to equal fractions gives equal sums.
pub proof fn lemma_sum_congruent(a: (int, int), b: (int, int), c: (int, int))
    requires
        a.1 > 0,
        b.1 > 0,
        c.1 > 0,
        same(a, b),
    ensures
        same(sum(a, c), sum(b, c)),
{
    broadcast use vstd::arithmetic::mul::lemma_mul_is_distributive_add_other_way;
    broadcast use vstd::arithmetic::mul::lemma_mul_is_associative;
    broadcast use vstd::arithmetic::mul::lemma_mul_is_commutative;

    let (a0, a1, b0, b1, c0, c1) = (a.0, a.1, b.0, b.1, c.0, c.1);
    assert((a0 * c1 + c0 * a1) * (b1 * c1) == (a0 * c1) * (b1 * c1) + (c0 * a1) * (b1 * c1));
    assert((b0 * c1 + c0 * b1) * (a1 * c1) == (b0 * c1) * (a1 * c1) + (c0 * b1) * (a1 * c1));
    assert((a0 * c1) * (b1 * c1) == (a0 * b1) * (c1 * c1)) by (nonlinear_arith);
    assert((b0 * c1) * (a1 * c1) == (b0 * a1) * (c1 * c1)) by (nonlinear_arith);
    assert((c0 * a1) * (b1 * c1) == (c0 * b1) * (a1 * c1)) by (nonlinear_arith);
    assert((a0 * b1) * (c1 * c1) == (b0 * a1) * (c1 * c1));
}

/// Adding `a` then `b` to `s` gives the same fraction, term for term, as
/// adding `b` then `a`.
pub proof fn lemma_sum_swap(s: (int, int), a: (int, int), b: (int, int))
    ensures
        sum(sum(s, a), b) == sum(sum(s, b), a),
{
    let s0 = s.0;
    let s1 = s.1;
    let a0 = a.0;
    let a1 = a.1;
    let b0 = b.0;
    let b1 = b.1;
    assert((s0 * a1 + a0 * s1) * b1 + b0 * (s1 * a1) == (s0 * b1 + b0 * s1) * a1 + a0 * (s1 * b1))
        by (nonlinear_arith);
    assert((s1 * a1) * b1 == (s1 * b1) * a1) by (nonlinear_arith);
}

/// Adding equal fractions to a fraction gives equal sums.
pub proof fn lemma_sum_congruent_right(c: (int, int), a: (int, int), b: (int, int))
    requires
        a.1 > 0,
        b.1 > 0,
        c.1 > 0,
        same(a, b),
    ensures
        same(sum(c, a), sum(c, b)),
{
    lemma_sum_congruent(a, b, c);
    assert(same(sum(c, a), sum(a, c))) by (nonlinear_arith);
    assert(same(sum(c, b), sum(b, c))) by (nonlinear_arith);
    assert(sum(a, c).1 > 0 && sum(b, c).1 > 0 && sum(c, a).1 > 0) by (nonlinear_arith)
        requires
            a.1 > 0,
            b.1 > 0,
            c.1 > 0,
    ;
    lemma_same_trans(sum(c, a), sum(a, c), sum(b, c));
    lemma_same_trans(sum(c, a), sum(b, c), sum(c, b));
}

/// Subtracting equal fractions gives equal differences.
pub proof fn lemma_diff_congruent(a: (int, int), b: (int, int), c: (int, int))
    requires
        a.1 > 0,
        b.1 > 0,
        c.1 > 0,
        same(b, c),
    ensures
        same(diff(a, b), diff(a, c)),
{
    lemma_diff_cross(a.0, a.1, b.0, b.1, c.0, c.1);
}

proof fn lemma_diff_cross(a0: int, a1: int, b0: int, b1: int, c0: int, c1: int)
    requires
        b0 * c1 == c0 * b1,
    ensures
        (a0 * b1 - b0 * a1) * (a1 * c1) == (a0 * c1 - c0 * a1) * (a1 * b1),
{
    broadcast use vstd::arithmetic::mul::lemma_mul_is_distributive_sub_other_way;
    broadcast use vstd::arithmetic::mul::lemma_mul_is_associative;
    broadcast use vstd::arithmetic::mul::lemma_mul_is_commutative;

    assert((a0 * b1 - b0 * a1) * (a1 * c1) == (a0 * b1) * (a1 * c1) - (b0 * a1) * (a1 * c1));
    assert((a0 * c1 - c0 * a1) * (a1 * b1) == (a0 * c1) * (a1 * b1) - (c0 * a1) * (a1 * b1));
    assert((a0 * b1) * (a1 * c1) == (a0 * c1) * (a1 * b1)) by (nonlinear_arith);
    assert((b0 * a1) * (a1 * c1) == (b0 * c1) * (a1 * a1)) by (nonlinear_arith);
    assert((c0 * a1) * (a1 * b1) == (c0 * b1) * (a1 * a1)) by (nonlinear_arith);
}

/// A duration on the grid that denotes `n / d` (itself on the grid) lasts
/// `n * (GRID / d)` ticks, whatever its own representation.
pub proof fn lemma_ticks_same(b: Beat, n: int, d: int)
    requires
        b.on_grid(),
        d > 0,
        GRID as int % d == 0,
        same(b.value(), (n, d)),
    ensures
        b.ticks() == n * (GRID as int / d),
{
    let g = GRID as int;
    let k = g / d;
    let m = g / b.den as int;
    assert(k * d == g) by (nonlinear_arith)
        requires
            k == g / d,
            g % d == 0,
            d > 0,
    ;
    assert(m * b.den == g) by (nonlinear_arith)
        requires
            m == g / (b.den as int),
            g % (b.den as int) == 0,
            b.den > 0,
    ;
    assert(b.num * m == n * k) by (nonlinear_arith)
        requires
            b.num * d == n * b.den,
            k * d == g,
            m * b.den == g,
            b.den > 0,
            d > 0,
    {
        assert(b.num * m * b.den == b.num * g);
        assert(b.num * g == b.num * k * d);
        assert(b.num * k * d == n * b.den * k);
        assert((b.num * m - n * k) * b.den == 0);
    }
}

/// Truncating division gives the same result for equal fractions.
pub proof fn lemma_trunc_same(a: (int, int), b: (int, int))
    requires
        a.1 > 0,
        b.1 > 0,
        same(a, b),
    ensures
        trunc_div(a.0, a.1) == trunc_div(b.0, b.1),
{
    lemma_floor_same(a, b);
    assert(same((-a.0, a.1), (-b.0, b.1))) by (nonlinear_arith)
        requires
            a.0 * b.1 == b.0 * a.1,
    ;
    lemma_floor_same((-a.0, a.1), (-b.0, b.1));
    assert(a.0 >= 0 <==> b.0 >= 0) by (nonlinear_arith)
        requires
            a.0 * b.1 == b.0 * a.1,
            a.1 > 0,
            b.1 > 0,
    ;
}

/// Floor division gives the same result for equal fractions.
/// Equal fractions round down to the same integer.
pub proof fn lemma_floor_same(a: (int, int), b: (int, int))
    requires
        a.1 > 0,
        b.1 > 0,
        same(a, b),
    ensures
        a.0 / a.1 == b.0 / b.1,
{
    let q = a.0 / a.1;
    let r = a.0 % a.1;
    assert(a.0 == q * a.1 + r && 0 <= r < a.1) by (nonlinear_arith)
        requires
            a.1 > 0,
            q == a.0 / a.1,
            r == a.0 % a.1,
    ;
    // b.0 = q * b.1 + r * b.1 / a.1, with 0 <= r * b.1 / a.1 < b.1
    assert(q * b.1 <= b.0 < (q + 1) * b.1) by (nonlinear_arith)
        requires
            a.0 * b.1 == b.0 * a.1,
            a.0 == q * a.1 + r,
            0 <= r < a.1,
            a.1 > 0,
            b.1 > 0,
    {
        assert(b.0 * a.1 == q * a.1 * b.1 + r * b.1);
        assert(r * b.1 >= 0);
        assert(r * b.1 < a.1 * b.1);
    }
    assert(b.0 / b.1 == q) by (nonlinear_arith)
        requires
            q * b.1 <= b.0 < (q + 1) * b.1,
            b.1 > 0,
    ;
}

/// `euphony`'s `Beat + Beat`, which reduces its result. Claimed: the result
/// denotes the exact sum, its denominator divides the product of the two
/// denominators, and its numerator is at most the unreduced one.
#[verifier::external_body]
pub(crate) fn beat_add(a: Beat, b: Beat) -> (r: Beat)
    requires
        a.den > 0,
        b.den > 0,
        a.num * b.den + b.num * a.den <= u64::MAX,
        a.den * b.den <= u64::MAX,
    ensures
        r.den > 0,
        same(r.value(), sum(a.value(), b.value())),
        (a.den * b.den) as int % r.den as int == 0,
        r.num <= a.num * b.den + b.num * a.den,
{
    let s = euphony::prelude::Beat(a.num, a.den) + euphony::prelude::Beat(b.num, b.den);
    Beat { num: s.0, den: s.1 }
}

/// `euphony`'s `Beat - Beat` for `b <= a`, which reduces its result.
/// Claimed: the result denotes the exact difference, its denominator
/// divides the product of the two denominators, and its numerator is at
/// most `a.num * b.den`.
#[verifier::external_body]
pub(crate) fn beat_sub(a: Beat, b: Beat) -> (r: Beat)
    requires
        a.den > 0,
        b.den > 0,
        b.num * a.den <= a.num * b.den,
        a.num * b.den <= u64::MAX,
        a.den * b.den <= u64::MAX,
    ensures
        r.den > 0,
        same(r.value(), diff(a.value(), b.value())),
        (a.den * b.den) as int % r.den as int == 0,
        r.num <= a.num * b.den,
{
    let s = euphony::prelude::Beat(a.num, a.den) - euphony::prelude::Beat(b.num, b.den);
    Beat { num: s.0, den: s.1 }
}

/// `euphony`'s `Beat * u64`, which reduces its result. Claimed: the result
/// denotes the exact product, its denominator divides `a.den`, and its
/// numerator is at most `a.num * k`.
#[verifier::external_body]
pub(crate) fn beat_mul(a: Beat, k: u64) -> (r: Beat)
    requires
        a.den > 0,
        a.num * k <= u64::MAX,
    ensures
        r.den > 0,
        same(r.value(), (a.num * k, a.den as int)),
        a.den as int % r.den as int == 0,
        r.num <= a.num * k,
{
    let s = euphony::prelude::Beat(a.num, a.den) * k;
    Beat { num: s.0, den: s.1 }
}

/// `euphony`'s `Beat / u64` for `k > 0`, which reduces its result.
/// Claimed: the result denotes the exact quotient, its denominator divides
/// `a.den * k`, and its numerator is at most `a.num`.
#[verifier::external_body]
pub(crate) fn beat_div(a: Beat, k: u64) -> (r: Beat)
    requires
        a.den > 0,
        k > 0,
        a.den * k <= u64::MAX,
    ensures
        r.den > 0,
        same(r.value(), (a.num as int, a.den * k)),
        (a.den * k) as int % r.den as int == 0,
        r.num <= a.num,
{
    let s = euphony::prelude::Beat(a.num, a.den) / k;
    Beat { num: s.0, den: s.1 }
}

/// `euphony`'s `Interval + Interval`, which reduces its result. Claimed:
/// the result denotes the exact sum, its denominator is positive and
/// divides the product of the two, and its numerator is no larger in size
/// than the unreduced one.
#[verifier::external_body]
pub(crate) fn interval_add(a: Interval, b: Interval) -> (r: Interval)
    requires
        a.den > 0,
        b.den > 0,
        abs(a.num as int) * b.den + abs(b.num as int) * a.den <= i64::MAX,
        a.den * b.den <= i64::MAX,
    ensures
        r.den > 0,
        same(r.value(), sum(a.value(), b.value())),
        (a.den * b.den) as int % r.den as int == 0,
        abs(r.num as int) <= abs(a.num * b.den + b.num * a.den),
{
    let s = euphony::prelude::Interval(a.num, a.den) + euphony::prelude::Interval(b.num, b.den);
    Interval { num: s.0, den: s.1 }
}

/// `euphony`'s `Interval - Interval`, which reduces its result. Claimed:
/// the result denotes the exact difference, its denominator is positive
/// and divides the product of the two, and its numerator is no larger in
/// size than the unreduced one.
#[verifier::external_body]
pub(crate) fn interval_sub(a: Interval, b: Interval) -> (r: Interval)
    requires
        a.den > 0,
        b.den > 0,
        abs(a.num as int) * b.den + abs(b.num as int) * a.den <= i64::MAX,
        a.den * b.den <= i64::MAX,
    ensures
        r.den > 0,
        same(r.value(), diff(a.value(), b.value())),
        (a.den * b.den) as int % r.den as int == 0,
        abs(r.num as int) <= abs(a.num * b.den - b.num * a.den),
{
    let s = euphony::prelude::Interval(a.num, a.den) - euphony::prelude::Interval(b.num, b.den);
    Interval { num: s.0, den: s.1 }
}

/// `euphony`'s `Interval * i64`, which reduces its result. Claimed: the
/// result denotes the exact product, its denominator is positive and
/// divides `a.den`, and its numerator is no larger in size than `a.num * k`.
#[verifier::external_body]
pub(crate) fn interval_mul(a: Interval, k: i64) -> (r: Interval)
    requires
        a.den > 0,
        abs(a.num * k) <= i64::MAX,
    ensures
        r.den > 0,
        same(r.value(), (a.num * k, a.den as int)),
        a.den as int % r.den as int == 0,
        abs(r.num as int) <= abs(a.num * k),
{
    let s = euphony::prelude::Interval(a.num, a.den) * k;
    Interval { num: s.0, den: s.1 }
}

/// `euphony`'s `Interval::whole`. Claimed: the numerator divided by the
/// denominator, rounded towards zero.
#[verifier::external_body]
pub(crate) fn interval_whole(a: Interval) -> (r: i64)
    requires
        a.den > 0,
    ensures
        r == trunc_div(a.num as int, a.den as int),
{
    euphony::prelude::Interval(a.num, a.den).whole()
}

} // verus!
