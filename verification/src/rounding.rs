//! Rounding of exact rational values to single precision magnitudes.
//!
//! A finite magnitude pattern `m` (the low 31 bits of a number) stands for the
//! value `units(m)` in multiples of 2^-149, the smallest positive value. The
//! patterns are in the order of the values they stand for, so the neighbours of
//! a value are the neighbouring patterns.

use vstd::arithmetic::power2::*;
use vstd::prelude::*;

verus! {

/// The magnitude pattern of infinity: one past the largest finite pattern.
pub const INFINITE: u32 = 0x7f80_0000;

/// The power of two that the significand of a magnitude pattern is scaled by.
pub open spec fn exponent_of(m: nat) -> nat {
    if m < 0x80_0000 {
        0
    } else {
        (m / 0x80_0000 - 1) as nat
    }
}

/// The integer significand of a magnitude pattern.
pub open spec fn significand_of(m: nat) -> nat {
    if m < 0x80_0000 {
        m
    } else {
        0x80_0000 + m % 0x80_0000
    }
}

/// The value of a magnitude pattern, in multiples of 2^-149. The pattern of
/// infinity gets the value that follows the largest finite one.
pub open spec fn units(m: nat) -> nat {
    significand_of(m) * pow2(exponent_of(m))
}

/// `m` is the pattern whose value is nearest to `num / den`: the exact value
/// lies between the midpoints to the two neighbouring patterns, and on a
/// midpoint the even pattern is taken. Values past the midpoint above the
/// largest finite pattern go to infinity.
pub open spec fn is_nearest(m: nat, num: nat, den: nat) -> bool {
    &&& m <= INFINITE
    &&& m > 0 ==> {
        let low = (units((m - 1) as nat) + units(m)) * den;
        low < 2 * num || (low == 2 * num && m % 2 == 0)
    }
    &&& m < INFINITE ==> {
        let high = (units(m) + units(m + 1)) * den;
        2 * num < high || (2 * num == high && m % 2 == 0)
    }
}

/// The pattern nearest to `num / den`.
pub open spec fn nearest(num: nat, den: nat) -> nat {
    choose|m: nat| is_nearest(m, num, den)
}

/// A pattern given as exponent and significand has their product as its value.
/// The significand may be the one that carries into the next exponent.
proof fn lemma_units_split(e: nat, q: nat)
    requires
        q <= 0x100_0000,
        e > 0 ==> q >= 0x80_0000,
    ensures
        units((e * 0x80_0000 + q) as nat) == q * pow2(e),
{
    let m = (e * 0x80_0000 + q) as nat;
    lemma2_to64();
    if q < 0x80_0000 {
        assert(m == q);
    } else if q < 0x100_0000 {
        assert(exponent_of(m) == e);
        assert(significand_of(m) == q);
    } else {
        assert(exponent_of(m) == e + 1);
        assert(significand_of(m) == 0x80_0000);
        lemma_pow2_unfold(e + 1);
        assert(0x80_0000 * (2 * pow2(e)) == 0x100_0000 * pow2(e)) by (nonlinear_arith);
    }
}

/// The gap between the values of neighbouring patterns is the power of two of
/// the lower one's exponent.
proof fn lemma_units_step(m: nat)
    ensures
        units(m + 1) == units(m) + pow2(exponent_of(m)),
        units(m) < units(m + 1),
        significand_of(m) < 0x100_0000,
        m == exponent_of(m) * 0x80_0000 + significand_of(m),
        exponent_of(m) > 0 ==> significand_of(m) >= 0x80_0000,
{
    let e = exponent_of(m);
    let q = significand_of(m);
    lemma_units_split(e, q);
    lemma_units_split(e, q + 1);
    lemma_pow2_pos(e);
    assert((q + 1) * pow2(e) == q * pow2(e) + pow2(e)) by (nonlinear_arith);
}

/// Larger patterns stand for larger values.
pub proof fn lemma_units_increase(a: nat, b: nat)
    requires
        a < b,
    ensures
        units(a) < units(b),
    decreases b,
{
    lemma_units_step((b - 1) as nat);
    if a < b - 1 {
        lemma_units_increase(a, (b - 1) as nat);
    }
}

/// No exact value has two nearest patterns.
pub proof fn lemma_nearest_unique(a: nat, b: nat, num: nat, den: nat)
    requires
        den > 0,
        is_nearest(a, num, den),
        is_nearest(b, num, den),
    ensures
        a == b,
{
    if a < b {
        lemma_nearest_ordered(a, b, num, den);
    } else {
        lemma_nearest_ordered(b, a, num, den);
    }
}

proof fn lemma_nearest_ordered(a: nat, b: nat, num: nat, den: nat)
    requires
        den > 0,
        a <= b,
        is_nearest(a, num, den),
        is_nearest(b, num, den),
    ensures
        a == b,
{
    let high = units(a) + units(a + 1);
    let low = units((b - 1) as nat) + units(b);
    if a + 1 < b {
        lemma_units_increase(a, (b - 1) as nat);
        lemma_units_increase(a + 1, b);
        assert(high * den < low * den) by (nonlinear_arith)
            requires
                high < low,
                den > 0,
        ;
    }
}

/// A pattern that meets the definition is the nearest one.
pub proof fn lemma_nearest_is(m: nat, num: nat, den: nat)
    requires
        den > 0,
        is_nearest(m, num, den),
    ensures
        nearest(num, den) == m,
{
    lemma_nearest_unique(nearest(num, den), m, num, den);
}

/// A pattern at or below the exact value, with the value at or below the
/// midpoint to the next pattern, is nearest.
proof fn lemma_nearest_down(m: nat, num: nat, den: nat)
    requires
        den > 0,
        m < INFINITE,
        units(m) * den <= num,
        2 * num < (units(m) + units(m + 1)) * den || (2 * num == (units(m) + units(m + 1)) * den
            && m % 2 == 0),
    ensures
        is_nearest(m, num, den),
        nearest(num, den) == m,
{
    if m > 0 {
        let below = units((m - 1) as nat);
        let here = units(m);
        lemma_units_increase((m - 1) as nat, m);
        assert((below + here) * den < 2 * (here * den)) by (nonlinear_arith)
            requires
                below < here,
                den > 0,
        ;
    }
    lemma_nearest_is(m, num, den);
}

/// The pattern after the exact value, with the value at or above the midpoint
/// from the one before, is nearest.
proof fn lemma_nearest_up(m: nat, num: nat, den: nat)
    requires
        den > 0,
        m < INFINITE,
        num < units(m + 1) * den,
        2 * num > (units(m) + units(m + 1)) * den || (2 * num == (units(m) + units(m + 1)) * den
            && m % 2 == 1),
    ensures
        is_nearest(m + 1, num, den),
        nearest(num, den) == m + 1,
{
    if m + 1 < INFINITE {
        let here = units(m + 1);
        let above = units(m + 2);
        lemma_units_increase(m + 1, m + 2);
        assert(2 * (here * den) < (here + above) * den) by (nonlinear_arith)
            requires
                here < above,
                den > 0,
        ;
        assert(m + 1 + 1 == m + 2);
    }
    assert((m + 1 - 1) as nat == m);
    lemma_nearest_is(m + 1, num, den);
}

/// A value at or past the one that follows the largest finite pattern rounds
/// to infinity.
proof fn lemma_nearest_overflow(num: nat, den: nat)
    requires
        den > 0,
        num >= units(INFINITE as nat) * den,
    ensures
        is_nearest(INFINITE as nat, num, den),
        nearest(num, den) == INFINITE,
{
    let below = units((INFINITE - 1) as nat);
    let here = units(INFINITE as nat);
    lemma_units_increase((INFINITE - 1) as nat, INFINITE as nat);
    assert((below + here) * den < 2 * (here * den)) by (nonlinear_arith)
        requires
            below < here,
            den > 0,
    ;
    lemma_nearest_is(INFINITE as nat, num, den);
}

/// The zero pattern stands for zero.
pub proof fn lemma_units_zero()
    ensures
        units(0) == 0,
{
    assert(0 * pow2(0) == 0) by (nonlinear_arith);
}

/// A value below that of a pattern lies between two neighbouring patterns.
proof fn lemma_between_neighbours(num: nat, den: nat, above: nat) -> (m: nat)
    requires
        num < units(above) * den,
    ensures
        m < above,
        units(m) * den <= num < units(m + 1) * den,
    decreases above,
{
    if above == 0 {
        lemma_units_zero();
        assert(units(0) * den == 0) by (nonlinear_arith)
            requires
                units(0) == 0,
        ;
        0
    } else if units((above - 1) as nat) * den <= num {
        (above - 1) as nat
    } else {
        lemma_between_neighbours(num, den, (above - 1) as nat)
    }
}

/// Every exact value has a nearest pattern.
pub proof fn lemma_nearest_exists(num: nat, den: nat)
    requires
        den > 0,
    ensures
        is_nearest(nearest(num, den), num, den),
        nearest(num, den) <= INFINITE,
{
    if num >= units(INFINITE as nat) * den {
        lemma_nearest_overflow(num, den);
    } else {
        let m = lemma_between_neighbours(num, den, INFINITE as nat);
        let mid = (units(m) + units(m + 1)) * den;
        if 2 * num < mid || (2 * num == mid && m % 2 == 0) {
            lemma_nearest_down(m, num, den);
        } else {
            lemma_nearest_up(m, num, den);
        }
    }
}

/// Larger exact values round to no smaller patterns.
pub proof fn lemma_nearest_monotone(n1: nat, n2: nat, den: nat)
    requires
        den > 0,
        n1 <= n2,
    ensures
        nearest(n1, den) <= nearest(n2, den),
{
    lemma_nearest_exists(n1, den);
    lemma_nearest_exists(n2, den);
    let a = nearest(n1, den);
    let b = nearest(n2, den);
    if b < a {
        let high = units(b) + units(b + 1);
        let low = units((a - 1) as nat) + units(a);
        if b + 1 < a {
            lemma_units_increase(b, (a - 1) as nat);
            lemma_units_increase(b + 1, a);
            assert(high * den < low * den) by (nonlinear_arith)
                requires
                    high < low,
                    den > 0,
            ;
        }
    }
}

/// The value of a pattern rounds to the pattern.
pub proof fn lemma_nearest_exact(m: nat)
    requires
        m <= INFINITE,
    ensures
        nearest(units(m), 1) == m,
{
    if m < INFINITE {
        lemma_units_increase(m, m + 1);
        lemma_nearest_down(m, units(m), 1);
    } else {
        lemma_nearest_overflow(units(m), 1);
    }
}

/// Up to the value 2^(24 + e), rounding moves a value by no more than half of
/// 2^e.
pub proof fn lemma_nearest_error(num: nat, den: nat, e: nat)
    requires
        den > 0,
        e < 253,
        num <= 0x100_0000 * pow2(e) * den,
    ensures
        ({
            let near = units(nearest(num, den)) * den;
            &&& 2 * (near - num) <= pow2(e) * den
            &&& 2 * (num - near) <= pow2(e) * den
            &&& nearest(num, den) < INFINITE
        }),
{
    let top = (e * 0x80_0000 + 0x100_0000) as nat;
    let m = nearest(num, den);
    lemma_units_split(e, 0x100_0000);
    lemma_units_increase(top, INFINITE as nat);
    if num == units(top) * den {
        lemma_units_increase(top, top + 1);
        let here = units(top);
        let above = units(top + 1);
        assert(2 * (here * den) < (here + above) * den) by (nonlinear_arith)
            requires
                here < above,
                den > 0,
        ;
        lemma_nearest_down(top, num, den);
        assert(pow2(e) * den >= 0) by (nonlinear_arith);
    } else {
        let p = lemma_between_neighbours(num, den, top);
        lemma_units_step(p);
        let f = exponent_of(p);
        let step = pow2(f);
        if f < e {
            lemma_pow2_strictly_increases(f, e);
        }
        let low = units(p);
        let high = units(p + 1);
        assert(high * den == low * den + step * den) by (nonlinear_arith)
            requires
                high == low + step,
        ;
        assert((low + high) * den == low * den + high * den) by (nonlinear_arith);
        assert(step * den <= pow2(e) * den) by (nonlinear_arith)
            requires
                step <= pow2(e),
        ;
        let mid = (low + high) * den;
        if 2 * num < mid || (2 * num == mid && p % 2 == 0) {
            lemma_nearest_down(p, num, den);
        } else {
            lemma_nearest_up(p, num, den);
        }
    }
}

/// The largest power of two that is no larger than a count.
proof fn lemma_power_below(n: nat) -> (k: nat)
    requires
        n > 0,
    ensures
        pow2(k) <= n < pow2(k + 1),
    decreases n,
{
    lemma2_to64();
    if n == 1 {
        0
    } else {
        let j = lemma_power_below(n / 2);
        lemma_pow2_unfold(j + 1);
        lemma_pow2_unfold(j + 2);
        j + 1
    }
}

/// A count up to 2^24 is the value of the pattern nearest to it.
pub proof fn lemma_units_of_count(n: nat)
    requires
        0 < n <= 0x100_0000,
    ensures
        units(nearest(n * pow2(149), 1)) == n * pow2(149),
        nearest(n * pow2(149), 1) < INFINITE,
{
    lemma2_to64();
    let k = lemma_power_below(n);
    if n == 0x100_0000 {
        let m = (150 * 0x80_0000 + 0x80_0000) as nat;
        lemma_units_split(150, 0x80_0000);
        lemma_pow2_adds(1, 149);
        assert(0x80_0000 * (2 * pow2(149)) == 0x100_0000 * pow2(149)) by (nonlinear_arith);
        lemma_nearest_exact(m);
    } else {
        if k >= 24 {
            if k > 24 {
                lemma_pow2_strictly_increases(24, k);
            }
        }
        let shift = (23 - k) as nat;
        let e = (126 + k) as nat;
        let q = n * pow2(shift);
        let m = (e * 0x80_0000 + q) as nat;
        lemma_pow2_adds(k, shift);
        lemma_pow2_adds(k + 1, shift);
        lemma_pow2_adds(shift, e);
        lemma_pow2_pos(shift);
        assert(0x80_0000 <= q < 0x100_0000) by (nonlinear_arith)
            requires
                q == n * pow2(shift),
                pow2(k) * pow2(shift) == 0x80_0000,
                pow2(k + 1) * pow2(shift) == 0x100_0000,
                pow2(k) <= n < pow2(k + 1),
                pow2(shift) > 0,
        ;
        lemma_units_split(e, q);
        assert(n * pow2(shift) * pow2(e) == n * (pow2(shift) * pow2(e))) by (nonlinear_arith);
        lemma_nearest_exact(m);
    }
}

/// The pattern of a count is past the first exponent, and the gap above it is
/// more than the count times 2^125.
pub proof fn lemma_units_gap(n: nat)
    requires
        0 < n <= 0x100_0000,
    ensures
        ({
            let m = nearest(n * pow2(149), 1);
            &&& 0 < m < INFINITE
            &&& exponent_of(m) > 0
            &&& units(m) == n * pow2(149)
            &&& n * pow2(125) < pow2(exponent_of(m))
        }),
{
    let m = nearest(n * pow2(149), 1);
    let e = exponent_of(m);
    let q = significand_of(m);
    lemma_units_of_count(n);
    lemma_units_step(m);
    lemma2_to64();
    lemma_pow2_adds(24, 125);
    lemma_pow2_pos(125);
    lemma_pow2_pos(e);
    assert(n * pow2(125) < pow2(e) && n * pow2(125) >= pow2(125)) by (nonlinear_arith)
        requires
            q * pow2(e) == n * pow2(149),
            q < 0x100_0000,
            0x100_0000 * pow2(125) == pow2(149),
            n >= 1,
            pow2(e) > 0,
            pow2(125) > 0,
    ;
    if e == 0 {
        lemma_pow2_strictly_increases(0, 125);
    }
    if m == 0 {
        lemma_units_zero();
    }
}

/// The nearest pattern depends on the value of a fraction only.
pub proof fn lemma_nearest_scaled(num: nat, den: nat, k: nat)
    requires
        den > 0,
        k > 0,
    ensures
        nearest(num * k, den * k) == nearest(num, den),
        den * k > 0,
{
    let m = nearest(num, den);
    let low = units((m - 1) as nat) + units(m);
    let high = units(m) + units(m + 1);
    lemma_nearest_exists(num, den);
    assert(den * k > 0) by (nonlinear_arith)
        requires
            den > 0,
            k > 0,
    ;
    assert(low * (den * k) == (low * den) * k && high * (den * k) == (high * den) * k && 2 * (num
        * k) == (2 * num) * k) by (nonlinear_arith);
    assert(low * den < 2 * num ==> (low * den) * k < (2 * num) * k) by (nonlinear_arith)
        requires
            k > 0,
    ;
    assert(2 * num < high * den ==> (2 * num) * k < (high * den) * k) by (nonlinear_arith)
        requires
            k > 0,
    ;
    lemma_nearest_is(m, num * k, den * k);
}

/// One half is held exactly.
pub proof fn lemma_nearest_half()
    ensures
        nearest(pow2(149), 2) < INFINITE,
        units(nearest(pow2(149), 2)) == pow2(148),
{
    let m = (125 * 0x80_0000 + 0x80_0000) as nat;
    lemma2_to64();
    lemma_pow2_adds(23, 125);
    lemma_pow2_adds(1, 148);
    lemma_units_split(125, 0x80_0000);
    lemma_units_increase(m, m + 1);
    lemma_nearest_down(m, pow2(149), 2);
}

/// The number nearest to 0.6 is two fifths of 2^-24 above it, and the next one
/// follows at 2^-24.
pub proof fn lemma_nearest_three_fifths()
    ensures
        ({
            let m = nearest(3 * pow2(149), 5);
            &&& m < INFINITE
            &&& units(m) == 10066330 * pow2(125)
            &&& units(m + 1) == 10066331 * pow2(125)
        }),
{
    let m = (125 * 0x80_0000 + 10066330) as nat;
    lemma2_to64();
    lemma_pow2_pos(125);
    lemma_pow2_adds(24, 125);
    lemma_units_split(125, 10066329);
    lemma_units_split(125, 10066330);
    lemma_units_split(125, 10066331);
    lemma_nearest_is(m, 3 * pow2(149), 5);
}

/// The number nearest to 0.8 is a fifth of 2^-24 above it.
pub proof fn lemma_nearest_four_fifths()
    ensures
        nearest(4 * pow2(149), 5) < INFINITE,
        units(nearest(4 * pow2(149), 5)) == 13421773 * pow2(125),
{
    let h = pow2(125);
    let m = (125 * 0x80_0000 + 13421773) as nat;
    lemma2_to64();
    lemma_pow2_pos(125);
    lemma_pow2_adds(24, 125);
    lemma_units_split(125, 13421772);
    lemma_units_split(125, 13421773);
    lemma_units_split(125, 13421774);
    lemma_nearest_is(m, 4 * pow2(149), 5);
}

/// Zero is nearest to zero.
pub proof fn lemma_nearest_zero(den: nat)
    requires
        den > 0,
    ensures
        nearest(0, den) == 0,
{
    lemma_units_zero();
    lemma_units_split(0, 1);
    lemma2_to64();
    lemma_nearest_down(0, 0, den);
}

/// A value within a quarter of the gap above a pattern rounds to it.
pub proof fn lemma_nearest_close(m: nat, n: nat)
    requires
        0 < m < INFINITE,
        exponent_of(m) > 0,
        4 * (n - units(m)) < pow2(exponent_of(m)),
        4 * (units(m) - n) < pow2(exponent_of(m)),
    ensures
        nearest(n, 1) == m,
{
    let e = exponent_of(m);
    let before = (m - 1) as nat;
    lemma_units_step(m);
    lemma_units_step(before);
    lemma_pow2_unfold(e);
    assert(exponent_of(before) >= e - 1);
    if exponent_of(before) > e - 1 {
        lemma_pow2_strictly_increases((e - 1) as nat, exponent_of(before));
    }
    lemma_nearest_is(m, n, 1);
}

/// Where `value / den` lies between `lo` and `hi` times 2^(kp - kn), a multiple
/// `c` of 2^s on that scale compares with `lo` and `hi` as `c` times 2^e
/// compares with the value.
proof fn lemma_rescale(
    c: nat,
    lo: nat,
    hi: nat,
    s: nat,
    kp: nat,
    kn: nat,
    e: nat,
    value: nat,
    den: nat,
)
    requires
        e + kn == s + kp,
        den > 0,
    ensures
        lo * (pow2(kp) * den) <= value * pow2(kn) && c * pow2(s) <= lo ==> (c * pow2(e)) * den
            <= value,
        lo * (pow2(kp) * den) < value * pow2(kn) && c * pow2(s) <= lo ==> (c * pow2(e)) * den
            < value,
        lo * (pow2(kp) * den) <= value * pow2(kn) && c * pow2(s) < lo ==> (c * pow2(e)) * den
            < value,
        value * pow2(kn) < hi * (pow2(kp) * den) && hi <= c * pow2(s) ==> value < (c * pow2(e))
            * den,
        lo * (pow2(kp) * den) == value * pow2(kn) && c * pow2(s) == lo ==> (c * pow2(e)) * den
            == value,
{
    let x = (c * pow2(e)) * den;
    let a = pow2(kn);
    let y = c * pow2(s);
    let w = pow2(kp) * den;
    lemma_pow2_pos(kn);
    lemma_pow2_pos(kp);
    lemma_pow2_adds(e, kn);
    lemma_pow2_adds(s, kp);
    assert(pow2(e) * pow2(kn) == pow2(s) * pow2(kp));
    assert(x * a == y * w) by (nonlinear_arith)
        requires
            x == (c * pow2(e)) * den,
            a == pow2(kn),
            y == c * pow2(s),
            w == pow2(kp) * den,
            pow2(e) * pow2(kn) == pow2(s) * pow2(kp),
    ;
    assert(w > 0) by (nonlinear_arith)
        requires
            w == pow2(kp) * den,
            pow2(kp) > 0,
            den > 0,
    ;
    if y <= lo {
        assert(y * w <= lo * w) by (nonlinear_arith)
            requires
                y <= lo,
                w > 0,
        ;
    }
    if y < lo {
        assert(y * w < lo * w) by (nonlinear_arith)
            requires
                y < lo,
                w > 0,
        ;
    }
    if hi <= y {
        assert(hi * w <= y * w) by (nonlinear_arith)
            requires
                hi <= y,
                w > 0,
        ;
    }
    assert(x * a <= value * a ==> x <= value) by (nonlinear_arith)
        requires
            a > 0,
    ;
    assert(x * a < value * a ==> x < value) by (nonlinear_arith)
        requires
            a > 0,
    ;
    assert(value * a < x * a ==> value < x) by (nonlinear_arith)
        requires
            a > 0,
    ;
    assert(value * a == x * a ==> value == x) by (nonlinear_arith)
        requires
            a > 0,
    ;
}

/// 2^s.
fn power_of_two(s: u32) -> (p: u128)
    requires
        s <= 120,
    ensures
        p == pow2(s as nat),
{
    let mut p: u128 = 1;
    let mut i: u32 = 0;
    proof {
        lemma2_to64();
        lemma_power_fits();
    }
    while i < s
        invariant
            i <= s <= 120,
            p == pow2(i as nat),
            pow2(120) <= 0x100_0000_0000_0000_0000_0000_0000_0000,
        decreases s - i,
    {
        proof {
            lemma_pow2_unfold((i + 1) as nat);
            if i + 1 < 120 {
                lemma_pow2_strictly_increases((i + 1) as nat, 120);
            }
        }
        p = p * 2;
        i = i + 1;
    }
    p
}

/// 2^s for the shifts that align two significands.
pub(crate) fn small_power_of_two(s: u32) -> (p: u64)
    requires
        s < 26,
    ensures
        p == pow2(s as nat),
        1 <= p <= 0x200_0000,
{
    proof {
        lemma2_to64();
        lemma_pow2_pos(s as nat);
        if s < 25 {
            lemma_pow2_strictly_increases(s as nat, 25);
        }
    }
    power_of_two(s) as u64
}

proof fn lemma_power_fits()
    ensures
        pow2(96) == 0x1_0000_0000_0000_0000_0000_0000,
        pow2(120) == 0x100_0000_0000_0000_0000_0000_0000_0000,
{
    lemma2_to64();
    lemma2_to64_rest();
    lemma_pow2_adds(60, 60);
    lemma_pow2_adds(48, 48);
}

/// The number of binary digits of a positive number.
fn digits_of(n: u128) -> (len: u32)
    requires
        0 < n < pow2(96),
    ensures
        1 <= len <= 96,
        pow2((len - 1) as nat) <= n < pow2(len as nat),
{
    let mut len: u32 = 1;
    let mut p: u128 = 2;
    proof {
        lemma2_to64();
        lemma_power_fits();
    }
    while p <= n
        invariant
            1 <= len <= 96,
            p == pow2(len as nat),
            pow2((len - 1) as nat) <= n < pow2(96),
            pow2(96) == 0x1_0000_0000_0000_0000_0000_0000,
        decreases 96 - len,
    {
        proof {
            if len >= 96 {
                assert(len == 96);
            }
            lemma_pow2_unfold((len + 1) as nat);
        }
        p = p * 2;
        len = len + 1;
    }
    len
}

/// A number of at least 2^b has more than `b` binary digits.
proof fn lemma_digits_at_least(n: nat, len: nat, b: nat)
    requires
        pow2(b) <= n < pow2(len),
    ensures
        len > b,
{
    if len < b {
        lemma_pow2_strictly_increases(len, b);
    }
}

/// Shifting a number of `len` digits up to at most 24 digits.
proof fn lemma_shift_up(n: nat, len: nat, t: nat)
    requires
        1 <= len,
        t + len <= 24,
        pow2((len - 1) as nat) <= n < pow2(len),
    ensures
        n * pow2(t) < 0x100_0000,
        t + len == 24 ==> n * pow2(t) >= 0x80_0000,
        1 <= pow2(t) <= 0x100_0000,
{
    lemma2_to64();
    lemma_pow2_pos(t);
    lemma_pow2_adds(len, t);
    lemma_pow2_adds((len - 1) as nat, t);
    assert(n * pow2(t) < pow2(len) * pow2(t)) by (nonlinear_arith)
        requires
            n < pow2(len),
            pow2(t) > 0,
    ;
    assert(n * pow2(t) >= pow2((len - 1) as nat) * pow2(t)) by (nonlinear_arith)
        requires
            n >= pow2((len - 1) as nat),
    ;
    if len + t < 24 {
        lemma_pow2_strictly_increases(len + t, 24);
    }
    lemma_pow2_strictly_increases(t, 24);
}

/// An exact value on a scale that is shifted up by `t` digits.
proof fn lemma_exact_scale(
    n: nat,
    q: nat,
    t: nat,
    kp: nat,
    kn: nat,
    e: nat,
    num: nat,
    den: nat,
)
    requires
        e + kn + t == kp,
        q == n * pow2(t),
        n * (pow2(kp) * den) == num * pow2(kn),
    ensures
        (q * pow2(e)) * den == num,
{
    let a = pow2(kn);
    let b = pow2(e);
    let c = pow2(t);
    lemma_pow2_pos(kn);
    lemma_pow2_adds(e, kn);
    lemma_pow2_adds(e + kn, t);
    assert(pow2(kp) == b * a * c);
    assert(((n * c) * b) * den * a == n * ((b * a * c) * den)) by (nonlinear_arith);
    assert(((n * c) * b) * den * a == num * a);
    assert(((n * c) * b) * den == num) by (nonlinear_arith)
        requires
            ((n * c) * b) * den * a == num * a,
            a > 0,
    ;
}

/// A value with its leading digit past the largest exponent overflows.
proof fn lemma_overflow_scale(
    n: nat,
    len: nat,
    kp: nat,
    kn: nat,
    e: nat,
    num: nat,
    den: nat,
)
    requires
        1 <= len,
        e >= 254,
        e + 24 + kn == len + kp,
        den > 0,
        pow2((len - 1) as nat) <= n,
        n * (pow2(kp) * den) <= num * pow2(kn),
    ensures
        num >= units(INFINITE as nat) * den,
{
    let big = pow2(e + 23);
    lemma_rescale(1, n, n, (len - 1) as nat, kp, kn, e + 23, num, den);
    lemma2_to64();
    lemma_pow2_adds(23, 254);
    assert(units(INFINITE as nat) == pow2(277));
    if e > 254 {
        lemma_pow2_strictly_increases(277, e + 23);
    }
    assert(pow2(277) * den <= big * den) by (nonlinear_arith)
        requires
            pow2(277) <= big,
            den > 0,
    ;
}

/// A value of fewer digits than are shifted out rounds to zero.
proof fn lemma_far_below(n: nat, s: nat, kp: nat, kn: nat, num: nat, den: nat)
    requires
        n < pow2(96),
        s > 100,
        kn == s + kp,
        den > 0,
        num * pow2(kn) < (n + 1) * (pow2(kp) * den),
    ensures
        nearest(num, den) == 0,
{
    lemma_pow2_unfold(s);
    lemma_pow2_strictly_increases(96, (s - 1) as nat);
    lemma2_to64();
    let w = pow2(kp) * den;
    assert((2 * num) * pow2(kn) < (2 * n + 2) * w) by (nonlinear_arith)
        requires
            num * pow2(kn) < (n + 1) * w,
    ;
    lemma_rescale(1, 2 * n, 2 * n + 2, s, kp, kn, 0, 2 * num, den);
    lemma_units_split(0, 0);
    lemma_units_split(0, 1);
    lemma_nearest_down(0, num, den);
}

/// Shifting a number of `len` digits down to at most 24 digits.
proof fn lemma_shift_down(n: nat, len: nat, s: nat)
    requires
        1 <= len,
        len <= s + 24,
        pow2((len - 1) as nat) <= n < pow2(len),
    ensures
        n / pow2(s) < 0x100_0000,
        len == s + 24 ==> n / pow2(s) >= 0x80_0000,
{
    lemma2_to64();
    let p = pow2(s);
    let q = n / p;
    lemma_pow2_pos(s);
    lemma_pow2_adds(24, s);
    lemma_pow2_adds(23, s);
    if len < s + 24 {
        lemma_pow2_strictly_increases(len, s + 24);
    }
    vstd::arithmetic::div_mod::lemma_fundamental_div_mod(n as int, p as int);
    assert(q < 0x100_0000) by (nonlinear_arith)
        requires
            n < 0x100_0000 * p,
            n == p * q + n % p,
            n % p >= 0,
            p > 0,
    ;
    if len == s + 24 {
        assert((len - 1) as nat == 23 + s);
        assert(q >= 0x80_0000) by (nonlinear_arith)
            requires
                n >= 0x80_0000 * p,
                n == p * q + n % p,
                n % p < p,
                p > 0,
        ;
    }
}

/// The digits shifted out decide between a pattern and the next one.
proof fn lemma_round_shifted(
    n: nat,
    q: nat,
    s: nat,
    kp: nat,
    kn: nat,
    e: nat,
    inexact: bool,
    num: nat,
    den: nat,
)
    requires
        s > 0,
        e + kn == s + kp,
        den > 0,
        e < 254,
        q == n / pow2(s),
        q < 0x100_0000,
        e > 0 ==> q >= 0x80_0000,
        !inexact ==> n * (pow2(kp) * den) == num * pow2(kn),
        inexact ==> n * (pow2(kp) * den) < num * pow2(kn) < (n + 1) * (pow2(kp) * den),
    ensures
        ({
            let m = (e * 0x80_0000 + q) as nat;
            let rest = n % pow2(s);
            let half = pow2((s - 1) as nat);
            let up = rest > half || (rest == half && (inexact || q % 2 == 1));
            &&& m < INFINITE
            &&& nearest(num, den) == (if up {
                m + 1
            } else {
                m
            })
        }),
{
    let m = (e * 0x80_0000 + q) as nat;
    let p = pow2(s);
    let rest = n % p;
    let half = pow2((s - 1) as nat);
    let w = pow2(kp) * den;
    lemma_pow2_pos(s);
    lemma_pow2_pos(kp);
    lemma_pow2_unfold(s);
    vstd::arithmetic::div_mod::lemma_fundamental_div_mod(n as int, p as int);
    assert(p * q == q * p) by (nonlinear_arith);
    assert((q + 1) * p == q * p + p) by (nonlinear_arith);
    assert((2 * q + 1) * p == 2 * (q * p) + 2 * half) by (nonlinear_arith)
        requires
            p == 2 * half,
    ;
    assert(n * w < (n + 1) * w) by (nonlinear_arith)
        requires
            w == pow2(kp) * den,
            pow2(kp) > 0,
            den > 0,
    ;
    assert(num * pow2(kn) < (n + 1) * w);
    assert((2 * num) * pow2(kn) < (2 * n + 2) * w) by (nonlinear_arith)
        requires
            num * pow2(kn) < (n + 1) * w,
    ;
    assert(inexact ==> (2 * n) * w < (2 * num) * pow2(kn)) by (nonlinear_arith)
        requires
            inexact ==> n * w < num * pow2(kn),
    ;
    assert(!inexact ==> (2 * n) * w == (2 * num) * pow2(kn)) by (nonlinear_arith)
        requires
            !inexact ==> n * w == num * pow2(kn),
    ;
    lemma_rescale(q, n, n + 1, s, kp, kn, e, num, den);
    lemma_rescale(q + 1, n, n + 1, s, kp, kn, e, num, den);
    lemma_rescale(2 * q + 1, 2 * n, 2 * n + 2, s, kp, kn, e, 2 * num, den);
    lemma_units_split(e, q);
    lemma_units_split(e, q + 1);
    assert((e * 0x80_0000 + (q + 1)) as nat == m + 1);
    assert(q * pow2(e) + (q + 1) * pow2(e) == (2 * q + 1) * pow2(e)) by (nonlinear_arith);
    assert(m % 2 == q % 2);
    if rest > half || (rest == half && (inexact || q % 2 == 1)) {
        lemma_nearest_up(m, num, den);
    } else {
        lemma_nearest_down(m, num, den);
    }
}

/// Rounds an exact value `num / den` that is known to lie at `n` times
/// 2^(kp - kn), or, with `inexact`, strictly between that and the next multiple.
pub(crate) fn round_magnitude(
    n: u128,
    kp: u32,
    kn: u32,
    inexact: bool,
    Ghost(num): Ghost<nat>,
    Ghost(den): Ghost<nat>,
) -> (m: u32)
    requires
        0 < n < pow2(96),
        kp <= 1000,
        kn <= 1000,
        den > 0,
        inexact ==> n >= pow2(25),
        !inexact ==> n * (pow2(kp as nat) * den) == num * pow2(kn as nat),
        inexact ==> n * (pow2(kp as nat) * den) < num * pow2(kn as nat) < (n + 1) * (pow2(
            kp as nat,
        ) * den),
    ensures
        m <= INFINITE,
        m == nearest(num, den),
{
    let ghost base = pow2(kp as nat) * den;
    proof {
        lemma_pow2_pos(kp as nat);
        assert(base > 0) by (nonlinear_arith)
            requires
                base == pow2(kp as nat) * den,
                pow2(kp as nat) > 0,
                den > 0,
        ;
        assert(n * base < (n + 1) * base) by (nonlinear_arith)
            requires
                base > 0,
        ;
        lemma2_to64();
    }
    let len: u32 = digits_of(n);
    let k: i64 = kp as i64 - kn as i64;
    let want: i64 = len as i64 - 24 + k;
    let e: i64 = if want > 0 {
        want
    } else {
        0
    };
    if e >= 254 {
        proof {
            lemma_overflow_scale(n as nat, len as nat, kp as nat, kn as nat, e as nat, num, den);
            lemma_nearest_overflow(num, den);
        }
        return INFINITE;
    }
    let s: i64 = e - k;
    if s <= 0 {
        let t: u32 = (-s) as u32;
        proof {
            if inexact {
                lemma_digits_at_least(n as nat, len as nat, 25);
            }
            lemma_shift_up(n as nat, len as nat, t as nat);
        }
        let q: u32 = (n * power_of_two(t)) as u32;
        let m: u32 = e as u32 * 0x80_0000 + q;
        proof {
            lemma_exact_scale(
                n as nat,
                q as nat,
                t as nat,
                kp as nat,
                kn as nat,
                e as nat,
                num,
                den,
            );
            lemma_units_split(e as nat, q as nat);
            lemma_units_increase(m as nat, (m + 1) as nat);
            let here = units(m as nat);
            let next = units((m + 1) as nat);
            assert(2 * (here * den) < (here + next) * den) by (nonlinear_arith)
                requires
                    here < next,
                    den > 0,
            ;
            lemma_nearest_down(m as nat, num, den);
        }
        m
    } else if s > 100 {
        proof {
            lemma_far_below(n as nat, s as nat, kp as nat, kn as nat, num, den);
        }
        0
    } else {
        let shift: u32 = s as u32;
        let p: u128 = power_of_two(shift);
        let half: u128 = power_of_two(shift - 1);
        proof {
            lemma_pow2_pos(shift as nat);
            lemma_shift_down(n as nat, len as nat, shift as nat);
        }
        let q: u32 = (n / p) as u32;
        let rest: u128 = n % p;
        let m: u32 = e as u32 * 0x80_0000 + q;
        let up: bool = rest > half || (rest == half && (inexact || q % 2 == 1));
        proof {
            lemma_round_shifted(
                n as nat,
                q as nat,
                shift as nat,
                kp as nat,
                kn as nat,
                e as nat,
                inexact,
                num,
                den,
            );
        }
        if up {
            m + 1
        } else {
            m
        }
    }
}

} // verus!
