//! What arithmetic on single precision numbers gives: the closest number to the
//! exact result, ties to even, and what becomes of infinities, zeros and NaN.

use crate::rounding;
use crate::rounding::INFINITE;
use crate::single;
use crate::single::Single;
use vstd::arithmetic::power2::*;
use vstd::prelude::*;

verus! {

/// How far two values are apart.
pub open spec fn apart(a: int, b: int) -> int {
    if a < b {
        b - a
    } else {
        a - b
    }
}

/// No pattern is closer to a value than the nearest one.
pub proof fn lemma_closest(num: nat, den: nat, c: nat)
    requires
        den > 0,
        c <= INFINITE,
    ensures
        apart(
            (rounding::units(rounding::nearest(num, den)) * den) as int,
            num as int,
        ) <= apart((rounding::units(c) * den) as int, num as int),
{
    let m = rounding::nearest(num, den);
    rounding::lemma_nearest_exists(num, den);
    let here = rounding::units(m) * den;
    let there = rounding::units(c) * den;
    if c < m {
        let below = rounding::units((m - 1) as nat);
        if c < m - 1 {
            rounding::lemma_units_increase(c, (m - 1) as nat);
        }
        rounding::lemma_units_increase(c, m);
        assert(there <= below * den && there <= here && (below + rounding::units(m)) * den == below
            * den + here) by (nonlinear_arith)
            requires
                here == rounding::units(m) * den,
                there == rounding::units(c) * den,
                rounding::units(c) <= below,
                rounding::units(c) <= rounding::units(m),
        ;
    } else if m < c {
        let above = rounding::units(m + 1);
        if m + 1 < c {
            rounding::lemma_units_increase(m + 1, c);
        }
        rounding::lemma_units_increase(m, c);
        assert(there >= above * den && there >= here && (rounding::units(m) + above) * den == here
            + above * den) by (nonlinear_arith)
            requires
                here == rounding::units(m) * den,
                there == rounding::units(c) * den,
                rounding::units(c) >= above,
                rounding::units(c) >= rounding::units(m),
        ;
    }
}

/// A value halfway between two neighbouring patterns rounds to the even one.
pub proof fn lemma_tie(m: nat)
    requires
        m < INFINITE,
    ensures
        rounding::nearest(rounding::units(m) + rounding::units(m + 1), 2) == if m % 2 == 0 {
            m
        } else {
            m + 1
        },
{
    let num = rounding::units(m) + rounding::units(m + 1);
    rounding::lemma_units_increase(m, m + 1);
    rounding::lemma_units_increase(m + 1, m + 2);
    if m > 0 {
        rounding::lemma_units_increase((m - 1) as nat, m);
    }
    if m % 2 == 0 {
        assert(rounding::is_nearest(m, num, 2));
        rounding::lemma_nearest_is(m, num, 2);
    } else {
        assert(rounding::is_nearest(m + 1, num, 2));
        rounding::lemma_nearest_is(m + 1, num, 2);
    }
}

/// The number of the opposite sign has the opposite value; without its sign, a
/// number has the size of its value.
pub proof fn lemma_signs(a: Single)
    ensures
        a.opposite().magnitude() == a.magnitude(),
        a.opposite().negative() == !a.negative(),
        a.opposite().value() == -a.value(),
        a.size().magnitude() == a.magnitude(),
        !a.size().negative(),
        a.size().value() == if a.value() < 0 {
            -a.value()
        } else {
            a.value()
        },
{
}

proof fn lemma_closest_rounded(negative: bool, num: nat, den: nat, c: Single)
    requires
        den > 0,
        c.finite(),
    ensures
        ({
            let r = single::rounded(negative, num, den);
            let exact = if negative {
                -(num as int)
            } else {
                num as int
            };
            &&& !r.nan()
            &&& r.negative() == negative
            &&& apart(r.value() * den, exact) <= apart(c.value() * den, exact)
        }),
{
    let m = rounding::nearest(num, den);
    let r = single::rounded(negative, num, den);
    rounding::lemma_nearest_exists(num, den);
    assert(r.magnitude() == m);
    lemma_closest(num, den, c.magnitude());
    lemma_closest(num, den, 0);
    rounding::lemma_units_zero();
    let u = rounding::units(m) as int;
    let v = rounding::units(c.magnitude()) as int;
    assert((-u) * den == -(u * den)) by (nonlinear_arith);
    assert((-v) * den == -(v * den)) by (nonlinear_arith);
    assert(v * den >= 0) by (nonlinear_arith)
        requires
            v >= 0,
            den > 0,
    ;
}

/// A sum of finite numbers is as close to the exact sum as any finite number.
pub proof fn lemma_sum(a: Single, b: Single, c: Single)
    requires
        a.finite(),
        b.finite(),
        c.finite(),
    ensures
        !a.plus(b).nan(),
        apart(a.plus(b).value(), a.value() + b.value()) <= apart(
            c.value(),
            a.value() + b.value(),
        ),
        a.plus(b) == b.plus(a),
{
    let exact = a.value() + b.value();
    if exact < 0 {
        lemma_closest_rounded(true, (-exact) as nat, 1, c);
    } else if exact > 0 {
        lemma_closest_rounded(false, exact as nat, 1, c);
    } else {
        rounding::lemma_units_zero();
    }
}

/// A difference of finite numbers is as close to the exact difference as any
/// finite number.
pub proof fn lemma_difference(a: Single, b: Single, c: Single)
    requires
        a.finite(),
        b.finite(),
        c.finite(),
    ensures
        !a.minus(b).nan(),
        apart(a.minus(b).value(), a.value() - b.value()) <= apart(
            c.value(),
            a.value() - b.value(),
        ),
{
    lemma_signs(b);
    lemma_sum(a, b.opposite(), c);
}

/// A product of finite numbers is as close to the exact product as any finite
/// number, and negative where one of them is.
pub proof fn lemma_product(a: Single, b: Single, c: Single)
    requires
        a.finite(),
        b.finite(),
        c.finite(),
    ensures
        !a.times(b).nan(),
        a.times(b).negative() == (a.negative() != b.negative()),
        apart(a.times(b).value() * pow2(149), a.value() * b.value()) <= apart(
            c.value() * pow2(149),
            a.value() * b.value(),
        ),
{
    let u = rounding::units(a.magnitude());
    let v = rounding::units(b.magnitude());
    lemma_pow2_pos(149);
    lemma_closest_rounded(a.negative() != b.negative(), u * v, pow2(149), c);
    assert(-((u * v) as int) == (-(u as int)) * v && -((u * v) as int) == u * (-(v as int)) && u * v
        == (-(u as int)) * (-(v as int))) by (nonlinear_arith);
}

/// A quotient of finite numbers, the second one not zero, is as close to the
/// exact quotient as any finite number, and negative where one of them is.
pub proof fn lemma_quotient(a: Single, b: Single, c: Single)
    requires
        a.finite(),
        b.finite(),
        !b.zero(),
        c.finite(),
    ensures
        !a.over(b).nan(),
        a.over(b).negative() == (a.negative() != b.negative()),
        apart(a.over(b).value() * b.value(), a.value() * pow2(149)) <= apart(
            c.value() * b.value(),
            a.value() * pow2(149),
        ),
{
    let u = rounding::units(a.magnitude()) as int;
    let v = rounding::units(b.magnitude()) as int;
    let p = pow2(149) as int;
    let negative = a.negative() != b.negative();
    rounding::lemma_units_zero();
    rounding::lemma_units_increase(0, b.magnitude());
    lemma_closest_rounded(
        negative,
        rounding::units(a.magnitude()) * pow2(149),
        rounding::units(b.magnitude()),
        c,
    );
    let r = a.over(b).value();
    let d = c.value();
    assert(r * (-v) == -(r * v)) by (nonlinear_arith);
    assert(d * (-v) == -(d * v)) by (nonlinear_arith);
    assert((-u) * p == -(u * p)) by (nonlinear_arith);
}

/// Which operations have no number as their result: those on NaN, the sum of
/// opposite infinities, the product of infinity and zero, and the quotients of
/// infinities and of zeros.
pub proof fn lemma_no_number(a: Single, b: Single)
    ensures
        a.plus(b).nan() <==> a.nan() || b.nan() || (a.infinite() && b.infinite() && a.negative()
            != b.negative()),
        a.minus(b).nan() <==> a.nan() || b.nan() || (a.infinite() && b.infinite() && a.negative()
            == b.negative()),
        a.times(b).nan() <==> a.nan() || b.nan() || (a.infinite() && b.zero()) || (a.zero()
            && b.infinite()),
        a.over(b).nan() <==> a.nan() || b.nan() || (a.infinite() && b.infinite()) || (a.zero()
            && b.zero()),
{
    lemma_signs(b);
    if a.finite() && b.finite() {
        lemma_sum(a, b, a);
        lemma_difference(a, b, a);
        lemma_product(a, b, a);
        if !b.zero() {
            lemma_quotient(a, b, a);
        }
    }
}

/// What infinities and zeros give: infinity stays infinity when a finite number
/// is added or it is multiplied or divided by one, a finite number by infinity is
/// zero, and by zero infinity.
pub proof fn lemma_limits(a: Single, b: Single)
    ensures
        a.infinite() && b.finite() ==> a.plus(b) == a && a.minus(b) == a,
        a.finite() && b.infinite() ==> a.plus(b) == b && a.minus(b) == b.opposite(),
        a.infinite() && !b.nan() && !b.zero() ==> a.times(b).infinite(),
        !a.nan() && !a.zero() && b.infinite() ==> a.times(b).infinite(),
        a.infinite() && b.finite() ==> a.over(b).infinite(),
        a.finite() && b.infinite() ==> a.over(b).zero(),
        a.finite() && !a.zero() && b.zero() ==> a.over(b).infinite(),
        !a.times(b).nan() ==> a.times(b).negative() == (a.negative() != b.negative()),
        !a.over(b).nan() ==> a.over(b).negative() == (a.negative() != b.negative()),
{
    lemma_signs(b);
    lemma_no_number(a, b);
    if a.finite() && b.finite() {
        lemma_product(a, b, a);
        if !b.zero() {
            lemma_quotient(a, b, a);
        }
    }
}

/// The larger of two numbers is one of them and not below either; the smaller
/// one is one of them and not above either. A NaN gives way to the other one.
pub proof fn lemma_extremes(a: Single, b: Single)
    ensures
        a.larger(b) == a || a.larger(b) == b,
        a.smaller(b) == a || a.smaller(b) == b,
        !a.larger(b).below(a) && !a.larger(b).below(b),
        !a.below(a.smaller(b)) && !b.below(a.smaller(b)),
        a.larger(b).nan() <==> a.nan() && b.nan(),
        a.smaller(b).nan() <==> a.nan() && b.nan(),
{
}

/// A number moved into a range is in it, and stays where it was if it was in it;
/// else it goes to the nearer end. NaN stays.
pub proof fn lemma_within(x: Single, lo: Single, hi: Single)
    requires
        lo.at_most(hi),
    ensures
        x.nan() ==> x.within(lo, hi) == x,
        !x.nan() ==> lo.at_most(x.within(lo, hi)) && x.within(lo, hi).at_most(hi),
        lo.at_most(x) && x.at_most(hi) ==> x.within(lo, hi) == x,
        x.below(lo) ==> x.within(lo, hi) == lo,
        hi.below(x) ==> x.within(lo, hi) == hi,
{
}

/// The total order is the order by value where the values differ, with negative
/// NaN before all numbers and positive NaN after them, negative zero before zero,
/// and no two patterns in the same place.
pub proof fn lemma_total_order(a: Single, b: Single)
    ensures
        a.below(b) ==> a.total_place() < b.total_place(),
        a.total_place() == b.total_place() ==> a == b,
        a.nan() && !b.nan() ==> (a.negative() <==> a.total_place() < b.total_place()),
        a.zero() && b.zero() && a.negative() && !b.negative() ==> a.total_place()
            < b.total_place(),
{
}

} // verus!
