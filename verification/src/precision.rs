//! How close rounded sums and averages are to the exact ones.

use crate::cluster;
use crate::rounding;
use crate::single;
use crate::single::Single;
use vstd::arithmetic::power2::*;
use vstd::prelude::*;

verus! {

/// Every count up to 2^24 is held exactly.
pub proof fn lemma_whole_exact(n: nat)
    requires
        n <= 0x100_0000,
    ensures
        single::whole(n).finite(),
        !single::whole(n).negative(),
        single::whole(n).value() == n * pow2(149),
{
    if n == 0 {
        assert(0 * pow2(149) == 0) by (nonlinear_arith);
        rounding::lemma_nearest_zero(1);
        rounding::lemma_units_zero();
    } else {
        rounding::lemma_units_of_count(n);
    }
}

/// 2^-s, in multiples of 2^-149.
pub open spec fn grain(s: nat) -> nat {
    pow2((149 - s) as nat)
}

/// How grains relate to 1.
pub proof fn lemma_grain(s: nat)
    requires
        s <= 24,
    ensures
        0 < grain(s) <= pow2(149),
        pow2(s) * grain(s) == pow2(149),
        pow2((150 - s) as nat) == 2 * grain(s),
{
    lemma_pow2_pos((149 - s) as nat);
    lemma_pow2_pos(s);
    lemma_pow2_adds(s, (149 - s) as nat);
    lemma_pow2_unfold((150 - s) as nat);
    assert(grain(s) <= pow2(s) * grain(s)) by (nonlinear_arith)
        requires
            pow2(s) >= 1,
            grain(s) >= 0,
    ;
}

/// The sum of two numbers, as long as it is no larger than 2^(24 + e), is off by
/// no more than half of 2^e; all in multiples of 2^-149.
pub proof fn lemma_sum_error(a: Single, b: Single, e: nat)
    requires
        a.finite(),
        b.finite(),
        e < 253,
        -(0x100_0000 * pow2(e)) <= a.value() + b.value() <= 0x100_0000 * pow2(e),
    ensures
        a.plus(b).finite(),
        2 * (a.plus(b).value() - (a.value() + b.value())) <= pow2(e),
        2 * ((a.value() + b.value()) - a.plus(b).value()) <= pow2(e),
{
    let exact = a.value() + b.value();
    lemma_pow2_pos(e);
    rounding::lemma_units_zero();
    if exact < 0 {
        rounding::lemma_nearest_error((-exact) as nat, 1, e);
    } else if exact > 0 {
        rounding::lemma_nearest_error(exact as nat, 1, e);
    }
}

/// The exact sum of numbers, in multiples of 2^-149.
pub open spec fn exact_total(xs: Seq<Single>) -> int
    decreases xs.len(),
{
    if xs.len() == 0 {
        0
    } else {
        exact_total(xs.drop_last()) + xs.last().value()
    }
}

/// Whether numbers are no larger than `bound`, and so few that their sum is below
/// 2^(24 - s): then their average is good to 2^-s.
pub open spec fn moderate(xs: Seq<Single>, bound: nat, s: nat) -> bool {
    &&& s <= 24
    &&& xs.len() * (bound + 1) * pow2(s) <= 0x100_0000
    &&& forall|k: int| 0 <= k < xs.len() ==> (#[trigger] xs[k]).size().at_most(single::whole(bound))
}

/// What the count and the bound of numbers of moderate size come to.
proof fn lemma_moderate_count(n: nat, bound: nat, s: nat)
    requires
        s <= 24,
        n * (bound + 1) * pow2(s) <= 0x100_0000,
    ensures
        n * (bound + 1) * pow2(149) <= 0x100_0000 * grain(s),
        n * (bound + 1) <= 0x100_0000,
        n <= 0x100_0000,
        n > 0 ==> bound < 0x100_0000 && (bound + 1) * pow2(149) <= 0x100_0000 * grain(s),
{
    let one = pow2(149);
    let t = pow2(s);
    let g = grain(s);
    let x = n * (bound + 1);
    lemma_grain(s);
    lemma_pow2_pos(s);
    lemma_pow2_pos(149);
    assert(x * one <= 0x100_0000 * g) by (nonlinear_arith)
        requires
            x * t <= 0x100_0000,
            t * g == one,
            g > 0,
    ;
    assert(x <= x * t) by (nonlinear_arith)
        requires
            x >= 0,
            t >= 1,
    ;
    assert(n <= x) by (nonlinear_arith)
        requires
            x == n * (bound + 1),
            bound >= 0,
            n >= 0,
    ;
    if n > 0 {
        assert(bound + 1 <= x) by (nonlinear_arith)
            requires
                x == n * (bound + 1),
                n >= 1,
        ;
        assert((bound + 1) * one <= x * one) by (nonlinear_arith)
            requires
                bound + 1 <= x,
                one > 0,
        ;
    }
}

/// A number no larger than a bound.
proof fn lemma_bounded(x: Single, bound: nat)
    requires
        bound <= 0x100_0000,
        x.size().at_most(single::whole(bound)),
    ensures
        x.finite(),
        -(bound * pow2(149)) <= x.value() <= bound * pow2(149),
{
    lemma_whole_exact(bound);
    assert(x.size().magnitude() == x.magnitude());
    single::lemma_place_orders_values(x.size(), single::whole(bound));
}

/// The values of numbers of moderate size.
pub proof fn lemma_moderate_values(xs: Seq<Single>, bound: nat, s: nat)
    requires
        moderate(xs, bound, s),
    ensures
        forall|k: int|
            0 <= k < xs.len() ==> (#[trigger] xs[k]).finite() && -(bound * pow2(149))
                <= xs[k].value() <= bound * pow2(149),
        xs.len() > 0 ==> (bound + 1) * pow2(149) <= 0x100_0000 * grain(s),
{
    lemma_moderate_count(xs.len(), bound, s);
    assert forall|k: int| 0 <= k < xs.len() implies (#[trigger] xs[k]).finite() && -(bound * pow2(
        149,
    )) <= xs[k].value() <= bound * pow2(149) by {
        lemma_bounded(xs[k], bound);
    }
}

/// The sum of numbers of moderate size is off by no more than half a grain for
/// each of them.
pub proof fn lemma_total_error(xs: Seq<Single>, bound: nat, s: nat)
    requires
        moderate(xs, bound, s),
    ensures
        cluster::total(xs).finite(),
        2 * (cluster::total(xs).value() - exact_total(xs)) <= xs.len() * grain(s),
        2 * (exact_total(xs) - cluster::total(xs).value()) <= xs.len() * grain(s),
        -(xs.len() * bound * pow2(149)) <= exact_total(xs) <= xs.len() * bound * pow2(149),
    decreases xs.len(),
{
    let one = pow2(149);
    let small = grain(s);
    lemma_grain(s);
    if xs.len() == 0 {
        rounding::lemma_units_zero();
        assert(0 * small == 0 && 0 * bound * one == 0) by (nonlinear_arith);
    } else {
        let rest = xs.drop_last();
        let x = xs.last();
        let n = rest.len();
        let b = bound as int;
        let t = pow2(s);
        lemma_pow2_pos(s);
        lemma_moderate_count(xs.len(), bound, s);
        assert(n * (bound + 1) * t <= (n + 1) * (bound + 1) * t) by (nonlinear_arith)
            requires
                bound >= 0,
                t > 0,
        ;
        assert(forall|k: int| 0 <= k < rest.len() ==> #[trigger] rest[k] == xs[k]);
        lemma_total_error(rest, bound, s);
        assert(xs[xs.len() - 1] == x);
        lemma_bounded(x, bound);
        let sum = cluster::total(rest);
        let exact = exact_total(rest);
        assert((n + 1) * small == n * small + small) by (nonlinear_arith);
        assert((n + 1) * b * one == n * b * one + b * one) by (nonlinear_arith);
        assert((n + 1) * (b + 1) * one == n * b * one + n * one + b * one + one)
            by (nonlinear_arith);
        assert(n * small <= n * one) by (nonlinear_arith)
            requires
                small <= one,
                n >= 0,
        ;
        lemma_sum_error(sum, x, (149 - s) as nat);
    }
}

/// A quotient by a count, of a number no larger than 2^24 grains, is off by no
/// more than half a grain.
pub proof fn lemma_quotient_error(a: Single, n: nat, s: nat)
    requires
        a.finite(),
        s <= 24,
        0 < n <= 0x100_0000,
        -(0x100_0000 * grain(s)) <= a.value() <= 0x100_0000 * grain(s),
    ensures
        a.over(single::whole(n)).finite(),
        2 * (n * a.over(single::whole(n)).value() - a.value()) <= n * grain(s),
        2 * (a.value() - n * a.over(single::whole(n)).value()) <= n * grain(s),
{
    let one = pow2(149);
    let small = grain(s);
    let ua = rounding::units(a.magnitude());
    let num = ua * one;
    let den = n * one;
    let m = rounding::nearest(num, den);
    let um = rounding::units(m);
    lemma_grain(s);
    lemma_whole_exact(n);
    rounding::lemma_units_zero();
    assert(den > 0) by (nonlinear_arith)
        requires
            den == n * one,
            n > 0,
            one > 0,
    ;
    assert(num <= 0x100_0000 * small * den) by (nonlinear_arith)
        requires
            num == ua * one,
            den == n * one,
            0 <= ua <= 0x100_0000 * small,
            n >= 1,
            one > 0,
            small > 0,
    ;
    rounding::lemma_nearest_error(num, den, (149 - s) as nat);
    assert(2 * (um * n - ua) <= n * small && 2 * (ua - um * n) <= n * small) by (nonlinear_arith)
        requires
            2 * (um * den - num) <= small * den,
            2 * (num - um * den) <= small * den,
            num == ua * one,
            den == n * one,
            one > 0,
    ;
    assert(um * n == n * um && (-um) * n == n * (-um) && (-um) * n == -(um * n))
        by (nonlinear_arith);
}

/// The average of numbers of moderate size is off by no more than a grain.
pub proof fn lemma_mean_error(xs: Seq<Single>, bound: nat, s: nat)
    requires
        xs.len() > 0,
        moderate(xs, bound, s),
    ensures
        cluster::mean(xs).finite(),
        xs.len() * cluster::mean(xs).value() - exact_total(xs) <= xs.len() * grain(s),
        exact_total(xs) - xs.len() * cluster::mean(xs).value() <= xs.len() * grain(s),
{
    let one = pow2(149);
    let small = grain(s);
    let n = xs.len();
    lemma_grain(s);
    lemma_moderate_count(n, bound, s);
    lemma_total_error(xs, bound, s);
    assert(n * (bound + 1) * one == n * bound * one + n * one) by (nonlinear_arith);
    assert(n * small <= n * one) by (nonlinear_arith)
        requires
            small <= one,
            n >= 0,
    ;
    lemma_quotient_error(cluster::total(xs), n, s);
}

/// The exact sum of numbers is no larger than the largest of them, for each.
pub proof fn lemma_exact_total_range(xs: Seq<Single>, low: int, high: int)
    requires
        forall|k: int| 0 <= k < xs.len() ==> low <= (#[trigger] xs[k]).value() <= high,
    ensures
        xs.len() * low <= exact_total(xs) <= xs.len() * high,
    decreases xs.len(),
{
    let n = xs.len() as int;
    if n == 0 {
        assert(n * low == 0 && n * high == 0) by (nonlinear_arith)
            requires
                n == 0,
        ;
    } else {
        let rest = xs.drop_last();
        assert(forall|k: int| 0 <= k < rest.len() ==> #[trigger] rest[k] == xs[k]);
        lemma_exact_total_range(rest, low, high);
        assert(xs[n - 1] == xs.last());
        assert(n * low == (n - 1) * low + low && n * high == (n - 1) * high + high)
            by (nonlinear_arith);
    }
}

/// The average of numbers of moderate size is no more than a grain out of their
/// range.
pub proof fn lemma_mean_range(xs: Seq<Single>, bound: nat, s: nat, low: int, high: int)
    requires
        xs.len() > 0,
        moderate(xs, bound, s),
        forall|k: int| 0 <= k < xs.len() ==> low <= (#[trigger] xs[k]).value() <= high,
    ensures
        cluster::mean(xs).finite(),
        low - grain(s) <= cluster::mean(xs).value() <= high + grain(s),
{
    let small = grain(s);
    let n = xs.len();
    let mid = cluster::mean(xs).value();
    lemma_mean_error(xs, bound, s);
    lemma_exact_total_range(xs, low, high);
    assert(low - small <= mid <= high + small) by (nonlinear_arith)
        requires
            n > 0,
            n * mid <= n * high + n * small,
            n * low <= n * mid + n * small,
    ;
}

/// The difference of numbers up to 2^24 grains is off by no more than a grain.
pub proof fn lemma_difference_error(a: Single, b: Single, s: nat)
    requires
        s <= 24,
        a.finite(),
        b.finite(),
        -(0x100_0000 * grain(s)) <= a.value() <= 0x100_0000 * grain(s),
        -(0x100_0000 * grain(s)) <= b.value() <= 0x100_0000 * grain(s),
    ensures
        a.minus(b).finite(),
        a.minus(b).value() - (a.value() - b.value()) <= grain(s),
        (a.value() - b.value()) - a.minus(b).value() <= grain(s),
{
    let c = b.opposite();
    assert(c.magnitude() == b.magnitude());
    assert(c.negative() != b.negative());
    assert(c.value() == -b.value());
    lemma_grain(s);
    lemma_sum_error(a, c, (150 - s) as nat);
}

/// The exact sum of numbers and of more numbers.
pub proof fn lemma_exact_total_add(a: Seq<Single>, b: Seq<Single>)
    ensures
        exact_total(a + b) == exact_total(a) + exact_total(b),
    decreases b.len(),
{
    if b.len() == 0 {
        assert(a + b == a);
    } else {
        lemma_exact_total_add(a, b.drop_last());
        assert((a + b).drop_last() == a + b.drop_last());
        assert((a + b).last() == b.last());
    }
}

/// The average of ascending numbers of moderate size is no more than two
/// grains above the average of those from the `k`th on.
pub proof fn lemma_mean_of_end(xs: Seq<Single>, k: int, bound: nat, s: nat)
    requires
        0 <= k < xs.len(),
        moderate(xs, bound, s),
        forall|i: int, j: int|
            0 <= i < j < xs.len() ==> (#[trigger] xs[i]).total_place() <= (
            #[trigger] xs[j]).total_place(),
    ensures
        moderate(xs.skip(k), bound, s),
        cluster::mean(xs).finite(),
        cluster::mean(xs.skip(k)).finite(),
        cluster::mean(xs).value() <= cluster::mean(xs.skip(k)).value() + 2 * grain(s),
{
    let one = pow2(149);
    let small = grain(s);
    let t = pow2(s);
    let head = xs.take(k);
    let tail = xs.skip(k);
    let n = xs.len();
    let m = tail.len();
    let split = xs[k].value();
    let low = -(bound * one);
    let high = (bound * one) as int;
    lemma_pow2_pos(s);
    assert(m * (bound + 1) * t <= n * (bound + 1) * t) by (nonlinear_arith)
        requires
            m <= n,
            bound >= 0,
            t > 0,
    ;
    assert forall|i: int| 0 <= i < m implies (#[trigger] tail[i]).size().at_most(
        single::whole(bound),
    ) by {
        assert(tail[i] == xs[k + i]);
    }
    lemma_moderate_values(xs, bound, s);
    assert forall|i: int| 0 <= i < head.len() implies low <= (#[trigger] head[i]).value()
        <= split by {
        assert(head[i] == xs[i]);
        single::lemma_place_orders_values(xs[i], xs[k]);
    }
    assert forall|i: int| 0 <= i < m implies split <= (#[trigger] tail[i]).value() <= high by {
        assert(tail[i] == xs[k + i]);
        if i > 0 {
            single::lemma_place_orders_values(xs[k], xs[k + i]);
        }
    }
    lemma_exact_total_range(head, low, split);
    lemma_exact_total_range(tail, split, high);
    lemma_exact_total_add(head, tail);
    assert(head + tail == xs);
    lemma_mean_error(xs, bound, s);
    lemma_mean_error(tail, bound, s);
    let all = exact_total(xs);
    let end = exact_total(tail);
    let before = exact_total(head);
    let mean_all = cluster::mean(xs).value();
    let mean_end = cluster::mean(tail).value();
    assert(before * m <= end * k) by (nonlinear_arith)
        requires
            before <= k * split,
            m * split <= end,
            m > 0,
            k >= 0,
    ;
    assert(all * m <= end * n) by (nonlinear_arith)
        requires
            all == before + end,
            before * m <= end * k,
            n == k + m,
    ;
    assert(mean_all * (n * m) <= (mean_end + 2 * small) * (n * m)) by (nonlinear_arith)
        requires
            n * mean_all - all <= n * small,
            end - m * mean_end <= m * small,
            all * m <= end * n,
            n > 0,
            m > 0,
    ;
    assert(mean_all <= mean_end + 2 * small) by (nonlinear_arith)
        requires
            mean_all * (n * m) <= (mean_end + 2 * small) * (n * m),
            n > 0,
            m > 0,
    ;
}

/// The share of a count `c` in a count `n`, as a number, is the pattern nearest
/// to it.
proof fn lemma_share(c: nat, n: nat)
    requires
        c <= n,
        0 < n <= 0x100_0000,
    ensures
        n * pow2(149) > 0,
        rounding::nearest(c * pow2(149) * pow2(149), n * pow2(149)) < rounding::INFINITE,
        single::whole(c).over(single::whole(n)) == single::signed(
            false,
            rounding::nearest(c * pow2(149) * pow2(149), n * pow2(149)),
        ),
        2 * (c * pow2(149) - n * rounding::units(
            rounding::nearest(c * pow2(149) * pow2(149), n * pow2(149)),
        )) <= n * pow2(125),
{
    let one = pow2(149);
    let h = pow2(125);
    let num = c * one * one;
    let den = n * one;
    let u = rounding::units(rounding::nearest(num, den));
    lemma_pow2_pos(149);
    lemma2_to64();
    lemma_pow2_adds(24, 125);
    lemma_whole_exact(c);
    lemma_whole_exact(n);
    rounding::lemma_units_zero();
    assert(den > 0 && num <= one * den) by (nonlinear_arith)
        requires
            n > 0,
            one > 0,
            c <= n,
            num == c * one * one,
            den == n * one,
    ;
    assert(0x100_0000 * h == one);
    rounding::lemma_nearest_error(num, den, 125);
    assert(2 * (c * one - n * u) <= n * h) by (nonlinear_arith)
        requires
            2 * (num - u * den) <= h * den,
            num == c * one * one,
            den == n * one,
            one > 0,
    ;
}

/// A share that is no more than a fraction is not above it as a number.
proof fn lemma_share_not_above(c: nat, n: nat, p: nat, q: nat)
    requires
        c <= n,
        0 < n <= 0x100_0000,
        0 < q,
        q * c <= p * n,
    ensures
        rounding::nearest(c * pow2(149) * pow2(149), n * pow2(149)) <= rounding::nearest(
            p * pow2(149),
            q,
        ),
{
    let one = pow2(149);
    lemma_share(c, n);
    rounding::lemma_nearest_scaled(c * one * one, n * one, q);
    rounding::lemma_nearest_scaled(p * one, q, n * one);
    assert(q * (n * one) == n * one * q) by (nonlinear_arith);
    assert(c * one * one * q <= p * one * (n * one)) by (nonlinear_arith)
        requires
            q * c <= p * n,
    ;
    rounding::lemma_nearest_monotone(c * one * one * q, p * one * (n * one), n * one * q);
}

/// The share of `c` in `n`, of fewer than 2^24, is above one half as a number
/// exactly where it is more than half.
pub proof fn lemma_above_half(c: nat, n: nat)
    requires
        c <= n,
        0 < n < 0x100_0000,
    ensures
        single::fraction(1, 2).below(single::whole(c).over(single::whole(n))) <==> 2 * c > n,
{
    let one = pow2(149);
    let h = pow2(125);
    let a = rounding::nearest(c * one * one, n * one);
    let b = rounding::nearest(1 * one, 2);
    let ua = rounding::units(a);
    lemma_share(c, n);
    lemma2_to64();
    lemma_pow2_pos(125);
    lemma_pow2_adds(24, 125);
    lemma_pow2_adds(1, 148);
    assert(1 * one == one);
    rounding::lemma_nearest_half();
    if 2 * c <= n {
        lemma_share_not_above(c, n, 1, 2);
    } else {
        assert(2 * (c * one) >= n * one + one && n * h < one) by (nonlinear_arith)
            requires
                2 * c >= n + 1,
                n < 0x100_0000,
                0x100_0000 * h == one,
                h > 0,
        ;
        assert(ua > pow2(148)) by (nonlinear_arith)
            requires
                2 * (n * ua) > n * one,
                one == 2 * pow2(148),
                n > 0,
        ;
        if a < b {
            rounding::lemma_units_increase(a, b);
        }
    }
}

/// The share of `c` in `n` is above 0.6 as a number exactly where it is more
/// than three fifths, up to 3728272: of 3728273 it rounds to 0.6 where it is
/// only just more.
pub proof fn lemma_above_three_fifths(c: nat, n: nat)
    requires
        c <= n,
        0 < n <= 3728272,
    ensures
        single::fraction(3, 5).below(single::whole(c).over(single::whole(n))) <==> 5 * c > 3 * n,
{
    let one = pow2(149);
    let h = pow2(125);
    let num = c * one * one;
    let den = n * one;
    let a = rounding::nearest(num, den);
    let b = rounding::nearest(3 * one, 5);
    lemma_share(c, n);
    lemma2_to64();
    lemma_pow2_pos(125);
    lemma_pow2_pos(149);
    lemma_pow2_adds(24, 125);
    rounding::lemma_nearest_three_fifths();
    if 5 * c <= 3 * n {
        lemma_share_not_above(c, n, 3, 5);
    } else {
        // A count of 3728271 or 3728272 is more than three fifths by at least
        // two fifths.
        assert(33554432 * (5 * c - 3 * n) > 9 * n);
        rounding::lemma_nearest_exists(num, den);
        assert(2 * num > 20132661 * h * den) by (nonlinear_arith)
            requires
                num == c * one * one,
                den == n * one,
                0x100_0000 * h == one,
                33554432 * (5 * c - 3 * n) > 9 * n,
                h > 0,
                one > 0,
        ;
        if a <= b {
            let low = rounding::units(b) + rounding::units(b + 1);
            let high = rounding::units(a) + rounding::units(a + 1);
            if a < b {
                rounding::lemma_units_increase(a, b);
                rounding::lemma_units_increase(a + 1, b + 1);
            }
            assert(high * den <= low * den) by (nonlinear_arith)
                requires
                    high <= low,
                    den > 0,
            ;
            assert(low == 20132661 * h);
        }
    }
}

/// A count `f` is at least 0.8 of a count `n` as numbers exactly where it is at
/// least four fifths of it, for counts below 10485760.
pub proof fn lemma_four_fifths(f: nat, n: nat)
    requires
        f <= n,
        0 < n < 10485760,
    ensures
        !single::whole(f).below(single::whole(n).times(single::fraction(4, 5))) <==> 5 * f >= 4
            * n,
{
    let one = pow2(149);
    let h = pow2(125);
    let w = n * 13421773 * h;
    let m = rounding::nearest(w, 1);
    let at = rounding::nearest(f * one, 1);
    lemma_pow2_pos(149);
    lemma_pow2_pos(125);
    lemma2_to64();
    lemma_pow2_adds(24, 125);
    lemma_pow2_adds(2, 147);
    lemma_pow2_adds(1, 148);
    lemma_whole_exact(f);
    lemma_whole_exact(n);
    rounding::lemma_nearest_four_fifths();
    assert((n * one) * (13421773 * h) == w * one) by (nonlinear_arith)
        requires
            w == n * 13421773 * h,
    ;
    rounding::lemma_nearest_scaled(w, 1, one);
    assert(1 * one == one);
    assert(single::whole(n).times(single::fraction(4, 5)) == single::signed(false, m));
    assert(5 * w == 4 * (n * one) + n * h) by (nonlinear_arith)
        requires
            w == n * 13421773 * h,
            0x100_0000 * h == one,
    ;
    assert(n * one < 10485760 * one && n * h <= one && n * h >= 0) by (nonlinear_arith)
        requires
            n < 10485760,
            0x100_0000 * h == one,
            h > 0,
    ;
    rounding::lemma_nearest_exists(w, 1);
    rounding::lemma_nearest_exists(f * one, 1);
    assert(single::whole(f) == single::signed(false, at));
    if 5 * f > 4 * n {
        assert(5 * (f * one) >= 4 * (n * one) + one) by (nonlinear_arith)
            requires
                5 * f >= 4 * n + 1,
                one > 0,
        ;
        rounding::lemma_nearest_monotone(w, f * one, 1);
    } else if 5 * f == 4 * n {
        assert(4 * (w - f * one) == f * h && f * one <= w) by (nonlinear_arith)
            requires
                5 * w == 4 * (n * one) + n * h,
                5 * f == 4 * n,
                one > 0,
                h > 0,
        ;
        rounding::lemma_units_gap(f);
        rounding::lemma_nearest_close(at, w);
    } else {
        assert(5 * (f * one) <= 4 * (n * one) - one) by (nonlinear_arith)
            requires
                5 * f <= 4 * n - 1,
                one > 0,
        ;
        if n < 5242880 {
            assert(n * one <= 5242879 * one && n * h <= 5242879 * h) by (nonlinear_arith)
                requires
                    n <= 5242879,
                    h > 0,
                    one > 0,
            ;
            assert(w <= 0x100_0000 * pow2(147) * 1);
            rounding::lemma_nearest_error(w, 1, 147);
        } else {
            assert(n * one <= 10485759 * one && 5242880 * h <= n * h <= 10485759 * h)
                by (nonlinear_arith)
                requires
                    5242880 <= n <= 10485759,
                    h > 0,
                    one > 0,
            ;
            assert(w <= 0x100_0000 * pow2(148) * 1);
            rounding::lemma_nearest_error(w, 1, 148);
        }
        if m < at {
            rounding::lemma_units_increase(m, at);
        }
    }
}

/// A number up to 2^23 grains times a fraction up to 2 is off by no more than two
/// grains.
pub proof fn lemma_scaled_error(a: Single, p: nat, q: nat, s: nat)
    requires
        a.finite(),
        !a.negative(),
        s <= 24,
        a.value() <= 0x80_0000 * grain(s),
        0 < q,
        p <= 2 * q,
    ensures
        a.times(single::fraction(p, q)).finite(),
        !a.times(single::fraction(p, q)).negative(),
        q * a.times(single::fraction(p, q)).value() - p * a.value() <= 2 * q * grain(s),
        p * a.value() - q * a.times(single::fraction(p, q)).value() <= 2 * q * grain(s),
{
    let one = pow2(149);
    let small = grain(s);
    let h = pow2(125);
    let c = rounding::nearest(p * one, q);
    let uc = rounding::units(c);
    let ua = rounding::units(a.magnitude());
    let t = rounding::nearest(ua * uc, one);
    let ut = rounding::units(t);
    lemma_grain(s);
    lemma_pow2_pos(125);
    lemma2_to64();
    lemma_pow2_adds(24, 125);
    lemma_pow2_adds(1, 125);
    assert(p * one <= 0x100_0000 * pow2(126) * q) by (nonlinear_arith)
        requires
            p <= 2 * q,
            0x100_0000 * h == one,
            pow2(126) == 2 * h,
            one > 0,
    ;
    rounding::lemma_nearest_error(p * one, q, 126);
    assert(uc * q - p * one <= h * q && p * one - uc * q <= h * q) by (nonlinear_arith)
        requires
            2 * (uc * q - p * one) <= pow2(126) * q,
            2 * (p * one - uc * q) <= pow2(126) * q,
            pow2(126) == 2 * h,
    ;
    assert(uc <= 4 * one) by (nonlinear_arith)
        requires
            uc * q <= p * one + h * q,
            p <= 2 * q,
            0x100_0000 * h == one,
            q > 0,
            one > 0,
    ;
    let coarse = pow2((150 - s) as nat);
    assert(ua * uc <= 0x100_0000 * coarse * one) by (nonlinear_arith)
        requires
            0 <= ua <= 0x80_0000 * small,
            0 <= uc <= 4 * one,
            coarse == 2 * small,
            small > 0,
            one > 0,
    ;
    rounding::lemma_nearest_error(ua * uc, one, (150 - s) as nat);
    assert(a.times(single::fraction(p, q)) == single::signed(false, t));
    let x = ut * one - ua * uc;
    assert(x <= small * one && -x <= small * one) by (nonlinear_arith)
        requires
            2 * x <= coarse * one,
            2 * (-x) <= coarse * one,
            coarse == 2 * small,
    ;
    let y = uc * q - p * one;
    assert(ua * y <= small * one * q && -(ua * y) <= small * one * q) by (nonlinear_arith)
        requires
            y <= h * q,
            -y <= h * q,
            0 <= ua <= 0x80_0000 * small,
            0x100_0000 * h == one,
            h > 0,
            q > 0,
            small > 0,
    ;
    assert(q * x <= q * (small * one) && q * (-x) <= q * (small * one)) by (nonlinear_arith)
        requires
            x <= small * one,
            -x <= small * one,
            q > 0,
    ;
    assert((q * ut - p * ua) * one == q * x + ua * y) by (nonlinear_arith)
        requires
            x == ut * one - ua * uc,
            y == uc * q - p * one,
    ;
    assert(q * (small * one) + small * one * q == (2 * q * small) * one) by (nonlinear_arith);
    assert(-(q * x + ua * y) == (p * ua - q * ut) * one && q * (-x) == -(q * x))
        by (nonlinear_arith)
        requires
            (q * ut - p * ua) * one == q * x + ua * y,
    ;
    assert(q * ut - p * ua <= 2 * q * small) by (nonlinear_arith)
        requires
            (q * ut - p * ua) * one <= (2 * q * small) * one,
            one > 0,
    ;
    assert(p * ua - q * ut <= 2 * q * small) by (nonlinear_arith)
        requires
            (p * ua - q * ut) * one <= (2 * q * small) * one,
            one > 0,
    ;
}

/// A number up to 2^24 grains halved is off by no more than half a grain.
pub proof fn lemma_half_error(a: Single, s: nat)
    requires
        a.finite(),
        s <= 24,
        -(0x100_0000 * grain(s)) <= a.value() <= 0x100_0000 * grain(s),
    ensures
        a.over(single::whole(2)).finite(),
        2 * a.over(single::whole(2)).value() - a.value() <= grain(s),
        a.value() - 2 * a.over(single::whole(2)).value() <= grain(s),
{
    lemma_quotient_error(a, 2, s);
}

} // verus!
