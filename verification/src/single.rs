//! Single precision numbers by their bit patterns.

use crate::rounding;
use crate::rounding::INFINITE;
use vstd::arithmetic::power2::*;
use vstd::prelude::*;

verus! {

/// A single precision number: a sign bit above a 31 bit magnitude pattern.
///
/// `==` compares patterns, so the two zeros differ and a NaN equals itself;
/// [`Single::lt`] and [`Single::le`] compare values.
#[derive(Clone, Copy, Debug, PartialEq, Eq, Structural)]
pub struct Single {
    pub bits: u32,
}

/// The number with the given sign and magnitude pattern.
pub open spec fn signed(negative: bool, m: nat) -> Single {
    Single {
        bits: (if negative {
            0x8000_0000 + m
        } else {
            m
        }) as u32,
    }
}

/// The quiet NaN that invalid operations give; machines differ in its sign.
pub open spec fn invalid() -> Single {
    signed(false, 0x7fc0_0000)
}

/// The number nearest to the exact value `num / den`, in multiples of 2^-149.
pub open spec fn rounded(negative: bool, num: nat, den: nat) -> Single {
    signed(negative, rounding::nearest(num, den))
}

/// The number nearest to the fraction `num / den`.
pub open spec fn fraction(num: nat, den: nat) -> Single {
    rounded(false, num * pow2(149), den)
}

/// The number nearest to the integer `n`.
pub open spec fn whole(n: nat) -> Single {
    fraction(n, 1)
}

impl Single {
    pub open spec fn magnitude(self) -> nat {
        (self.bits % 0x8000_0000) as nat
    }

    pub open spec fn negative(self) -> bool {
        self.bits >= 0x8000_0000
    }

    pub open spec fn nan(self) -> bool {
        self.magnitude() > INFINITE
    }

    pub open spec fn infinite(self) -> bool {
        self.magnitude() == INFINITE
    }

    pub open spec fn finite(self) -> bool {
        self.magnitude() < INFINITE
    }

    pub open spec fn zero(self) -> bool {
        self.magnitude() == 0
    }

    /// The value of a finite number, in multiples of 2^-149.
    pub open spec fn value(self) -> int {
        if self.negative() {
            -(rounding::units(self.magnitude()) as int)
        } else {
            rounding::units(self.magnitude()) as int
        }
    }

    /// The place of a number on the extended number line: magnitude patterns
    /// are in the order of the values they stand for.
    pub open spec fn place(self) -> int {
        if self.negative() {
            -(self.magnitude() as int)
        } else {
            self.magnitude() as int
        }
    }

    /// `self < other` by value; false where either is NaN.
    pub open spec fn below(self, other: Single) -> bool {
        !self.nan() && !other.nan() && self.place() < other.place()
    }

    /// `self <= other` by value; false where either is NaN.
    pub open spec fn at_most(self, other: Single) -> bool {
        !self.nan() && !other.nan() && self.place() <= other.place()
    }

    /// The place of a number in the total order of all patterns: negative NaN,
    /// negative numbers, negative zero, zero, positive numbers, positive NaN.
    pub open spec fn total_place(self) -> int {
        if self.negative() {
            -1 - self.magnitude()
        } else {
            self.magnitude() as int
        }
    }

    /// The number with the sign turned round.
    pub open spec fn opposite(self) -> Single {
        signed(!self.negative(), self.magnitude())
    }

    /// The number without its sign.
    pub open spec fn size(self) -> Single {
        signed(false, self.magnitude())
    }

    /// `self + other`.
    pub open spec fn plus(self, other: Single) -> Single {
        if self.nan() || other.nan() {
            invalid()
        } else if self.infinite() {
            if other.infinite() && self.negative() != other.negative() {
                invalid()
            } else {
                self
            }
        } else if other.infinite() {
            other
        } else {
            let exact = self.value() + other.value();
            if exact == 0 {
                signed(self.negative() && other.negative(), 0)
            } else if exact < 0 {
                rounded(true, (-exact) as nat, 1)
            } else {
                rounded(false, exact as nat, 1)
            }
        }
    }

    /// `self - other`.
    pub open spec fn minus(self, other: Single) -> Single {
        self.plus(other.opposite())
    }

    /// `self * other`.
    pub open spec fn times(self, other: Single) -> Single {
        let negative = self.negative() != other.negative();
        if self.nan() || other.nan() {
            invalid()
        } else if self.infinite() || other.infinite() {
            if self.zero() || other.zero() {
                invalid()
            } else {
                signed(negative, INFINITE as nat)
            }
        } else {
            rounded(
                negative,
                rounding::units(self.magnitude()) * rounding::units(other.magnitude()),
                pow2(149),
            )
        }
    }

    /// `self / other`.
    pub open spec fn over(self, other: Single) -> Single {
        let negative = self.negative() != other.negative();
        if self.nan() || other.nan() {
            invalid()
        } else if self.infinite() {
            if other.infinite() {
                invalid()
            } else {
                signed(negative, INFINITE as nat)
            }
        } else if other.infinite() {
            signed(negative, 0)
        } else if other.zero() {
            if self.zero() {
                invalid()
            } else {
                signed(negative, INFINITE as nat)
            }
        } else {
            rounded(
                negative,
                rounding::units(self.magnitude()) * pow2(149),
                rounding::units(other.magnitude()),
            )
        }
    }

    /// The larger of two numbers; where one is NaN, the other.
    pub open spec fn larger(self, other: Single) -> Single {
        if self.nan() {
            other
        } else if self.below(other) {
            other
        } else {
            self
        }
    }

    /// The smaller of two numbers; where one is NaN, the other.
    pub open spec fn smaller(self, other: Single) -> Single {
        if self.nan() {
            other
        } else if other.below(self) {
            other
        } else {
            self
        }
    }

    /// The number moved into the range from `lo` to `hi`; NaN stays.
    pub open spec fn within(self, lo: Single, hi: Single) -> Single {
        if self.below(lo) {
            lo
        } else if hi.below(self) {
            hi
        } else {
            self
        }
    }
}

/// The exponent and significand of a finite magnitude pattern.
fn unpack(m: u32) -> (parts: (u32, u32))
    requires
        m < INFINITE,
    ensures
        parts.0 == rounding::exponent_of(m as nat),
        parts.1 == rounding::significand_of(m as nat),
        parts.0 <= 253,
        parts.1 < 0x100_0000,
        parts.0 > 0 ==> parts.1 >= 0x80_0000,
        m > 0 ==> parts.1 > 0,
        m == parts.0 * 0x80_0000 + parts.1,
{
    if m < 0x80_0000 {
        (0, m)
    } else {
        (m / 0x80_0000 - 1, 0x80_0000 + m % 0x80_0000)
    }
}

/// The pattern nearest to the quotient of `a` times 2^ea by `b` times 2^eb.
fn quotient_magnitude(a: u32, ea: u32, b: u32, eb: u32) -> (m: u32)
    requires
        0 < a,
        0 < b,
        ea <= 900,
        eb <= 900,
    ensures
        m <= INFINITE,
        m == rounding::nearest(a as nat * pow2(ea as nat), b as nat * pow2(eb as nat)),
{
    proof {
        lemma2_to64();
        lemma2_to64_rest();
    }
    let top: u128 = a as u128 * 0x1_0000_0000_0000_0000;
    let n: u128 = top / b as u128;
    let inexact: bool = top % b as u128 != 0;
    let ghost num = a as nat * pow2(ea as nat);
    let ghost den = b as nat * pow2(eb as nat);
    proof {
        lemma_quotient_scale(a as nat, ea as nat, b as nat, eb as nat, n as nat);
    }
    rounding::round_magnitude(n, ea, eb + 64, inexact, Ghost(num), Ghost(den))
}

proof fn lemma_quotient_scale(a: nat, ea: nat, b: nat, eb: nat, n: nat)
    requires
        0 < a <= u32::MAX,
        0 < b <= u32::MAX,
        n == (a * 0x1_0000_0000_0000_0000) / b,
    ensures
        pow2(25) <= n < pow2(96),
        b * pow2(eb) > 0,
        ({
            let exact = (a * 0x1_0000_0000_0000_0000) % b == 0;
            let low = n * (pow2(ea) * (b * pow2(eb)));
            let high = (n + 1) * (pow2(ea) * (b * pow2(eb)));
            let mid = (a * pow2(ea)) * pow2(eb + 64);
            &&& exact ==> low == mid
            &&& !exact ==> low < mid < high
        }),
{
    let t = 0x1_0000_0000_0000_0000nat;
    let pa = pow2(ea);
    let pb = pow2(eb);
    lemma2_to64();
    lemma2_to64_rest();
    lemma_pow2_adds(32, 64);
    lemma_pow2_adds(eb, 64);
    lemma_pow2_pos(ea);
    lemma_pow2_pos(eb);
    vstd::arithmetic::div_mod::lemma_fundamental_div_mod((a * t) as int, b as int);
    let r = (a * t) % b;
    assert(a * t == b * n + r);
    assert(n < pow2(96)) by (nonlinear_arith)
        requires
            a * t == b * n + r,
            r >= 0,
            b >= 1,
            a <= u32::MAX,
            t == 0x1_0000_0000_0000_0000,
            pow2(96) == 0x1_0000_0000 * t,
    ;
    assert(n >= pow2(25)) by (nonlinear_arith)
        requires
            a * t == b * n + r,
            r < b,
            b <= u32::MAX,
            a >= 1,
            t == 0x1_0000_0000_0000_0000,
            pow2(25) == 0x200_0000,
    ;
    assert(b * pb > 0) by (nonlinear_arith)
        requires
            b > 0,
            pb > 0,
    ;
    let w = pa * pb;
    assert(w > 0) by (nonlinear_arith)
        requires
            w == pa * pb,
            pa > 0,
            pb > 0,
    ;
    assert(n * (pa * (b * pb)) == (b * n) * w) by (nonlinear_arith)
        requires
            w == pa * pb,
    ;
    assert((n + 1) * (pa * (b * pb)) == (b * n + b) * w) by (nonlinear_arith)
        requires
            w == pa * pb,
    ;
    assert((a * pa) * (pb * t) == (a * t) * w) by (nonlinear_arith)
        requires
            w == pa * pb,
    ;
    assert((b * n + r) * w == (b * n) * w + r * w) by (nonlinear_arith);
    assert((b * n + b) * w == (b * n) * w + b * w) by (nonlinear_arith);
    assert(r < b ==> r * w < b * w) by (nonlinear_arith)
        requires
            w > 0,
    ;
    assert(r > 0 ==> r * w > 0) by (nonlinear_arith)
        requires
            w > 0,
    ;
}

impl Single {
    /// The number with the given bit pattern.
    pub fn from_bits(bits: u32) -> (r: Single)
        ensures
            r.bits == bits,
    {
        Single { bits }
    }

    /// The bit pattern of the number.
    pub fn to_bits(self) -> (bits: u32)
        ensures
            bits == self.bits,
    {
        self.bits
    }

    fn magnitude_bits(self) -> (m: u32)
        ensures
            m == self.magnitude(),
    {
        self.bits % 0x8000_0000
    }

    fn with_sign(negative: bool, m: u32) -> (r: Single)
        requires
            m < 0x8000_0000,
        ensures
            r == signed(negative, m as nat),
            r.magnitude() == m,
            r.negative() == negative,
    {
        if negative {
            Single { bits: 0x8000_0000 + m }
        } else {
            Single { bits: m }
        }
    }

    /// Whether the number is NaN.
    pub fn is_nan(self) -> (b: bool)
        ensures
            b == self.nan(),
    {
        self.magnitude_bits() > INFINITE
    }

    fn place_value(self) -> (p: i64)
        ensures
            p == self.place(),
    {
        if self.bits >= 0x8000_0000 {
            -((self.bits - 0x8000_0000) as i64)
        } else {
            self.bits as i64
        }
    }

    /// `self < other` by value.
    pub fn lt(self, other: Single) -> (b: bool)
        ensures
            b == self.below(other),
    {
        !self.is_nan() && !other.is_nan() && self.place_value() < other.place_value()
    }

    /// `self <= other` by value.
    pub fn le(self, other: Single) -> (b: bool)
        ensures
            b == self.at_most(other),
    {
        !self.is_nan() && !other.is_nan() && self.place_value() <= other.place_value()
    }

    /// The key by which the total order of all patterns sorts.
    pub fn total_key(self) -> (k: i64)
        ensures
            k == self.total_place(),
    {
        if self.bits >= 0x8000_0000 {
            -1 - (self.bits - 0x8000_0000) as i64
        } else {
            self.bits as i64
        }
    }

    /// The key by which numbers other than NaN are in the order of their
    /// values; the two zeros share one.
    pub fn value_key(self) -> (k: i64)
        ensures
            k == self.place(),
    {
        self.place_value()
    }

    /// `-self`.
    pub fn neg(self) -> (r: Single)
        ensures
            r == self.opposite(),
            r.magnitude() == self.magnitude(),
            r.negative() == !self.negative(),
    {
        Single::with_sign(self.bits < 0x8000_0000, self.magnitude_bits())
    }

    /// `|self|`.
    pub fn abs(self) -> (r: Single)
        ensures
            r == self.size(),
    {
        Single::with_sign(false, self.magnitude_bits())
    }

    /// The sum of finite numbers, the first with the larger exponent.
    fn add_finite(self, other: Single) -> (r: Single)
        requires
            self.finite(),
            other.finite(),
            rounding::exponent_of(self.magnitude()) >= rounding::exponent_of(other.magnitude()),
        ensures
            r == self.plus(other),
    {
        let a: u32 = self.magnitude_bits();
        let b: u32 = other.magnitude_bits();
        let (ea, sa) = unpack(a);
        let (eb, sb) = unpack(b);
        let d: u32 = ea - eb;
        if d >= 26 {
            proof {
                lemma_far_apart(self, other);
            }
            return self;
        }
        let p: u64 = rounding::small_power_of_two(d);
        proof {
            lemma_aligned(sa as nat, p as nat);
        }
        let big: i64 = (sa as u64 * p) as i64;
        let left: i64 = if self.bits >= 0x8000_0000 {
            -big
        } else {
            big
        };
        let right: i64 = if other.bits >= 0x8000_0000 {
            -(sb as i64)
        } else {
            sb as i64
        };
        let sum: i64 = left + right;
        let ghost exact = self.value() + other.value();
        proof {
            lemma_pow2_adds(d as nat, eb as nat);
            lemma_pow2_pos(eb as nat);
            let scale = pow2(eb as nat);
            assert((sa * p) * scale == sa * (p * scale)) by (nonlinear_arith);
            lemma_common_scale(
                self,
                other,
                big as int,
                sb as int,
                left as int,
                right as int,
                pow2(eb as nat) as int,
            );
            lemma2_to64();
            lemma2_to64_rest();
            lemma_pow2_strictly_increases(60, 96);
        }
        if sum == 0 {
            return Single::with_sign(
                self.bits >= 0x8000_0000 && other.bits >= 0x8000_0000,
                0,
            );
        }
        let negative: bool = sum < 0;
        let n: u64 = if negative {
            (-sum) as u64
        } else {
            sum as u64
        };
        let ghost num = (if exact < 0 {
            -exact
        } else {
            exact
        }) as nat;
        Single::with_sign(
            negative,
            rounding::round_magnitude(n as u128, eb, 0, false, Ghost(num), Ghost(1)),
        )
    }

    /// `self + other`.
    pub fn add(self, other: Single) -> (r: Single)
        ensures
            r == self.plus(other),
    {
        let a: u32 = self.magnitude_bits();
        let b: u32 = other.magnitude_bits();
        if a > INFINITE || b > INFINITE {
            return Single::with_sign(false, 0x7fc0_0000);
        }
        if a == INFINITE {
            if b == INFINITE && (self.bits >= 0x8000_0000) != (other.bits >= 0x8000_0000) {
                return Single::with_sign(false, 0x7fc0_0000);
            }
            return self;
        }
        if b == INFINITE {
            return other;
        }
        if unpack(a).0 >= unpack(b).0 {
            self.add_finite(other)
        } else {
            other.add_finite(self)
        }
    }

    /// `self - other`.
    pub fn sub(self, other: Single) -> (r: Single)
        ensures
            r == self.minus(other),
    {
        self.add(other.neg())
    }

    /// `self * other`.
    pub fn mul(self, other: Single) -> (r: Single)
        ensures
            r == self.times(other),
    {
        let a: u32 = self.magnitude_bits();
        let b: u32 = other.magnitude_bits();
        let negative: bool = (self.bits >= 0x8000_0000) != (other.bits >= 0x8000_0000);
        if a > INFINITE || b > INFINITE {
            return Single::with_sign(false, 0x7fc0_0000);
        }
        if a == INFINITE || b == INFINITE {
            if a == 0 || b == 0 {
                return Single::with_sign(false, 0x7fc0_0000);
            }
            return Single::with_sign(negative, INFINITE);
        }
        let (ea, sa) = unpack(a);
        let (eb, sb) = unpack(b);
        let ghost num = rounding::units(a as nat) * rounding::units(b as nat);
        let ghost den = pow2(149);
        proof {
            lemma_pow2_pos(149);
        }
        if a == 0 || b == 0 {
            proof {
                rounding::lemma_nearest_zero(den);
                rounding::lemma_units_zero();
                assert(num == 0) by (nonlinear_arith)
                    requires
                        num == rounding::units(a as nat) * rounding::units(b as nat),
                        rounding::units(a as nat) == 0 || rounding::units(b as nat) == 0,
                ;
            }
            return Single::with_sign(negative, 0);
        }
        proof {
            lemma_product_scale(sa as nat, ea as nat, sb as nat, eb as nat);
        }
        let n: u64 = sa as u64 * sb as u64;
        let m: u32 = rounding::round_magnitude(
            n as u128,
            ea + eb,
            149,
            false,
            Ghost(num),
            Ghost(den),
        );
        Single::with_sign(negative, m)
    }

    /// `self / other`.
    pub fn div(self, other: Single) -> (r: Single)
        ensures
            r == self.over(other),
    {
        let a: u32 = self.magnitude_bits();
        let b: u32 = other.magnitude_bits();
        let negative: bool = (self.bits >= 0x8000_0000) != (other.bits >= 0x8000_0000);
        if a > INFINITE || b > INFINITE {
            return Single::with_sign(false, 0x7fc0_0000);
        }
        if a == INFINITE {
            if b == INFINITE {
                return Single::with_sign(false, 0x7fc0_0000);
            }
            return Single::with_sign(negative, INFINITE);
        }
        if b == INFINITE {
            return Single::with_sign(negative, 0);
        }
        if b == 0 {
            if a == 0 {
                return Single::with_sign(false, 0x7fc0_0000);
            }
            return Single::with_sign(negative, INFINITE);
        }
        let (ea, sa) = unpack(a);
        let (eb, sb) = unpack(b);
        proof {
            lemma_pow2_pos(eb as nat);
            assert(sb * pow2(eb as nat) > 0) by (nonlinear_arith)
                requires
                    sb > 0,
                    pow2(eb as nat) > 0,
            ;
            lemma_pow2_adds(ea as nat, 149);
            assert((sa * pow2(ea as nat)) * pow2(149) == sa * (pow2(ea as nat) * pow2(149)))
                by (nonlinear_arith);
        }
        if a == 0 {
            proof {
                rounding::lemma_nearest_zero(rounding::units(b as nat));
                rounding::lemma_units_zero();
                assert(0 * pow2(149) == 0) by (nonlinear_arith);
            }
            return Single::with_sign(negative, 0);
        }
        Single::with_sign(negative, quotient_magnitude(sa, ea + 149, sb, eb))
    }

    /// The number nearest to the fraction `num / den`.
    pub fn from_ratio(num: u32, den: u32) -> (r: Single)
        requires
            0 < num,
            0 < den,
        ensures
            r == fraction(num as nat, den as nat),
    {
        proof {
            lemma2_to64();
        }
        Single::with_sign(false, quotient_magnitude(num, 149, den, 0))
    }

    /// The number nearest to a count.
    pub fn from_count(n: usize) -> (r: Single)
        ensures
            r == whole(n as nat),
    {
        proof {
            lemma2_to64();
            lemma2_to64_rest();
            lemma_pow2_adds(32, 64);
        }
        if n == 0 {
            proof {
                rounding::lemma_nearest_zero(1);
                assert(0 * pow2(149) == 0) by (nonlinear_arith);
            }
            return Single::with_sign(false, 0);
        }
        let ghost num = n as nat * pow2(149);
        Single::with_sign(
            false,
            rounding::round_magnitude(n as u128, 149, 0, false, Ghost(num), Ghost(1)),
        )
    }

    /// The larger of two numbers; where one is NaN, the other.
    pub fn max(self, other: Single) -> (r: Single)
        ensures
            r == self.larger(other),
    {
        if self.is_nan() || self.lt(other) {
            other
        } else {
            self
        }
    }

    /// The smaller of two numbers; where one is NaN, the other.
    pub fn min(self, other: Single) -> (r: Single)
        ensures
            r == self.smaller(other),
    {
        if self.is_nan() || other.lt(self) {
            other
        } else {
            self
        }
    }

    /// The number moved into the range from `lo` to `hi`; NaN stays.
    pub fn clamp(self, lo: Single, hi: Single) -> (r: Single)
        requires
            lo.at_most(hi),
        ensures
            r == self.within(lo, hi),
    {
        if self.lt(lo) {
            lo
        } else if hi.lt(self) {
            hi
        } else {
            self
        }
    }
}

/// A number is its own sign and magnitude.
proof fn lemma_recompose(x: Single)
    ensures
        x == signed(x.negative(), x.magnitude()),
{
}

/// Adding a number far smaller than the gaps around the first changes nothing.
proof fn lemma_far_apart(a: Single, b: Single)
    requires
        a.finite(),
        b.finite(),
        rounding::exponent_of(a.magnitude()) >= rounding::exponent_of(b.magnitude()) + 26,
    ensures
        a.plus(b) == a,
{
    let ea = rounding::exponent_of(a.magnitude());
    let eb = rounding::exponent_of(b.magnitude());
    let sa = rounding::significand_of(a.magnitude());
    let sb = rounding::significand_of(b.magnitude());
    let ua = rounding::units(a.magnitude());
    let ub = rounding::units(b.magnitude());
    lemma2_to64();
    lemma_pow2_adds(26, eb);
    lemma_pow2_pos(eb);
    if eb + 26 < ea {
        lemma_pow2_strictly_increases(eb + 26, ea);
    }
    assert(4 * ub < pow2(ea)) by (nonlinear_arith)
        requires
            ub == sb * pow2(eb),
            sb < 0x100_0000,
            pow2(eb) > 0,
            0x400_0000 * pow2(eb) <= pow2(ea),
    ;
    assert(ua >= pow2(ea)) by (nonlinear_arith)
        requires
            ua == sa * pow2(ea),
            sa >= 1,
    ;
    let exact = a.value() + b.value();
    let n = (if exact < 0 {
        -exact
    } else {
        exact
    }) as nat;
    rounding::lemma_nearest_close(a.magnitude(), n);
    lemma_recompose(a);
}

proof fn lemma_aligned(s: nat, p: nat)
    requires
        s < 0x100_0000,
        p <= 0x200_0000,
    ensures
        s * p < 0x4_0000_0000_0000,
{
    assert(s * p < 0x4_0000_0000_0000) by (nonlinear_arith)
        requires
            s < 0x100_0000,
            p <= 0x200_0000,
    ;
}

/// Significands on a common scale add up to the exact sum on that scale.
proof fn lemma_common_scale(
    a: Single,
    b: Single,
    big: int,
    sb: int,
    left: int,
    right: int,
    scale: int,
)
    requires
        scale > 0,
        left == if a.negative() {
            -big
        } else {
            big
        },
        right == if b.negative() {
            -sb
        } else {
            sb
        },
        rounding::units(a.magnitude()) == big * scale,
        rounding::units(b.magnitude()) == sb * scale,
    ensures
        a.value() + b.value() == (left + right) * scale,
        left + right > 0 ==> (left + right) * scale > 0,
        left + right < 0 ==> (left + right) * scale < 0,
        (-(left + right)) * scale == -((left + right) * scale),
{
    assert((left + right) * scale == left * scale + right * scale) by (nonlinear_arith);
    assert((-big) * scale == -(big * scale)) by (nonlinear_arith);
    assert((-sb) * scale == -(sb * scale)) by (nonlinear_arith);
    let t = left + right;
    assert(t > 0 ==> t * scale > 0) by (nonlinear_arith)
        requires
            scale > 0,
    ;
    assert(t < 0 ==> t * scale < 0) by (nonlinear_arith)
        requires
            scale > 0,
    ;
    assert((-t) * scale == -(t * scale)) by (nonlinear_arith);
}

proof fn lemma_product_scale(sa: nat, ea: nat, sb: nat, eb: nat)
    requires
        0 < sa < 0x100_0000,
        0 < sb < 0x100_0000,
    ensures
        0 < sa * sb < 0x1_0000_0000_0000,
        0x1_0000_0000_0000 < pow2(96),
        (sa * sb) * (pow2(ea + eb) * pow2(149)) == ((sa * pow2(ea)) * (sb * pow2(eb))) * pow2(149),
{
    lemma2_to64();
    lemma2_to64_rest();
    lemma_pow2_strictly_increases(48, 96);
    lemma_pow2_adds(ea, eb);
    assert(0 < sa * sb < 0x1_0000_0000_0000) by (nonlinear_arith)
        requires
            0 < sa < 0x100_0000,
            0 < sb < 0x100_0000,
    ;
    let a = pow2(ea);
    let b = pow2(eb);
    let c = pow2(149);
    assert((sa * sb) * ((a * b) * c) == ((sa * a) * (sb * b)) * c) by (nonlinear_arith);
}

/// Finite numbers compare as the values they stand for, so that `place` orders
/// them by value.
pub proof fn lemma_place_orders_values(a: Single, b: Single)
    requires
        a.finite(),
        b.finite(),
    ensures
        a.below(b) <==> a.value() < b.value(),
        a.at_most(b) <==> a.value() <= b.value(),
{
    let m = a.magnitude();
    let n = b.magnitude();
    rounding::lemma_units_zero();
    if m < n {
        rounding::lemma_units_increase(m, n);
    } else if n < m {
        rounding::lemma_units_increase(n, m);
    }
    if m > 0 {
        rounding::lemma_units_increase(0, m);
    }
    if n > 0 {
        rounding::lemma_units_increase(0, n);
    }
}

/// The number nearest to a fraction is neither negative nor NaN, and larger
/// numerators give no smaller numbers.
pub proof fn lemma_fraction_order(a: nat, b: nat, den: nat)
    requires
        a <= b,
        den > 0,
    ensures
        fraction(a, den).at_most(fraction(b, den)),
        !fraction(a, den).negative(),
        !fraction(a, den).nan(),
{
    assert(a * pow2(149) <= b * pow2(149)) by (nonlinear_arith)
        requires
            a <= b,
    ;
    rounding::lemma_nearest_exists(a * pow2(149), den);
    rounding::lemma_nearest_exists(b * pow2(149), den);
    rounding::lemma_nearest_monotone(a * pow2(149), b * pow2(149), den);
}

/// The counts that are held exactly lie between the patterns of 1 and 2^24.
pub proof fn lemma_whole_range(n: nat)
    requires
        1 <= n <= 0x100_0000,
    ensures
        0x3f80_0000 <= whole(n).magnitude() <= 0x4b80_0000,
        whole(n).finite(),
        !whole(n).negative(),
        whole(n).place() == whole(n).magnitude(),
{
    let one = 0x3f80_0000nat;
    let top = 0x4b80_0000nat;
    lemma2_to64();
    assert(rounding::exponent_of(one) == 126);
    assert(rounding::exponent_of(top) == 150);
    lemma_pow2_adds(23, 126);
    lemma_pow2_adds(23, 150);
    lemma_pow2_adds(24, 149);
    assert(rounding::units(one) == pow2(149));
    assert(rounding::units(top) == 0x100_0000 * pow2(149));
    rounding::lemma_nearest_exact(one);
    rounding::lemma_nearest_exact(top);
    let exact = n * pow2(149);
    assert(pow2(149) <= exact <= 0x100_0000 * pow2(149)) by (nonlinear_arith)
        requires
            exact == n * pow2(149),
            1 <= n <= 0x100_0000,
    ;
    rounding::lemma_nearest_monotone(pow2(149), exact, 1);
    rounding::lemma_nearest_monotone(exact, 0x100_0000 * pow2(149), 1);
}

/// A difference above zero means that the first number is the larger one.
pub proof fn lemma_difference_positive(a: Single, b: Single)
    requires
        signed(false, 0).below(a.minus(b)),
    ensures
        b.below(a),
{
    let c = b.opposite();
    assert(c.magnitude() == b.magnitude());
    assert(c.negative() != b.negative());
    if a.finite() && b.finite() {
        assert(c.value() == -b.value());
        let exact = a.value() + c.value();
        if exact < 0 {
            rounding::lemma_nearest_exists((-exact) as nat, 1);
        }
        assert(exact > 0);
        lemma_place_orders_values(b, a);
    }
}

/// A finite number has the distance zero from itself.
pub proof fn lemma_difference_zero(a: Single)
    requires
        a.finite(),
    ensures
        a.minus(a) == signed(false, 0),
{
    let c = a.opposite();
    assert(c.magnitude() == a.magnitude());
    assert(c.negative() != a.negative());
    assert(c.value() == -a.value());
}

/// A number above a sum is above the first number, where the second one is not
/// negative.
pub proof fn lemma_above_sum(a: Single, b: Single, c: Single)
    requires
        !b.negative(),
        a.plus(b).below(c),
    ensures
        a.below(c),
{
    if a.finite() && b.finite() {
        let exact = a.value() + b.value();
        let m = a.magnitude();
        rounding::lemma_nearest_exact(m);
        if a.negative() {
            if exact < 0 {
                rounding::lemma_nearest_exists((-exact) as nat, 1);
                rounding::lemma_nearest_monotone((-exact) as nat, rounding::units(m), 1);
            } else if exact > 0 {
                rounding::lemma_nearest_exists(exact as nat, 1);
            }
        } else if exact > 0 {
            rounding::lemma_nearest_exists(exact as nat, 1);
            rounding::lemma_nearest_monotone(rounding::units(m), exact as nat, 1);
        } else {
            lemma_place_orders_values(a, signed(false, 0));
        }
    }
}

/// The product of numbers that are not negative is not negative.
pub proof fn lemma_product_sign(a: Single, b: Single)
    requires
        !a.negative(),
        !b.negative(),
    ensures
        !a.times(b).negative(),
{
    if a.finite() && b.finite() {
        lemma_pow2_pos(149);
        rounding::lemma_nearest_exists(
            rounding::units(a.magnitude()) * rounding::units(b.magnitude()),
            pow2(149),
        );
    }
}

/// The difference of numbers of different value is not zero.
pub proof fn lemma_difference_nonzero(a: Single, b: Single)
    requires
        a.finite(),
        b.finite(),
        a.value() != b.value(),
    ensures
        !a.minus(b).nan(),
        !a.minus(b).zero(),
{
    let c = b.opposite();
    assert(c.magnitude() == b.magnitude());
    assert(c.negative() != b.negative());
    let exact = a.value() - b.value();
    let n = (if exact < 0 {
        -exact
    } else {
        exact
    }) as nat;
    lemma2_to64();
    assert(rounding::units(1) == 1) by {
        assert(1 * pow2(0) == 1) by (nonlinear_arith)
            requires
                pow2(0) == 1,
        ;
    }
    rounding::lemma_nearest_exact(1);
    rounding::lemma_nearest_monotone(1, n, 1);
    rounding::lemma_nearest_exists(n, 1);
}

/// Differences from a number are in the order of the numbers.
pub proof fn lemma_difference_order(a: Single, b: Single, c: Single)
    requires
        a.finite(),
        b.finite(),
        c.finite(),
        a.value() <= b.value(),
    ensures
        a.minus(c).place() <= b.minus(c).place(),
        !a.minus(c).nan(),
        !b.minus(c).nan(),
{
    let d = c.opposite();
    assert(d.magnitude() == c.magnitude());
    let low = a.value() + d.value();
    let high = b.value() + d.value();
    if low < 0 {
        rounding::lemma_nearest_exists((-low) as nat, 1);
    } else if low > 0 {
        rounding::lemma_nearest_exists(low as nat, 1);
    }
    if high < 0 {
        rounding::lemma_nearest_exists((-high) as nat, 1);
        rounding::lemma_nearest_monotone((-high) as nat, (-low) as nat, 1);
    } else if high > 0 {
        rounding::lemma_nearest_exists(high as nat, 1);
        if low > 0 {
            rounding::lemma_nearest_monotone(low as nat, high as nat, 1);
        }
    }
}

/// Two numbers are as far apart one way as the other.
pub proof fn lemma_difference_size(a: Single, b: Single)
    requires
        a.finite(),
        b.finite(),
    ensures
        a.minus(b).size() == b.minus(a).size(),
{
    let exact = a.value() - b.value();
    assert(a.opposite().magnitude() == a.magnitude());
    assert(b.opposite().magnitude() == b.magnitude());
    assert(a.opposite().value() == -a.value());
    assert(b.opposite().value() == -b.value());
    if exact < 0 {
        rounding::lemma_nearest_exists((-exact) as nat, 1);
    } else if exact > 0 {
        rounding::lemma_nearest_exists(exact as nat, 1);
    }
}

} // verus!
