use vstd::prelude::*;

verus! {

/// Number of fractional bits of every `Fix` value.
pub const DECIMAL_BITS: u32 = 30;

/// Raw value of `1.0`.
pub const I_ONE: i64 = 0x4000_0000;

/// Raw value of `0.5`.
pub const I_HALF: i64 = 0x2000_0000;

/// Mask selecting the fractional bits of a raw value.
pub const DECIMAL_MASK: i64 = 0x3FFF_FFFF;

/// Raw value of `0`.
pub const I_ZERO: i64 = 0;

/// Raw value of `2`.
pub const I_TWO: i64 = 0x8000_0000;

/// Raw value of `10`.
pub const I_TEN: i64 = 0x2_8000_0000;

/// Raw value of the least representable value, `-2^33`.
pub const I_MIN: i64 = -9223372036854775808;

/// Raw value of the greatest representable value, just below `2^33`.
pub const I_MAX: i64 = 9223372036854775807;

/// Raw value of π.
pub const I_PI: i64 = 3373259425;

/// Raw value of 2π.
pub const I_PI_TIMES_TWO: i64 = 6746518852;

/// Raw value of π/2.
pub const I_PI_OVER_TWO: i64 = 1686629712;

/// Raw value of 1/π.
pub const I_PI_INVERTED: i64 = 341782637;

/// Raw value of 2/π.
pub const I_PI_OVER_TWO_INVERTED: i64 = 683565275;

/// Raw value of π/180, radians per degree.
pub const I_DEG_TO_RAD: i64 = 18740330;

/// Raw value of 180/π, degrees per radian.
pub const I_RAD_TO_DEG: i64 = 61520874822;

/// Raw value of `0.28`, the tuning constant of the `atan2` approximation.
pub const I_ATAN2_HELP: i64 = 300647710;

/// The raw value of one whole unit, `2^30`.
pub open spec fn unit() -> int {
    0x4000_0000
}

/// Whether a mathematical integer can be stored as a raw `i64`.
pub open spec fn fits(x: int) -> bool {
    i64::MIN <= x <= i64::MAX
}

/// Division rounding toward zero, as the machine's signed `/` does
/// (`/` on `int` is Euclidean).
pub open spec fn trunc_div(n: int, d: int) -> int {
    if n >= 0 {
        n / d
    } else {
        -((-n) / d)
    }
}

/// Remainder of `trunc_div`: it takes the sign of the dividend.
pub open spec fn trunc_rem(n: int, d: int) -> int {
    if n >= 0 {
        n % d
    } else {
        -((-n) % d)
    }
}

/// Raw result of a fixed-point product: the exact product of the raw values,
/// scaled back by `2^30` and rounded toward negative infinity.
pub open spec fn mul_raw(a: int, b: int) -> int {
    (a * b) / unit()
}

/// Raw result of a fixed-point quotient: the dividend scaled up by `2^30`,
/// divided by the divisor, rounded toward zero.
pub open spec fn div_raw(a: int, b: int) -> int {
    trunc_div(a * unit(), b)
}

/// Why an arithmetic operation has no representable result.
#[derive(Clone, Copy, Debug, PartialEq, Eq, Structural)]
pub enum ArithmeticError {
    /// The divisor is zero.
    DivideByZero,
    /// The exact result lies outside the raw `i64` range.
    Overflow,
}

/// A signed fixed-point number: the wrapped `i64` is the value times `2^30`.
///
/// Equality and ordering are those of the raw integer. Arithmetic never
/// wraps: every operator asks in its precondition that the exact result be
/// representable, so an overflow is ruled out at the call site.
#[derive(Clone, Copy, Debug, PartialEq, Eq, Structural, PartialOrd, Ord, Hash)]
pub struct Fix(pub i64);

impl Fix {
    /// `0`.
    pub fn zero() -> (r: Fix)
        ensures
            r.0 == I_ZERO,
    {
        Fix(I_ZERO)
    }

    /// `1`.
    pub fn one() -> (r: Fix)
        ensures
            r.0 == I_ONE,
    {
        Fix(I_ONE)
    }

    /// `2`.
    pub fn two() -> (r: Fix)
        ensures
            r.0 == I_TWO,
    {
        Fix(I_TWO)
    }

    /// `0.5`.
    pub fn half() -> (r: Fix)
        ensures
            r.0 == I_HALF,
    {
        Fix(I_HALF)
    }

    /// `10`.
    pub fn ten() -> (r: Fix)
        ensures
            r.0 == I_TEN,
    {
        Fix(I_TEN)
    }

    /// The least representable value, `-2^33`.
    pub fn min() -> (r: Fix)
        ensures
            r.0 == I_MIN,
    {
        Fix(I_MIN)
    }

    /// The greatest representable value, just below `2^33`.
    pub fn max() -> (r: Fix)
        ensures
            r.0 == I_MAX,
    {
        Fix(I_MAX)
    }

    /// π.
    pub fn pi() -> (r: Fix)
        ensures
            r.0 == I_PI,
    {
        Fix(I_PI)
    }

    /// 2π.
    pub fn pi_times_two() -> (r: Fix)
        ensures
            r.0 == I_PI_TIMES_TWO,
    {
        Fix(I_PI_TIMES_TWO)
    }

    /// π/2.
    pub fn pi_over_two() -> (r: Fix)
        ensures
            r.0 == I_PI_OVER_TWO,
    {
        Fix(I_PI_OVER_TWO)
    }

    /// 1/π.
    pub fn pi_inverted() -> (r: Fix)
        ensures
            r.0 == I_PI_INVERTED,
    {
        Fix(I_PI_INVERTED)
    }

    /// 2/π.
    pub fn pi_over_two_inverted() -> (r: Fix)
        ensures
            r.0 == I_PI_OVER_TWO_INVERTED,
    {
        Fix(I_PI_OVER_TWO_INVERTED)
    }

    /// π/180, radians per degree.
    pub fn deg_to_rad() -> (r: Fix)
        ensures
            r.0 == I_DEG_TO_RAD,
    {
        Fix(I_DEG_TO_RAD)
    }

    /// 180/π, degrees per radian.
    pub fn rad_to_deg() -> (r: Fix)
        ensures
            r.0 == I_RAD_TO_DEG,
    {
        Fix(I_RAD_TO_DEG)
    }

    /// `0.28`, the tuning constant of the `atan2` approximation.
    pub fn atan2_help() -> (r: Fix)
        ensures
            r.0 == I_ATAN2_HELP,
    {
        Fix(I_ATAN2_HELP)
    }

    /// The fixed-point value of the integer `value`.
    pub fn new(value: i64) -> (r: Fix)
        requires
            fits(value * unit()),
        ensures
            r.0 == value * unit(),
    {
        Fix(value * I_ONE)
    }

    /// The quotient `self / rhs`, or why it has no representable value.
    pub fn checked_div(self, rhs: Fix) -> (r: Result<Fix, ArithmeticError>)
        ensures
            rhs.0 == 0 ==> r matches Err(ArithmeticError::DivideByZero),
            rhs.0 != 0 && !fits(div_raw(self.0 as int, rhs.0 as int)) ==> r matches Err(
                ArithmeticError::Overflow,
            ),
            rhs.0 != 0 && fits(div_raw(self.0 as int, rhs.0 as int)) ==> (r matches Ok(q) && q.0
                == div_raw(self.0 as int, rhs.0 as int)),
    {
        if rhs.0 == 0 {
            return Err(ArithmeticError::DivideByZero);
        }
        proof {
            lemma_product_fits(self.0, I_ONE);
        }
        let wide: i128 = (self.0 as i128) * (I_ONE as i128);
        let d: i128 = rhs.0 as i128;
        proof {
            lemma_quotient_bound(wide as int, d as int);
        }
        let q: i128 = wide / d;
        if q < i64::MIN as i128 || q > i64::MAX as i128 {
            return Err(ArithmeticError::Overflow);
        }
        proof {
            lemma_narrow(q);
        }
        Ok(Fix(q as i64))
    }

    /// The raw integer, the value times `2^30`.
    pub fn raw(self) -> (r: i64)
        ensures
            r == self.0,
    {
        self.0
    }

    /// The value whose raw integer is `raw`.
    pub fn from_raw(raw: i64) -> (r: Fix)
        ensures
            r.0 == raw,
    {
        Fix(raw)
    }
}

impl vstd::std_specs::ops::AddSpecImpl for Fix {
    open spec fn obeys_add_spec() -> bool {
        true
    }

    open spec fn add_req(self, rhs: Fix) -> bool {
        fits(self.0 + rhs.0)
    }

    open spec fn add_spec(self, rhs: Fix) -> Fix {
        Fix((self.0 + rhs.0) as i64)
    }
}

impl core::ops::Add for Fix {
    type Output = Fix;

    fn add(self, rhs: Fix) -> (r: Fix)
        ensures
            r.0 == self.0 + rhs.0,
    {
        Fix(self.0 + rhs.0)
    }
}

impl vstd::std_specs::ops::SubSpecImpl for Fix {
    open spec fn obeys_sub_spec() -> bool {
        true
    }

    open spec fn sub_req(self, rhs: Fix) -> bool {
        fits(self.0 - rhs.0)
    }

    open spec fn sub_spec(self, rhs: Fix) -> Fix {
        Fix((self.0 - rhs.0) as i64)
    }
}

impl core::ops::Sub for Fix {
    type Output = Fix;

    fn sub(self, rhs: Fix) -> (r: Fix)
        ensures
            r.0 == self.0 - rhs.0,
    {
        Fix(self.0 - rhs.0)
    }
}

impl vstd::std_specs::ops::NegSpecImpl for Fix {
    open spec fn obeys_neg_spec() -> bool {
        true
    }

    open spec fn neg_req(self) -> bool {
        self.0 != i64::MIN
    }

    open spec fn neg_spec(self) -> Fix {
        Fix((-self.0) as i64)
    }
}

impl core::ops::Neg for Fix {
    type Output = Fix;

    fn neg(self) -> (r: Fix)
        ensures
            r.0 == -self.0,
    {
        Fix(-self.0)
    }
}

/// Multiplying by a whole number `k` is exact.
pub(crate) proof fn lemma_mul_whole(a: int, k: int)
    ensures
        mul_raw(a, k * unit()) == a * k,
{
    assert(a * (k * 0x4000_0000) == 0x4000_0000 * (a * k)) by (nonlinear_arith);
    vstd::arithmetic::div_mod::lemma_div_multiples_vanish(a * k, unit());
}

/// Dividing by a whole number `p` divides the dividend's raw value by `p`.
pub(crate) proof fn lemma_div_whole(f: int, p: int)
    requires
        f >= 0,
        p > 0,
    ensures
        div_raw(f, p * unit()) == f / p,
{
    assert(f * 0x4000_0000 >= 0) by (nonlinear_arith)
        requires
            f >= 0,
    ;
    assert(p * 0x4000_0000 == 0x4000_0000 * p) by (nonlinear_arith);
    vstd::arithmetic::div_mod::lemma_div_multiples_vanish_quotient(unit(), f, p);
    assert(0x4000_0000 * f == f * 0x4000_0000) by (nonlinear_arith);
}

/// A product of two raw values fits the 128-bit intermediate.
proof fn lemma_product_fits(a: i64, b: i64)
    ensures
        -0x4000_0000_0000_0000_0000_0000_0000_0000 <= a * b <= 0x4000_0000_0000_0000_0000_0000_0000_0000,
{
    assert(-0x4000_0000_0000_0000_0000_0000_0000_0000 <= a * b <= 0x4000_0000_0000_0000_0000_0000_0000_0000)
        by (nonlinear_arith)
        requires
            -0x8000_0000_0000_0000 <= a <= 0x7FFF_FFFF_FFFF_FFFF,
            -0x8000_0000_0000_0000 <= b <= 0x7FFF_FFFF_FFFF_FFFF,
    ;
}

/// An arithmetic right shift by the scale is division by `2^30`, rounded down.
proof fn lemma_shr_is_floor(p: i128)
    ensures
        (p >> 30u32) == p / 0x4000_0000,
{
    assert((p >> 30u32) == p / 0x4000_0000) by (bit_vector);
}

/// Narrowing a 128-bit value that fits 64 bits keeps it.
proof fn lemma_narrow(p: i128)
    requires
        fits(p as int),
    ensures
        (p as i64) == p,
{
    assert((p as i64) as i128 == p) by (bit_vector)
        requires
            -0x8000_0000_0000_0000 <= p <= 0x7FFF_FFFF_FFFF_FFFF,
    ;
}

/// A Euclidean quotient is no larger in magnitude than its dividend.
proof fn lemma_quotient_bound(n: int, d: int)
    requires
        d != 0,
    ensures
        n >= 0 ==> -n <= n / d <= n,
        n < 0 ==> n <= (-n) / d <= -n,
{
    if n >= 0 {
        assert(-n <= n / d <= n) by (nonlinear_arith)
            requires
                d != 0,
                n >= 0,
        ;
    } else {
        assert(n <= (-n) / d <= -n) by (nonlinear_arith)
            requires
                d != 0,
                n < 0,
        ;
    }
}

impl vstd::std_specs::ops::MulSpecImpl for Fix {
    open spec fn obeys_mul_spec() -> bool {
        true
    }

    open spec fn mul_req(self, rhs: Fix) -> bool {
        fits(mul_raw(self.0 as int, rhs.0 as int))
    }

    open spec fn mul_spec(self, rhs: Fix) -> Fix {
        Fix(mul_raw(self.0 as int, rhs.0 as int) as i64)
    }
}

impl core::ops::Mul for Fix {
    type Output = Fix;

    /// Multiplies in 128 bits, then shifts the scale back out.
    fn mul(self, rhs: Fix) -> (r: Fix)
        ensures
            r.0 == mul_raw(self.0 as int, rhs.0 as int),
    {
        proof {
            lemma_product_fits(self.0, rhs.0);
        }
        let wide: i128 = (self.0 as i128) * (rhs.0 as i128);
        let scaled: i128 = wide >> DECIMAL_BITS;
        proof {
            lemma_shr_is_floor(wide);
            lemma_narrow(scaled);
        }
        Fix(scaled as i64)
    }
}

impl vstd::std_specs::ops::DivSpecImpl for Fix {
    open spec fn obeys_div_spec() -> bool {
        true
    }

    open spec fn div_req(self, rhs: Fix) -> bool {
        rhs.0 != 0 && fits(div_raw(self.0 as int, rhs.0 as int))
    }

    open spec fn div_spec(self, rhs: Fix) -> Fix {
        Fix(div_raw(self.0 as int, rhs.0 as int) as i64)
    }
}

impl core::ops::Div for Fix {
    type Output = Fix;

    /// Scales the dividend up in 128 bits, then divides.
    fn div(self, rhs: Fix) -> (r: Fix)
        ensures
            r.0 == div_raw(self.0 as int, rhs.0 as int),
    {
        let wide: i128 = (self.0 as i128) * (I_ONE as i128);
        let d: i128 = rhs.0 as i128;
        proof {
            lemma_quotient_bound(wide as int, d as int);
        }
        let q: i128 = wide / d;
        proof {
            lemma_narrow(q);
        }
        Fix(q as i64)
    }
}

impl vstd::std_specs::ops::RemSpecImpl for Fix {
    open spec fn obeys_rem_spec() -> bool {
        true
    }

    open spec fn rem_req(self, rhs: Fix) -> bool {
        rhs.0 != 0 && !(self.0 == i64::MIN && rhs.0 == -1)
    }

    open spec fn rem_spec(self, rhs: Fix) -> Fix {
        Fix(trunc_rem(self.0 as int, rhs.0 as int) as i64)
    }
}

impl core::ops::Rem for Fix {
    type Output = Fix;

    fn rem(self, rhs: Fix) -> (r: Fix)
        ensures
            r.0 == trunc_rem(self.0 as int, rhs.0 as int),
    {
        Fix(self.0 % rhs.0)
    }
}

} // verus!
