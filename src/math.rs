use vstd::prelude::*;

use vstd::arithmetic::div_mod::{lemma_div_is_ordered, lemma_div_is_ordered_by_denominator};

use crate::fix::{
    div_raw, fits, mul_raw, unit, Fix, DECIMAL_MASK, I_ATAN2_HELP, I_DEG_TO_RAD, I_HALF, I_ONE,
    I_PI, I_PI_OVER_TWO, I_RAD_TO_DEG,
};

verus! {

/// The greatest multiple of `2^30` not above `x`.
pub open spec fn floor_raw(x: int) -> int {
    (x / unit()) * unit()
}

/// The least multiple of `2^30` not below `x`.
pub open spec fn ceiling_raw(x: int) -> int {
    -floor_raw(-x)
}

/// The multiple of `2^30` nearest to `x`; halves go up.
pub open spec fn round_raw(x: int) -> int {
    floor_raw(x + unit() / 2)
}

pub open spec fn sign_raw(x: int) -> int {
    if x < 0 {
        -unit()
    } else if x > 0 {
        unit()
    } else {
        0
    }
}

pub open spec fn abs_raw(x: int) -> int {
    if x < 0 {
        -x
    } else {
        x
    }
}

/// The raw result of the `atan2` approximation, over the raw arguments:
/// `z / (1 + 0.28 z^2)` for a ratio `z = y / x` below one in magnitude,
/// `pi/2 - z / (z^2 + 0.28)` otherwise, moved to the quadrant of `(x, y)`.
pub open spec fn atan2_raw(y: int, x: int) -> int {
    if x == 0 {
        if y > 0 {
            I_PI_OVER_TWO as int
        } else if y == 0 {
            0
        } else {
            -I_PI_OVER_TWO
        }
    } else {
        let z = div_raw(y, x);
        if abs_raw(z) < unit() {
            let a = div_raw(z, unit() + mul_raw(mul_raw(I_ATAN2_HELP as int, z), z));
            if x < 0 {
                if y < 0 {
                    a - I_PI
                } else {
                    a + I_PI
                }
            } else {
                a
            }
        } else {
            let a = I_PI_OVER_TWO - div_raw(z, mul_raw(z, z) + I_ATAN2_HELP);
            if y < 0 {
                a - I_PI
            } else {
                a
            }
        }
    }
}

/// Whether the steps of `atan2` stay representable: the ratio `y / x`, and
/// its square where the ratio is one or more in magnitude.
pub open spec fn atan2_in_range(y: int, x: int) -> bool {
    x == 0 || {
        let z = div_raw(y, x);
        fits(z) && (abs_raw(z) < unit() || fits(mul_raw(z, z) + I_ATAN2_HELP))
    }
}

/// Bounds on the steps of `atan2` for a ratio below one in magnitude.
proof fn lemma_atan_small(z: int)
    requires
        -unit() < z < unit(),
    ensures
        -unit() < mul_raw(I_ATAN2_HELP as int, z) < unit(),
        0 <= mul_raw(mul_raw(I_ATAN2_HELP as int, z), z) < unit(),
        -unit() < div_raw(z, unit() + mul_raw(mul_raw(I_ATAN2_HELP as int, z), z)) < unit(),
{
    let u = unit();
    let h = I_ATAN2_HELP as int;
    let m = mul_raw(h, z);
    if z >= 0 {
        assert(0 <= h * z <= u * z) by (nonlinear_arith)
            requires
                z >= 0,
                0 < h < u,
        ;
        lemma_div_is_ordered(0, h * z, u);
        lemma_div_is_ordered(h * z, u * z, u);
        assert((u * z) / u == z) by (nonlinear_arith)
            requires
                u > 0,
        ;
        assert(0 <= m * z <= z * z) by (nonlinear_arith)
            requires
                0 <= m <= z,
        ;
    } else {
        assert(u * z <= h * z <= 0) by (nonlinear_arith)
            requires
                z < 0,
                0 < h < u,
        ;
        lemma_div_is_ordered(h * z, 0, u);
        lemma_div_is_ordered(u * z, h * z, u);
        assert((u * z) / u == z) by (nonlinear_arith)
            requires
                u > 0,
        ;
        assert(0 <= m * z <= z * z) by (nonlinear_arith)
            requires
                z <= m <= 0,
        ;
    }
    assert(z * z < u * u) by (nonlinear_arith)
        requires
            -u < z < u,
    ;
    lemma_div_is_ordered(0, m * z, u);
    lemma_div_is_ordered(m * z, u * u - 1, u);
    let d = u + mul_raw(m, z);
    if z >= 0 {
        assert(z * u >= 0) by (nonlinear_arith)
            requires
                z >= 0,
                u > 0,
        ;
        lemma_div_is_ordered_by_denominator(z * u, u, d);
        lemma_div_is_ordered(0, z * u, d);
        assert((z * u) / u == z) by (nonlinear_arith)
            requires
                u > 0,
        ;
    } else {
        assert((-z) * u >= 0) by (nonlinear_arith)
            requires
                z < 0,
                u > 0,
        ;
        assert(-(z * u) == (-z) * u) by (nonlinear_arith);
        lemma_div_is_ordered_by_denominator((-z) * u, u, d);
        lemma_div_is_ordered(0, (-z) * u, d);
        assert(((-z) * u) / u == -z) by (nonlinear_arith)
            requires
                u > 0,
        ;
    }
}

/// Bounds on the steps of `atan2` for a ratio of one or more in magnitude.
proof fn lemma_atan_large(z: int)
    requires
        abs_raw(z) >= unit(),
        fits(mul_raw(z, z) + I_ATAN2_HELP),
    ensures
        0 <= mul_raw(z, z),
        -unit() <= div_raw(z, mul_raw(z, z) + I_ATAN2_HELP) <= unit(),
{
    let u = unit();
    let a = abs_raw(z);
    assert(z * z == a * a && a * u <= a * a) by (nonlinear_arith)
        requires
            a == abs_raw(z),
            a >= u,
            u > 0,
    ;
    lemma_div_is_ordered(a * u, z * z, u);
    assert((a * u) / u == a) by (nonlinear_arith)
        requires
            u > 0,
    ;
    let d = mul_raw(z, z) + I_ATAN2_HELP;
    assert(a * u >= 0) by (nonlinear_arith)
        requires
            a >= 0,
            u > 0,
    ;
    lemma_div_is_ordered_by_denominator(a * u, a, d);
    lemma_div_is_ordered(0, a * u, d);
    assert((a * u) / a == u) by (nonlinear_arith)
        requires
            a > 0,
    ;
    if z < 0 {
        assert(-(z * u) == a * u) by (nonlinear_arith)
            requires
                a == -z,
        ;
    } else {
        assert(z * u == a * u);
    }
}

/// The fractional bits of a raw value and its whole part.
proof fn lemma_split(x: i64)
    ensures
        x & DECIMAL_MASK == x % 0x4000_0000,
        x & !DECIMAL_MASK == (x / 0x4000_0000) * 0x4000_0000,
{
    assert(x & 0x3FFF_FFFFi64 == x % 0x4000_0000) by (bit_vector);
    assert(x & !0x3FFF_FFFFi64 == (x / 0x4000_0000) * 0x4000_0000) by (bit_vector);
}

impl Fix {
    /// `-1`, `0` or `1` by the sign of `value`.
    pub fn sign(value: Fix) -> (r: Fix)
        ensures
            r.0 == sign_raw(value.0 as int),
    {
        if value.0 < 0 {
            Fix(-I_ONE)
        } else if value.0 > 0 {
            Fix(I_ONE)
        } else {
            Fix(0)
        }
    }

    /// The absolute value, computed without a branch. The least raw value
    /// has no positive counterpart and is left out.
    pub fn abs(value: Fix) -> (r: Fix)
        requires
            value.0 != i64::MIN,
        ensures
            r.0 == abs_raw(value.0 as int),
    {
        let x = value.0;
        let mask: i64 = x >> 63u32;
        proof {
            assert(mask == 0 || mask == -1) by (bit_vector)
                requires
                    mask == x >> 63u32,
            ;
            assert(x < 0 <==> mask == -1) by (bit_vector)
                requires
                    mask == x >> 63u32,
            ;
            assert(x < 0 ==> ((x + mask) as i64) ^ mask == -x) by (bit_vector)
                requires
                    mask == x >> 63u32,
                    x != i64::MIN,
            ;
            assert(x >= 0 ==> ((x + mask) as i64) ^ mask == x) by (bit_vector)
                requires
                    mask == x >> 63u32,
            ;
        }
        Fix((x + mask) ^ mask)
    }

    /// Rounds down to a whole number, by clearing the fractional bits.
    pub fn floor(value: Fix) -> (r: Fix)
        ensures
            r.0 == floor_raw(value.0 as int),
    {
        proof {
            lemma_split(value.0);
        }
        Fix(value.0 & !DECIMAL_MASK)
    }

    /// Rounds up to a whole number.
    pub fn ceiling(value: Fix) -> (r: Fix)
        requires
            fits(ceiling_raw(value.0 as int)),
        ensures
            r.0 == ceiling_raw(value.0 as int),
    {
        proof {
            lemma_split(value.0);
        }
        let has_frac = (value.0 & DECIMAL_MASK) != 0;
        if has_frac {
            Self::floor(value) + Fix(I_ONE)
        } else {
            value
        }
    }

    /// Rounds to the nearest whole number; a half rounds up.
    pub fn round(value: Fix) -> (r: Fix)
        requires
            fits(round_raw(value.0 as int)),
        ensures
            r.0 == round_raw(value.0 as int),
    {
        proof {
            lemma_split(value.0);
        }
        let fract = value.0 & DECIMAL_MASK;
        let integral = Self::floor(value);
        if fract < I_HALF {
            return integral;
        }
        integral + Fix(I_ONE)
    }

    /// Degrees to radians.
    pub fn to_radians(&self) -> (r: Fix)
        ensures
            r.0 == mul_raw(self.0 as int, I_DEG_TO_RAD as int),
    {
        let ghost x = self.0 as int;
        proof {
            assert(-0x8000_0000_0000_0000 <= (x * 18740330) / 0x4000_0000 <= 0x7FFF_FFFF_FFFF_FFFF)
                by (nonlinear_arith)
                requires
                    -0x8000_0000_0000_0000 <= x <= 0x7FFF_FFFF_FFFF_FFFF,
            ;
        }
        *self * Fix(I_DEG_TO_RAD)
    }

    /// Radians to degrees.
    pub fn to_degrees(&self) -> (r: Fix)
        requires
            fits(mul_raw(self.0 as int, I_RAD_TO_DEG as int)),
        ensures
            r.0 == mul_raw(self.0 as int, I_RAD_TO_DEG as int),
    {
        *self * Fix(I_RAD_TO_DEG)
    }
    /// The angle of the point `(x, y)`, approximated to within about 0.005
    /// radians.
    pub fn atan2(y: Fix, x: Fix) -> (r: Fix)
        requires
            atan2_in_range(y.0 as int, x.0 as int),
        ensures
            r.0 == atan2_raw(y.0 as int, x.0 as int),
    {
        let yl = y.0;
        let xl = x.0;
        if xl == 0 {
            if yl > 0 {
                return Fix(I_PI_OVER_TWO);
            }
            if yl == 0 {
                return Fix(0);
            }
            return Fix(-I_PI_OVER_TWO);
        }
        let z = y / x;
        let help = Fix(I_ATAN2_HELP);
        if -I_ONE < z.0 && z.0 < I_ONE {
            proof {
                lemma_atan_small(z.0 as int);
            }
            let divider = Fix(I_ONE) + help * z * z;
            let atan = z / divider;
            if xl < 0 {
                if yl < 0 {
                    return atan - Fix(I_PI);
                }
                return atan + Fix(I_PI);
            }
            atan
        } else {
            proof {
                lemma_atan_large(z.0 as int);
            }
            let atan = Fix(I_PI_OVER_TWO) - z / (z * z + help);
            if yl < 0 {
                return atan - Fix(I_PI);
            }
            atan
        }
    }
}

} // verus!
