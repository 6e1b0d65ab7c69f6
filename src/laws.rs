use vstd::prelude::*;
use vstd::arithmetic::div_mod::{
    lemma_div_multiples_vanish_fancy, lemma_fundamental_div_mod, lemma_mod_pos_bound,
};
use vstd::std_specs::ops::{AddSpec, DivSpec, MulSpec, SubSpec};

use crate::fix::{div_raw, fits, mul_raw, trunc_div, trunc_rem, unit, Fix};
use crate::math::{ceiling_raw, floor_raw, round_raw};
use crate::parse::{lemma_pow10_bounds, lemma_scan_grows, parse_spec, pow10, scan};
use crate::sqrt::is_rounded_sqrt;

verus! {

/// Adding `b` and then subtracting it gives back `a`, whenever the sum is
/// representable.
pub proof fn law_add_then_sub(a: Fix, b: Fix)
    requires
        fits(a.0 + b.0),
    ensures
        a.add_req(b),
        a.add_spec(b).sub_req(b),
        a.add_spec(b).sub_spec(b) == a,
{
}

/// The truncating remainder is what the truncating quotient leaves over.
proof fn lemma_trunc_div_rem(n: int, d: int)
    requires
        d != 0,
    ensures
        n == d * trunc_div(n, d) + trunc_rem(n, d),
{
    if n >= 0 {
        lemma_fundamental_div_mod(n, d);
    } else {
        lemma_fundamental_div_mod(-n, d);
        assert(d * (-((-n) / d)) == -(d * ((-n) / d))) by (nonlinear_arith);
    }
}

/// Dividing by `b` and multiplying back by `b` gives back `a` exactly when
/// the remainder of the division, in raw units, lies in `(-2^30, 0]`: then
/// the round trip loses less than one raw unit, that is, nothing. Where the
/// remainder is positive (an inexact quotient of a positive dividend) or at
/// most `-2^30`, the product falls at least one raw unit below `a`.
pub proof fn law_div_then_mul(a: Fix, b: Fix)
    requires
        b.0 != 0,
        fits(div_raw(a.0 as int, b.0 as int)),
        fits(mul_raw(div_raw(a.0 as int, b.0 as int), b.0 as int)),
        -unit() < trunc_rem(a.0 * unit(), b.0 as int) <= 0,
    ensures
        a.div_req(b),
        a.div_spec(b).mul_req(b),
        a.div_spec(b).mul_spec(b) == a,
{
    let n = a.0 * unit();
    let q = trunc_div(n, b.0 as int);
    let r = trunc_rem(n, b.0 as int);
    lemma_trunc_div_rem(n, b.0 as int);
    assert(q * b.0 == b.0 * q) by (nonlinear_arith);
    assert(q * b.0 == unit() * a.0 + (-r));
    lemma_div_multiples_vanish_fancy(a.0 as int, -r, unit());
}

/// For a divisor of magnitude at most one (`|b| <= 2^30` raw), dividing by
/// `b` and multiplying back loses at most one raw unit, and never gains.
pub proof fn law_div_then_mul_small_divisor(a: Fix, b: Fix)
    requires
        b.0 != 0,
        -unit() <= b.0 <= unit(),
        fits(div_raw(a.0 as int, b.0 as int)),
        fits(mul_raw(div_raw(a.0 as int, b.0 as int), b.0 as int)),
    ensures
        a.div_req(b),
        a.div_spec(b).mul_req(b),
        a.0 - 1 <= a.div_spec(b).mul_spec(b).0 <= a.0,
{
    let n = a.0 * unit();
    let d = b.0 as int;
    let q = trunc_div(n, d);
    let r = trunc_rem(n, d);
    lemma_trunc_div_rem(n, d);
    lemma_trunc_rem_bound(n, d);
    assert(q * d == d * q) by (nonlinear_arith);
    if r <= 0 {
        lemma_div_multiples_vanish_fancy(a.0 as int, -r, unit());
    } else {
        assert(q * d == unit() * (a.0 - 1) + (unit() - r));
        lemma_div_multiples_vanish_fancy(a.0 - 1, unit() - r, unit());
    }
}

/// The truncating remainder is smaller than the divisor in magnitude, and
/// has the sign of the dividend.
proof fn lemma_trunc_rem_bound(n: int, d: int)
    requires
        d != 0,
    ensures
        n >= 0 ==> 0 <= trunc_rem(n, d) < if d > 0 { d } else { -d },
        n < 0 ==> 0 >= trunc_rem(n, d) > if d > 0 { -d } else { d },
{
    if n >= 0 {
        lemma_mod_pos_bound_any(n, d);
    } else {
        lemma_mod_pos_bound_any(-n, d);
    }
}

/// The Euclidean remainder lies in `[0, |d|)`.
proof fn lemma_mod_pos_bound_any(n: int, d: int)
    requires
        d != 0,
    ensures
        0 <= n % d < if d > 0 { d } else { -d },
{
    if d > 0 {
        assert(0 <= n % d < d) by (nonlinear_arith)
            requires
                d > 0,
        ;
    } else {
        assert(0 <= n % d < -d) by (nonlinear_arith)
            requires
                d < 0,
        ;
    }
}

/// A well-formed decimal text is read to within one raw unit of its exact
/// value. With `k` fractional digits read, the exact value times `2^30` is
/// `(whole * 10^k + frac) * 2^30 / 10^k`; scaled by `10^k`, the raw result
/// differs from it by less than `10^k`.
pub proof fn law_parse_within_one_unit(s: Seq<char>)
    requires
        parse_spec(s) is Ok,
    ensures
        ({
            let st = scan(s);
            let p = pow10(st.decimals);
            let exact = (st.whole * p + st.frac) * unit();
            let signed_exact = if st.minus {
                -exact
            } else {
                exact
            };
            -p < parse_spec(s)->Ok_0 * p - signed_exact < p
        }),
{
    let st = scan(s);
    let p = pow10(st.decimals);
    let f = st.frac * unit();
    let q = f / p;
    lemma_scan_grows(s);
    lemma_pow10_bounds(st.decimals);
    lemma_fundamental_div_mod(f, p);
    lemma_mod_pos_bound(f, p);
    let m = st.whole * unit() + q;
    assert(m * p == (st.whole * p) * unit() + p * q) by (nonlinear_arith)
        requires
            m == st.whole * unit() + q,
    ;
    assert((st.whole * p + st.frac) * unit() == (st.whole * p) * unit() + f) by (nonlinear_arith)
        requires
            f == st.frac * unit(),
    ;
    assert((-m) * p == -(m * p)) by (nonlinear_arith);
}

/// Whole numbers are left as they are by `floor`, `ceiling` and `round`.
pub proof fn law_whole_numbers_unchanged(x: Fix)
    requires
        (x.0 as int) % unit() == 0,
    ensures
        floor_raw(x.0 as int) == x.0,
        ceiling_raw(x.0 as int) == x.0,
        round_raw(x.0 as int) == x.0,
{
}

/// A value exactly halfway between two whole numbers rounds up.
pub proof fn law_halves_round_up(x: Fix)
    requires
        (x.0 as int) % unit() == unit() / 2,
    ensures
        round_raw(x.0 as int) == floor_raw(x.0 as int) + unit(),
{
}

/// At most one integer is nearest to a square root, so the contract of
/// `sqrt` fixes its result.
pub proof fn law_rounded_sqrt_unique(n: int, r1: int, r2: int)
    requires
        is_rounded_sqrt(n, r1),
        is_rounded_sqrt(n, r2),
    ensures
        r1 == r2,
{
    assert(r1 == r2) by (nonlinear_arith)
        requires
            is_rounded_sqrt(n, r1),
            is_rounded_sqrt(n, r2),
    ;
}

} // verus!
