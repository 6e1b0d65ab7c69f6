use vstd::prelude::*;

use crate::fix::{unit, Fix, I_ONE};

verus! {

/// Why a mathematical function has no value at its argument.
#[derive(Clone, Copy, Debug, PartialEq, Eq, Structural)]
pub enum DomainError {
    /// The square root of a negative number.
    NegativeSqrt,
}

/// Whether `r` is the integer nearest to the square root of `n`: the root
/// lies in `[r - 1/2, r + 1/2)`, which for integers reads as below.
pub open spec fn is_rounded_sqrt(n: int, r: int) -> bool {
    &&& r >= 0
    &&& (r == 0 || r * r - r < n)
    &&& n <= r * r + r
}

/// `2^k`.
spec fn two_pow(k: nat) -> int
    decreases k,
{
    if k == 0 {
        1
    } else {
        2 * two_pow((k - 1) as nat)
    }
}

proof fn lemma_two_pow_positive(k: nat)
    ensures
        two_pow(k) >= 1,
    decreases k,
{
    if k > 0 {
        lemma_two_pow_positive((k - 1) as nat);
    }
}

impl Fix {
    /// The square root, rounded to the nearest multiple of `2^-30`.
    ///
    /// The root is found digit by digit: each step decides one binary digit
    /// of the root of the raw value scaled by `2^30`, which a 128-bit
    /// accumulator holds without rescaling midway.
    pub fn sqrt(value: Fix) -> (r: Result<Fix, DomainError>)
        ensures
            value.0 < 0 ==> r == Err::<Fix, DomainError>(DomainError::NegativeSqrt),
            value.0 >= 0 ==> r is Ok && is_rounded_sqrt(value.0 * unit(), r->Ok_0.0 as int),
    {
        let xl = value.0;
        if xl < 0 {
            return Err(DomainError::NegativeSqrt);
        }
        let target: u128 = (xl as u128) * (I_ONE as u128);
        let ghost n = target as int;
        let mut num: u128 = target;
        let mut result: u128 = 0;
        let mut bit: u128 = 0x1000_0000_0000_0000_0000_0000;
        // `bit` is `2^k * 2^k`; the root found so far is `rp`, a multiple of
        // `2^(k+1)`, and `result` is `rp * 2^(k+1)`.
        let ghost mut k: int = 46;
        let ghost mut rp: int = 0;
        proof {
            reveal_with_fuel(two_pow, 48);
            assert(two_pow(46) == 0x4000_0000_0000);
            assert(two_pow(47) == 0x8000_0000_0000);
            assert(bit == two_pow(46) * two_pow(46));
        }
        while bit > num
            invariant
                num == n,
                0 <= n < 0x2000_0000_0000_0000_0000_0000,
                -1 <= k <= 46,
                k >= 0 ==> bit == two_pow(k as nat) * two_pow(k as nat),
                k < 0 ==> bit == 0,
                n < two_pow((k + 1) as nat) * two_pow((k + 1) as nat),
                two_pow((k + 1) as nat) <= 0x8000_0000_0000,
            decreases k + 1,
        {
            proof {
                assert(bit >> 2u32 == bit / 4) by (bit_vector);
                if k > 0 {
                    assert(two_pow(k as nat) * two_pow(k as nat) == 4 * (two_pow((k - 1) as nat) * two_pow((k - 1) as nat)))
                        by (nonlinear_arith)
                        requires
                            two_pow(k as nat) == 2 * two_pow((k - 1) as nat),
                    ;
                } else {
                    assert(two_pow(0) == 1);
                }
            }
            bit = bit >> 2u32;
            proof {
                k = k - 1;
            }
        }
        while bit != 0
            invariant
                0 <= n < 0x2000_0000_0000_0000_0000_0000,
                -1 <= k <= 46,
                k >= 0 ==> bit == two_pow(k as nat) * two_pow(k as nat),
                k < 0 ==> bit == 0,
                two_pow((k + 1) as nat) <= 0x8000_0000_0000,
                0 <= rp,
                rp * rp <= n,
                num == n - rp * rp,
                result == rp * two_pow((k + 1) as nat),
                n < (rp + two_pow((k + 1) as nat)) * (rp + two_pow((k + 1) as nat)),
            decreases k + 1,
        {
            let ghost h = two_pow(k as nat);
            let ghost q = two_pow((k + 1) as nat);
            proof {
                lemma_two_pow_positive(k as nat);
                assert(q == 2 * h);
                assert(rp <= 0x8000_0000_0000) by (nonlinear_arith)
                    requires
                        rp * rp <= n,
                        n < 0x2000_0000_0000_0000_0000_0000,
                        0 <= rp,
                ;
                assert(rp * q <= 0x8000_0000_0000 * 0x8000_0000_0000) by (nonlinear_arith)
                    requires
                        0 <= rp <= 0x8000_0000_0000,
                        0 < q <= 0x8000_0000_0000,
                ;
                assert(h * h <= 0x8000_0000_0000 * 0x8000_0000_0000) by (nonlinear_arith)
                    requires
                        0 < h,
                        2 * h <= 0x8000_0000_0000,
                ;
                assert((rp + h) * (rp + h) == rp * rp + rp * q + h * h) by (nonlinear_arith)
                    requires
                        q == 2 * h,
                ;
                assert(rp * q == 2 * (rp * h)) by (nonlinear_arith)
                    requires
                        q == 2 * h,
                ;
                assert(result >> 1u32 == result / 2) by (bit_vector);
                assert(bit >> 2u32 == bit / 4) by (bit_vector);
                if k > 0 {
                    assert(h * h == 4 * (two_pow((k - 1) as nat) * two_pow((k - 1) as nat)))
                        by (nonlinear_arith)
                        requires
                            h == 2 * two_pow((k - 1) as nat),
                    ;
                }
            }
            if num >= result + bit {
                num = num - (result + bit);
                result = (result >> 1u32) + bit;
                proof {
                    rp = rp + h;
                    assert(result == rp * h) by (nonlinear_arith)
                        requires
                            result == (rp - h) * h + h * h,
                    ;
                }
            } else {
                result = result >> 1u32;
            }
            bit = bit >> 2u32;
            proof {
                k = k - 1;
            }
        }
        proof {
            if k >= 0 {
                lemma_two_pow_positive(k as nat);
                assert(two_pow(k as nat) * two_pow(k as nat) >= 1) by (nonlinear_arith)
                    requires
                        two_pow(k as nat) >= 1,
                ;
            }
            assert(k == -1);
            assert(two_pow(0) == 1);
            assert(rp <= 0x8000_0000_0000) by (nonlinear_arith)
                requires
                    rp * rp <= n,
                    n < 0x2000_0000_0000_0000_0000_0000,
                    0 <= rp,
            ;
        }
        if num > result {
            result = result + 1;
            proof {
                assert(is_rounded_sqrt(n, rp + 1)) by (nonlinear_arith)
                    requires
                        0 <= rp,
                        rp * rp + rp < n,
                        n < (rp + 1) * (rp + 1),
                ;
            }
        } else {
            proof {
                assert(is_rounded_sqrt(n, rp)) by (nonlinear_arith)
                    requires
                        0 <= rp,
                        rp * rp <= n,
                        n <= rp * rp + rp,
                ;
            }
        }
        Ok(Fix(result as i64))
    }
}

} // verus!
