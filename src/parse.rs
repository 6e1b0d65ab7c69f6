use vstd::prelude::*;
use vstd::string::StrSliceExecFns;

use crate::fix::{fits, unit, lemma_div_whole, lemma_mul_whole, Fix, I_MAX, I_ONE};

verus! {

/// Why a decimal text could not be read as a `Fix`.
#[derive(Clone, Copy, Debug, PartialEq, Eq, Structural)]
pub enum ParseError {
    /// The text is empty.
    Empty,
    /// A character other than a digit, a single point or a leading minus.
    Malformed,
    /// The integer part is too large for the type.
    Overflow,
}

/// Fractional digits that are read; those after them are ignored. This is
/// `floor(log10(2^30))`, the digits that thirty fractional bits can hold.
pub const MAX_DECIMALS: i64 = 9;

pub open spec fn is_digit(c: char) -> bool {
    '0' <= c <= '9'
}

pub open spec fn digit_value(c: char) -> int {
    c as int - '0' as int
}

pub open spec fn pow10(k: nat) -> int
    decreases k,
{
    if k == 0 {
        1
    } else {
        10 * pow10((k - 1) as nat)
    }
}

/// What a left-to-right reading of a text has gathered.
pub struct Scan {
    /// A leading minus was read.
    pub minus: bool,
    /// Some digit was read.
    pub digit: bool,
    /// Whether the point was read.
    pub point: bool,
    /// The digits read after the point.
    pub decimals: nat,
    /// The integer part read so far.
    pub whole: int,
    /// The fractional digits read so far, as an integer.
    pub frac: int,
    /// A character was out of place.
    pub malformed: bool,
}

/// Nothing after this state is read any more.
pub open spec fn finished(st: Scan) -> bool {
    st.malformed || st.decimals >= MAX_DECIMALS
}

pub open spec fn scan_start() -> Scan {
    Scan { minus: false, digit: false, point: false, decimals: 0, whole: 0, frac: 0, malformed: false }
}

/// Reading one more character.
pub open spec fn scan_step(st: Scan, c: char) -> Scan {
    if finished(st) {
        st
    } else if c == '-' {
        if st.minus || st.digit || st.point {
            Scan { malformed: true, ..st }
        } else {
            Scan { minus: true, ..st }
        }
    } else if c == '.' {
        if st.point {
            Scan { malformed: true, ..st }
        } else {
            Scan { point: true, ..st }
        }
    } else if !is_digit(c) {
        Scan { malformed: true, ..st }
    } else if st.point {
        Scan {
            digit: true,
            frac: st.frac * 10 + digit_value(c),
            decimals: st.decimals + 1,
            ..st
        }
    } else {
        Scan { digit: true, whole: st.whole * 10 + digit_value(c), ..st }
    }
}

/// The state after reading all of `s`.
pub open spec fn scan(s: Seq<char>) -> Scan
    decreases s.len(),
{
    if s.len() == 0 {
        scan_start()
    } else {
        scan_step(scan(s.drop_last()), s.last())
    }
}

/// The raw value of a well-formed reading: the integer part plus the
/// fraction rounded down to a multiple of `2^-30`, with the sign applied.
pub open spec fn scan_value(st: Scan) -> int {
    let magnitude = st.whole * unit() + (st.frac * unit()) / pow10(st.decimals);
    if st.minus {
        -magnitude
    } else {
        magnitude
    }
}

/// What reading the decimal text `s` gives.
pub open spec fn parse_spec(s: Seq<char>) -> Result<int, ParseError> {
    if s.len() == 0 {
        Err(ParseError::Empty)
    } else if scan(s).malformed {
        Err(ParseError::Malformed)
    } else if !fits(scan(s).whole * unit()) {
        Err(ParseError::Overflow)
    } else {
        Ok(scan_value(scan(s)))
    }
}

pub(crate) proof fn lemma_scan_grows(s: Seq<char>)
    ensures
        scan(s).whole >= 0,
        0 <= scan(s).frac < pow10(scan(s).decimals),
        scan(s).decimals <= MAX_DECIMALS,
        !scan(s).point ==> scan(s).decimals == 0,
    decreases s.len(),
{
    if s.len() > 0 {
        lemma_scan_grows(s.drop_last());
    }
}

pub(crate) proof fn lemma_pow10_bounds(k: nat)
    requires
        k <= MAX_DECIMALS,
    ensures
        0 < pow10(k) <= 1_000_000_000,
{
    reveal_with_fuel(pow10, 10);
}

/// Once reading has finished, further characters change nothing.
proof fn lemma_finished_stays(s: Seq<char>, i: int, j: int)
    requires
        0 <= i <= j <= s.len(),
        finished(scan(s.take(i))),
    ensures
        scan(s.take(j)) == scan(s.take(i)),
    decreases j - i,
{
    if j > i {
        lemma_finished_stays(s, i, j - 1);
        assert(s.take(j).drop_last() =~= s.take(j - 1));
    }
}

impl Fix {
    /// Reads a decimal text such as `-12.34`: an optional leading minus,
    /// digits, and at most one point followed by digits. Fractional digits
    /// past `MAX_DECIMALS` are not read at all, whatever they are.
    pub fn from_str(value: &str) -> (r: Result<Fix, ParseError>)
        ensures
            match parse_spec(value@) {
                Ok(v) => fits(v) && r == Ok::<Fix, ParseError>(Fix(v as i64)),
                Err(e) => r == Err::<Fix, ParseError>(e),
            },
    {
        let n = value.unicode_len();
        if n == 0 {
            return Err(ParseError::Empty);
        }
        let ghost s = value@;
        let mut rez = Fix::zero();
        let mut dez = Fix::zero();
        let mut divider = Fix::one();
        let mut fact = Fix::one();
        let mut minus_seen = false;
        let mut digit_seen = false;
        let mut decimals_seen: i64 = -1;
        let mut too_large = false;
        let mut i: usize = 0;
        proof {
            assert(s.take(0) =~= Seq::<char>::empty());
        }
        while i < n && decimals_seen < MAX_DECIMALS
            invariant
                n == s.len(),
                s == value@,
                0 <= i <= n,
                !scan(s.take(i as int)).malformed,
                minus_seen == scan(s.take(i as int)).minus,
                digit_seen == scan(s.take(i as int)).digit,
                decimals_seen < 0 <==> !scan(s.take(i as int)).point,
                scan(s.take(i as int)).point ==> decimals_seen == scan(s.take(i as int)).decimals,
                fact.0 == (if scan(s.take(i as int)).minus { -unit() } else { unit() }),
                too_large <==> !fits(scan(s.take(i as int)).whole * unit()),
                !too_large ==> rez.0 == scan(s.take(i as int)).whole * unit(),
                dez.0 == scan(s.take(i as int)).frac * unit(),
                divider.0 == pow10(scan(s.take(i as int)).decimals) * unit(),
            decreases n - i,
        {
            let ch = value.get_char(i);
            let ghost st = scan(s.take(i as int));
            proof {
                assert(s.take(i + 1).drop_last() =~= s.take(i as int));
                lemma_scan_grows(s.take(i as int));
            }
            if ch == '-' {
                if minus_seen || digit_seen || decimals_seen >= 0 {
                    proof {
                        lemma_finished_stays(s, i + 1, n as int);
                        assert(s.take(n as int) =~= s);
                    }
                    return Err(ParseError::Malformed);
                }
                minus_seen = true;
                fact = core::ops::Neg::neg(fact);
            } else if ch == '.' {
                if decimals_seen >= 0 {
                    proof {
                        lemma_finished_stays(s, i + 1, n as int);
                        assert(s.take(n as int) =~= s);
                    }
                    return Err(ParseError::Malformed);
                }
                decimals_seen = 0;
            } else if ch < '0' || ch > '9' {
                proof {
                    lemma_finished_stays(s, i + 1, n as int);
                    assert(s.take(n as int) =~= s);
                }
                return Err(ParseError::Malformed);
            } else {
                let d: i64 = (ch as u32 - '0' as u32) as i64;
                digit_seen = true;
                if decimals_seen >= 0 {
                    proof {
                        lemma_mul_whole(st.frac * unit(), 10);
                        lemma_mul_whole(pow10(st.decimals) * unit(), 10);
                        assert(st.frac * unit() * 10 + d * unit() == (st.frac * 10 + d) * unit())
                            by (nonlinear_arith);
                        assert(pow10(st.decimals) * unit() * 10 == pow10(st.decimals + 1) * unit())
                            by (nonlinear_arith)
                            requires
                                pow10(st.decimals + 1) == 10 * pow10(st.decimals),
                        ;
                        lemma_pow10_bounds((st.decimals + 1) as nat);
                    }
                    dez = dez * Fix::ten() + Fix::new(d);
                    divider = divider * Fix::ten();
                    decimals_seen += 1;
                } else if !too_large {
                    let next: i128 = (rez.0 as i128) * 10 + (d as i128) * (I_ONE as i128);
                    if next > I_MAX as i128 {
                        too_large = true;
                    } else {
                        proof {
                            lemma_mul_whole(st.whole * unit(), 10);
                        }
                        rez = rez * Fix::ten() + Fix::new(d);
                    }
                } else {
                    proof {
                        assert(st.whole * 10 + d >= st.whole);
                    }
                }
            }
            i += 1;
        }
        let ghost fin = scan(s.take(i as int));
        proof {
            if i < n {
                lemma_finished_stays(s, i as int, n as int);
            }
            assert(s.take(n as int) =~= s);
            lemma_scan_grows(s.take(i as int));
            lemma_pow10_bounds(fin.decimals);
            lemma_div_whole(fin.frac * unit(), pow10(fin.decimals));
            assert((fin.frac * 0x4000_0000) / pow10(fin.decimals) < 0x4000_0000) by (nonlinear_arith)
                requires
                    0 <= fin.frac < pow10(fin.decimals),
            ;
            assert((fin.frac * 0x4000_0000) / pow10(fin.decimals) >= 0) by (nonlinear_arith)
                requires
                    0 <= fin.frac,
                    0 < pow10(fin.decimals),
            ;
        }
        if too_large {
            return Err(ParseError::Overflow);
        }
        let magnitude = rez + dez / divider;
        proof {
            lemma_mul_whole(magnitude.0 as int, 1);
            lemma_mul_whole(magnitude.0 as int, -1);
        }
        Ok(magnitude * fact)
    }
}

} // verus!
