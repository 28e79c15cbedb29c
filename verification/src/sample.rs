//! A metric value cut down to what the fixed-width renderings need: its sign
//! and class, its size in thousandths up to a cap, and whether anything was
//! cut off below the thousandths.

use crate::reading::Binary64;
use crate::reading::Reading;
use crate::reading::EXPONENT_SPECIAL;
use crate::reading::EXPONENT_UNIT;
use crate::reading::HIDDEN_BIT;
use crate::reading::SIGN_BIT;
use vstd::arithmetic::div_mod::lemma_basic_div;
use vstd::arithmetic::div_mod::lemma_small_mod;
use vstd::arithmetic::power2::lemma2_to64;
use vstd::arithmetic::power2::lemma2_to64_rest;
use vstd::arithmetic::power2::lemma_pow2_adds;
use vstd::arithmetic::power2::lemma_pow2_pos;
use vstd::arithmetic::power2::lemma_pow2_strictly_increases;
use vstd::arithmetic::power2::lemma_pow2_unfold;
use vstd::arithmetic::power2::pow2;
use vstd::prelude::*;

verus! {

/// Sizes of this many thousandths and more are all held as this number.
pub const MILLI_CAP: u64 = 1_000_000_000;

/// The significand of the binary64 value nearest to 9999.99, which is that
/// significand over 2^39: the least time that is shown as too long.
pub const MS_LIMIT_SIGNIFICAND: u64 = 5497552641321861;

/// Whether `num / den` is at least the binary64 value nearest to 9999.99.
pub open spec fn at_ms_limit(num: nat, den: nat) -> bool {
    num * pow2(39) >= MS_LIMIT_SIGNIFICAND * den
}

/// The class of a sampled value.
#[derive(Clone, Copy, Debug, PartialEq, Eq, Structural)]
pub enum SampleKind {
    NotANumber,
    Infinite,
    Finite,
}

/// A metric value as the renderings see it.
#[derive(Clone, Copy, Debug)]
pub struct Sample {
    pub kind: SampleKind,
    pub negative: bool,
    pub subnormal: bool,
    /// The size in whole thousandths, or `MILLI_CAP` when it is that or more.
    pub milli: u64,
    /// Whether the size is a whole number of thousandths. Only meaningful
    /// below the cap.
    pub exact: bool,
    /// Whether the size is at least the least time that is shown as too long.
    pub long: bool,
}

/// A size in thousandths, held at the cap.
pub open spec fn capped(milli: nat) -> nat {
    if milli >= MILLI_CAP {
        MILLI_CAP as nat
    } else {
        milli
    }
}

/// The size of `num / den` in whole thousandths, held at the cap.
pub open spec fn capped_milli(num: nat, den: nat) -> nat {
    capped((1000 * num) / den)
}

impl Sample {
    /// Whether this sample was taken from the reading `r`.
    pub open spec fn reads(self, r: Reading) -> bool {
        match r {
            Reading::NotANumber => self.kind == SampleKind::NotANumber,
            Reading::Infinite { negative } => self.kind == SampleKind::Infinite && self.negative
                == negative,
            Reading::Finite { negative, subnormal, num, den } => {
                &&& self.kind == SampleKind::Finite
                &&& self.negative == negative
                &&& self.subnormal == subnormal
                &&& self.milli == capped_milli(num, den)
                &&& self.milli < MILLI_CAP ==> (self.exact <==> (1000 * num) % den == 0)
                &&& self.long == at_ms_limit(num, den)
            },
        }
    }
}

/// Two to the power `e`, for an `e` below 64.
pub fn power_of_two(e: u64) -> (p: u64)
    requires
        e < 64,
    ensures
        p == pow2(e as nat),
{
    let mut p: u64 = 1;
    let mut i: u64 = 0;
    proof {
        lemma2_to64();
    }
    while i < e
        invariant
            i <= e < 64,
            p == pow2(i as nat),
        decreases e - i,
    {
        proof {
            lemma_pow2_unfold((i + 1) as nat);
            lemma_pow2_strictly_increases((i + 1) as nat, 64);
            lemma2_to64_rest();
        }
        p = p * 2;
        i = i + 1;
    }
    p
}

impl Binary64 {
    /// Samples the value that the pattern stands for.
    pub fn sample(self) -> (s: Sample)
        ensures
            s.reads(self@),
    {
        let negative = self.bits >= SIGN_BIT;
        let magnitude = if negative {
            self.bits - SIGN_BIT
        } else {
            self.bits
        };
        let e = magnitude / HIDDEN_BIT;
        let f = magnitude % HIDDEN_BIT;
        proof {
            lemma2_to64();
            lemma2_to64_rest();
        }
        if e == EXPONENT_SPECIAL {
            let kind = if f == 0 {
                SampleKind::Infinite
            } else {
                SampleKind::NotANumber
            };
            Sample { kind, negative, subnormal: false, milli: 0, exact: true, long: false }
        } else if e == 0 {
            proof {
                lemma_pow2_strictly_increases(63, 1074);
                lemma_basic_div((1000 * f) as int, pow2(1074) as int);
                lemma_small_mod((1000 * f) as nat, pow2(1074));
                lemma_pow2_adds(52, 39);
                lemma_pow2_strictly_increases(91, 1074);
                assert(f * pow2(39) < pow2(52) * pow2(39)) by (nonlinear_arith)
                    requires
                        f < pow2(52),
                        pow2(39) > 0,
                ;
                assert(MS_LIMIT_SIGNIFICAND * pow2(1074) >= pow2(1074)) by (nonlinear_arith);
            }
            Sample {
                kind: SampleKind::Finite,
                negative,
                subnormal: f != 0,
                milli: 0,
                exact: f == 0,
                long: false,
            }
        } else if e >= EXPONENT_UNIT {
            proof {
                let p = pow2((e - EXPONENT_UNIT) as nat);
                lemma_pow2_pos((e - EXPONENT_UNIT) as nat);
                assert((HIDDEN_BIT + f) * p >= HIDDEN_BIT + f) by (nonlinear_arith)
                    requires
                        p >= 1,
                        HIDDEN_BIT + f >= 0,
                ;
                let num = ((HIDDEN_BIT + f) * p) as nat;
                assert(num * pow2(39) >= MS_LIMIT_SIGNIFICAND * 1) by (nonlinear_arith)
                    requires
                        num >= HIDDEN_BIT,
                        pow2(39) >= 1,
                        MS_LIMIT_SIGNIFICAND < 2 * HIDDEN_BIT,
                        HIDDEN_BIT == 0x10_0000_0000_0000,
                        pow2(39) >= 2,
                ;
            }
            Sample {
                kind: SampleKind::Finite,
                negative,
                subnormal: false,
                milli: MILLI_CAP,
                exact: true,
                long: true,
            }
        } else {
            let shift = EXPONENT_UNIT - e;
            let scaled: u64 = 1000 * (HIDDEN_BIT + f);
            let long = shift < 39 || (shift == 39 && HIDDEN_BIT + f >= MS_LIMIT_SIGNIFICAND);
            proof {
                let mant = (HIDDEN_BIT + f) as nat;
                let unit = pow2(shift as nat);
                lemma_pow2_pos(shift as nat);
                if shift < 39 {
                    lemma_pow2_strictly_increases(shift as nat, 39);
                    assert(mant * pow2(39) >= MS_LIMIT_SIGNIFICAND * unit) by (nonlinear_arith)
                        requires
                            mant >= 0x10_0000_0000_0000,
                            MS_LIMIT_SIGNIFICAND < 0x20_0000_0000_0000,
                            2 * unit <= pow2(39),
                            unit > 0,
                    {
                        assert(mant * pow2(39) >= 0x10_0000_0000_0000 * (2 * unit));
                    }
                } else if shift == 39 {
                    assert((mant * pow2(39) >= MS_LIMIT_SIGNIFICAND * pow2(39)) == (mant
                        >= MS_LIMIT_SIGNIFICAND)) by (nonlinear_arith)
                        requires
                            pow2(39) > 0,
                    ;
                } else {
                    lemma_pow2_unfold(shift as nat);
                    if shift > 40 {
                        lemma_pow2_strictly_increases(40, shift as nat);
                    }
                    lemma_pow2_unfold(40);
                    assert(mant * pow2(39) < MS_LIMIT_SIGNIFICAND * unit) by (nonlinear_arith)
                        requires
                            mant < 0x20_0000_0000_0000,
                            MS_LIMIT_SIGNIFICAND >= 0x10_0000_0000_0000,
                            unit >= 2 * pow2(39),
                            pow2(39) > 0,
                    {
                        assert(MS_LIMIT_SIGNIFICAND * unit >= 0x10_0000_0000_0000 * (2 * pow2(39)));
                    }
                }
            }
            if shift >= 64 {
                proof {
                    if shift > 64 {
                        lemma_pow2_strictly_increases(64, shift as nat);
                    }
                    lemma_basic_div(scaled as int, pow2(shift as nat) as int);
                    lemma_small_mod(scaled as nat, pow2(shift as nat));
                }
                Sample {
                    kind: SampleKind::Finite,
                    negative,
                    subnormal: false,
                    milli: 0,
                    exact: false,
                    long,
                }
            } else {
                let unit = power_of_two(shift);
                let whole = scaled / unit;
                let milli = if whole >= MILLI_CAP {
                    MILLI_CAP
                } else {
                    whole
                };
                Sample {
                    kind: SampleKind::Finite,
                    negative,
                    subnormal: false,
                    milli,
                    exact: scaled % unit == 0,
                    long,
                }
            }
        }
    }
}

} // verus!
