//! What a metric value is: an exact fraction with a sign, or one of the
//! markers for a value that is not a finite number.
//!
//! Metric values reach the library as IEEE 754 binary64 bit patterns
//! ([`Binary64`]). A pattern stands for an exact fraction, and all later
//! arithmetic is done on integers.

use vstd::arithmetic::power2::lemma_pow2_pos;
use vstd::arithmetic::power2::pow2;
use vstd::prelude::*;

verus! {

/// The mathematical content of a metric value.
pub enum Reading {
    /// Not a number.
    NotANumber,
    /// Positive or negative infinity.
    Infinite { negative: bool },
    /// The fraction `num / den`, with its sign kept apart so that a negative
    /// zero is told from a positive one. `subnormal` marks a non-zero value
    /// too small for the normal range of binary64.
    Finite { negative: bool, subnormal: bool, num: nat, den: nat },
}

impl Reading {
    /// The denominator of a finite reading is positive.
    pub open spec fn wf(self) -> bool {
        match self {
            Reading::Finite { den, .. } => den > 0,
            _ => true,
        }
    }

    /// The non-negative fraction `num / den`, without a sign.
    pub open spec fn fraction(num: nat, den: nat) -> Reading {
        Reading::Finite { negative: false, subnormal: false, num, den }
    }

    /// Plus zero.
    pub open spec fn zero() -> Reading {
        Reading::Finite { negative: false, subnormal: false, num: 0, den: 1 }
    }

    /// Whether the sign of the value is negative. A value that is not a
    /// number counts as having none.
    pub open spec fn sign_negative(self) -> bool {
        match self {
            Reading::NotANumber => false,
            Reading::Infinite { negative } => negative,
            Reading::Finite { negative, .. } => negative,
        }
    }

    /// A finite value that is neither zero nor subnormal.
    pub open spec fn is_normal(self) -> bool {
        match self {
            Reading::Finite { subnormal, num, .. } => num > 0 && !subnormal,
            _ => false,
        }
    }

    /// A finite value above zero.
    pub open spec fn is_positive(self) -> bool {
        match self {
            Reading::Finite { negative, num, .. } => num > 0 && !negative,
            _ => false,
        }
    }
}

/// The bit at which the sign of a binary64 pattern is kept.
pub const SIGN_BIT: u64 = 0x8000_0000_0000_0000;

/// Two to the power 52: the implicit leading bit of a normal significand.
pub const HIDDEN_BIT: u64 = 0x10_0000_0000_0000;

/// The exponent field of infinities and of values that are not numbers.
pub const EXPONENT_SPECIAL: u64 = 2047;

/// The exponent field of the values from 2^52 up to 2^53, whose significand is
/// their integer value.
pub const EXPONENT_UNIT: u64 = 1075;

/// An IEEE 754 binary64 value, held as its bit pattern.
#[derive(Clone, Copy, Debug, PartialEq, Eq, Structural)]
pub struct Binary64 {
    pub bits: u64,
}

impl Binary64 {
    /// The pattern without its sign bit.
    pub open spec fn magnitude_bits(self) -> nat {
        if self.bits >= SIGN_BIT {
            (self.bits - SIGN_BIT) as nat
        } else {
            self.bits as nat
        }
    }

    /// The biased exponent, from 0 to 2047.
    pub open spec fn exponent_field(self) -> nat {
        self.magnitude_bits() / (HIDDEN_BIT as nat)
    }

    /// The 52 stored bits of the significand.
    pub open spec fn fraction_field(self) -> nat {
        self.magnitude_bits() % (HIDDEN_BIT as nat)
    }

    /// The value that the pattern stands for.
    pub open spec fn reading(self) -> Reading {
        let negative = self.bits >= SIGN_BIT;
        let e = self.exponent_field();
        let f = self.fraction_field();
        if e == EXPONENT_SPECIAL {
            if f == 0 {
                Reading::Infinite { negative }
            } else {
                Reading::NotANumber
            }
        } else if e == 0 {
            Reading::Finite { negative, subnormal: f != 0, num: f, den: pow2(1074) }
        } else if e >= EXPONENT_UNIT {
            Reading::Finite {
                negative,
                subnormal: false,
                num: ((HIDDEN_BIT + f) * pow2((e - EXPONENT_UNIT) as nat)) as nat,
                den: 1,
            }
        } else {
            Reading::Finite {
                negative,
                subnormal: false,
                num: (HIDDEN_BIT + f) as nat,
                den: pow2((EXPONENT_UNIT - e) as nat),
            }
        }
    }

    pub fn from_bits(bits: u64) -> (value: Binary64)
        ensures
            value.bits == bits,
    {
        Binary64 { bits }
    }

    pub fn to_bits(self) -> (bits: u64)
        ensures
            bits == self.bits,
    {
        self.bits
    }

    /// Whether the value is neither infinite nor not-a-number.
    pub fn is_finite(self) -> (finite: bool)
        ensures
            finite == (self@ is Finite),
    {
        let magnitude = if self.bits >= SIGN_BIT {
            self.bits - SIGN_BIT
        } else {
            self.bits
        };
        magnitude / HIDDEN_BIT != EXPONENT_SPECIAL
    }

    /// Whether the value is finite and above zero.
    pub fn is_positive(self) -> (positive: bool)
        ensures
            positive == self@.is_positive(),
    {
        proof {
            lemma_pow2_pos((self.exponent_field() - EXPONENT_UNIT) as nat);
            if self.exponent_field() >= EXPONENT_UNIT {
                let f = self.fraction_field();
                let p = pow2((self.exponent_field() - EXPONENT_UNIT) as nat);
                assert((HIDDEN_BIT + f) * p > 0) by (nonlinear_arith)
                    requires
                        p > 0,
                        HIDDEN_BIT + f > 0,
                ;
            }
        }
        self.bits > 0 && self.bits < SIGN_BIT && self.bits / HIDDEN_BIT != EXPONENT_SPECIAL
    }
}

impl View for Binary64 {
    type V = Reading;

    open spec fn view(&self) -> Reading {
        self.reading()
    }
}

/// Every bit pattern stands for a well-formed reading.
pub proof fn lemma_binary64_wf(value: Binary64)
    ensures
        value@.wf(),
{
    lemma_pow2_pos(1074);
    lemma_pow2_pos((EXPONENT_UNIT - value.exponent_field()) as nat);
}

} // verus!
