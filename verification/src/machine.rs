//! The machine-readable rendering of a metric value: plain decimal text
//! with two digits after the point.

use crate::bigdec::digits_of;
use crate::bigdec::double;
use crate::bigdec::le_value;
use crate::bigdec::canonical;
use crate::bigdec::lemma_le_text_is_decimal;
use crate::bigdec::push_le_text;
use crate::display::push_two_decimals;
use crate::display::two_decimals;
use crate::reading::Binary64;
use crate::reading::Reading;
use crate::reading::EXPONENT_SPECIAL;
use crate::reading::EXPONENT_UNIT;
use crate::reading::HIDDEN_BIT;
use crate::reading::SIGN_BIT;
use crate::rounding::round_half_even;
use crate::sample::power_of_two;
use crate::text::decimal_text;
use vstd::arithmetic::div_mod::lemma_basic_div;
use vstd::arithmetic::div_mod::lemma_small_mod;
use vstd::arithmetic::power2::lemma2_to64;
use vstd::arithmetic::power2::lemma2_to64_rest;
use vstd::arithmetic::power2::lemma_pow2_strictly_increases;
use vstd::arithmetic::power2::lemma_pow2_unfold;
use vstd::arithmetic::power2::pow2;
use vstd::prelude::*;

verus! {

/// The sign that stands before a negative value; nothing before another.
pub open spec fn sign_text(negative: bool) -> Seq<char> {
    if negative {
        seq!['-']
    } else {
        Seq::empty()
    }
}

/// A metric value as plain decimal text.
///
/// A finite value is rounded to two decimals, ties to the even digit, and
/// written in full with a minus sign where its sign is negative. A value
/// that is not finite gives the empty text.
pub open spec fn machine_text(r: Reading) -> Seq<char> {
    match r {
        Reading::Finite { negative, num, den, .. } => sign_text(negative) + two_decimals(
            round_half_even(100 * num, den),
        ),
        _ => Seq::empty(),
    }
}

/// Appends a minus sign for a negative value.
fn push_sign(out: &mut String, negative: bool)
    ensures
        final(out)@ == old(out)@ + sign_text(negative),
{
    if negative {
        proof {
            reveal_strlit("-");
        }
        out.append("-");
        assert("-"@ == seq!['-']);
    } else {
        assert(old(out)@ + Seq::<char>::empty() == old(out)@);
    }
}

/// The decimal digits, lowest first, of `mantissa` times two to the power `doublings`.
fn scaled_digits(mantissa: u64, doublings: u64) -> (digits: Vec<u8>)
    ensures
        canonical(digits@),
        le_value(digits@) == mantissa * pow2(doublings as nat),
{
    let mut digits = digits_of(mantissa as u128);
    let mut i: u64 = 0;
    proof {
        lemma2_to64();
        assert(mantissa * pow2(0) == mantissa) by (nonlinear_arith)
            requires
                pow2(0) == 1,
        ;
    }
    while i < doublings
        invariant
            i <= doublings,
            canonical(digits@),
            le_value(digits@) == mantissa * pow2(i as nat),
        decreases doublings - i,
    {
        proof {
            lemma_pow2_unfold((i + 1) as nat);
            assert(2 * (mantissa * pow2(i as nat)) == mantissa * (2 * pow2(i as nat)))
                by (nonlinear_arith);
        }
        digits = double(&digits);
        i = i + 1;
    }
    digits
}

impl Binary64 {
    /// Renders the value as plain decimal text with two decimals.
    pub fn machine_form(self) -> (out: String)
        ensures
            out@ == machine_text(self@),
    {
        let negative = self.bits >= SIGN_BIT;
        let magnitude = if negative {
            self.bits - SIGN_BIT
        } else {
            self.bits
        };
        let e = magnitude / HIDDEN_BIT;
        let f = magnitude % HIDDEN_BIT;
        proof {
            lemma2_to64();
            lemma2_to64_rest();
        }
        let mut out = String::new();
        if e == EXPONENT_SPECIAL {
            return out;
        }
        push_sign(&mut out, negative);
        if e >= EXPONENT_UNIT {
            let digits = scaled_digits(HIDDEN_BIT + f, e - EXPONENT_UNIT);
            push_le_text(&mut out, &digits);
            proof {
                reveal_strlit(".00");
                lemma_le_text_is_decimal(digits@);
            }
            out.append(".00");
            proof {
                let n = le_value(digits@);
                assert(round_half_even(100 * n, 1) == 100 * n);
                assert(two_decimals(100 * n) == decimal_text(n) + seq!['.', '0', '0']);
                assert(out@ == sign_text(negative) + two_decimals(100 * n));
            }
            out
        } else {
            let significand: u64 = if e == 0 {
                f
            } else {
                HIDDEN_BIT + f
            };
            let shift: u64 = if e == 0 {
                1074
            } else {
                EXPONENT_UNIT - e
            };
            let scaled: u64 = 100 * significand;
            let hundredths: u64 = if shift >= 62 {
                proof {
                    if shift > 62 {
                        lemma_pow2_strictly_increases(62, shift as nat);
                    }
                    lemma_basic_div(scaled as int, pow2(shift as nat) as int);
                    lemma_small_mod(scaled as nat, pow2(shift as nat));
                }
                0
            } else {
                let unit = power_of_two(shift);
                proof {
                    lemma_pow2_strictly_increases(shift as nat, 62);
                }
                let q = scaled / unit;
                let r = scaled % unit;
                if 2 * r < unit {
                    q
                } else if 2 * r > unit {
                    q + 1
                } else if q % 2 == 0 {
                    q
                } else {
                    q + 1
                }
            };
            push_two_decimals(&mut out, hundredths as u128);
            out
        }
    }
}

} // verus!
