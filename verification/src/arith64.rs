//! Arithmetic on binary64 values: each step gives the binary64 value
//! nearest to the exact result.

use crate::bigdec::at_least;
use crate::bigdec::digits_of;
use crate::bigdec::digits_ok;
use crate::bigdec::le_value;
use crate::bigdec::shift_up;
use crate::decimal::lemma_pow10_values;
use crate::decimal::signed_bits;
use crate::decimal::NAN_BITS;
use crate::decimal::lemma_nearest_of_tiny;
use crate::nearest::lemma_level_is_first;
use crate::nearest::lemma_nearest_by_value;
use crate::nearest::level_from;
use crate::nearest::nearest;
use crate::nearest::reaches;
use crate::nearest::TOP_LEVEL;
use crate::rounding::round_half_even;
use vstd::arithmetic::div_mod::lemma_fundamental_div_mod_converse;
use vstd::arithmetic::power2::lemma_pow2_adds;
use vstd::arithmetic::power2::lemma_pow2_strictly_increases;
use vstd::arithmetic::power2::lemma_pow2_unfold;
use crate::nearest::nearest_bits;
use crate::nearest::times_pow2;
use crate::reading::Binary64;
use crate::reading::Reading;
use crate::reading::EXPONENT_SPECIAL;
use crate::reading::EXPONENT_UNIT;
use crate::reading::HIDDEN_BIT;
use crate::reading::SIGN_BIT;
use vstd::arithmetic::power2::lemma2_to64;
use vstd::arithmetic::power2::lemma2_to64_rest;
use vstd::arithmetic::power2::lemma_pow2_pos;
use vstd::arithmetic::power2::pow2;
use vstd::prelude::*;

verus! {

/// The binary64 value nearest to the whole number `n`.
pub open spec fn binary64_of(n: nat) -> Binary64 {
    Binary64 { bits: nearest_bits(n, 1) as u64 }
}

/// The binary64 value nearest to `a` times one hundred. A value that is
/// not finite stays as it is.
pub open spec fn times_hundred(a: Binary64) -> Binary64 {
    match a@ {
        Reading::Finite { negative, num, den, .. } => Binary64 {
            bits: signed_bits(negative, nearest_bits(100 * num, den)),
        },
        _ => a,
    }
}

/// The binary64 value nearest to `a` over `b`, for finite values and a `b`
/// that is not zero; otherwise the value that is not a number.
pub open spec fn quotient(a: Binary64, b: Binary64) -> Binary64 {
    match (a@, b@) {
        (
            Reading::Finite { negative: sa, num: na, den: da, .. },
            Reading::Finite { negative: sb, num: nb, den: db, .. },
        ) => if nb > 0 {
            Binary64 { bits: signed_bits(sa != sb, nearest_bits(na * db, da * nb)) }
        } else {
            Binary64 { bits: NAN_BITS }
        },
        _ => Binary64 { bits: NAN_BITS },
    }
}

/// The percentage `part` of `whole`, computed in binary64: both counts
/// are taken to the nearest binary64 value, the part is multiplied by one
/// hundred, and the product divided by the whole; each of these steps
/// ends in the nearest binary64 value.
pub open spec fn percent_value(part: nat, whole: nat) -> Binary64 {
    quotient(times_hundred(binary64_of(part)), binary64_of(whole))
}

/// A finite value as a fraction: the digits of its numerator, and the
/// power of two that is its denominator.
pub struct Dyadic {
    pub negative: bool,
    pub numerator: Vec<u8>,
    pub halvings: u64,
}

impl Dyadic {
    /// Whether this is the fraction that `r` holds.
    pub open spec fn is(self, r: Reading) -> bool {
        &&& digits_ok(self.numerator@)
        &&& r matches Reading::Finite { negative, num, den, .. }
        &&& self.negative == negative
        &&& le_value(self.numerator@) == num
        &&& pow2(self.halvings as nat) == den
    }
}

impl Binary64 {
    /// The fraction that a finite value stands for; `None` for a value
    /// that is not finite.
    pub fn dyadic(self) -> (parts: Option<Dyadic>)
        ensures
            self@ is Finite <==> parts is Some,
            parts matches Some(d) ==> d.is(self@),
    {
        let negative = self.bits >= SIGN_BIT;
        let magnitude = if negative {
            self.bits - SIGN_BIT
        } else {
            self.bits
        };
        let e = magnitude / HIDDEN_BIT;
        let f = magnitude % HIDDEN_BIT;
        proof {
            lemma2_to64();
            lemma2_to64_rest();
        }
        if e == EXPONENT_SPECIAL {
            None
        } else if e == 0 {
            Some(Dyadic { negative, numerator: digits_of(f as u128), halvings: 1074 })
        } else if e >= EXPONENT_UNIT {
            let whole = digits_of((HIDDEN_BIT + f) as u128);
            Some(Dyadic { negative, numerator: times_pow2(&whole, e - EXPONENT_UNIT), halvings: 0 })
        } else {
            Some(
                Dyadic {
                    negative,
                    numerator: digits_of((HIDDEN_BIT + f) as u128),
                    halvings: EXPONENT_UNIT - e,
                },
            )
        }
    }

    /// The binary64 value nearest to the whole number `n`.
    pub fn of_integer(n: u128) -> (value: Binary64)
        ensures
            value == binary64_of(n as nat),
    {
        let one: Vec<u8> = vec![1u8];
        proof {
            assert(one@.skip(1).len() == 0);
            assert(le_value(one@.skip(1)) == 0);
            assert(le_value(one@) == 1);
        }
        Binary64 { bits: nearest(&digits_of(n), &one) }
    }

    /// The binary64 value nearest to this value times one hundred.
    pub fn times_hundred(self) -> (value: Binary64)
        ensures
            value == times_hundred(self),
    {
        match self.dyadic() {
            Some(d) => {
                let one: Vec<u8> = vec![1u8];
                proof {
                    assert(one@.skip(1).len() == 0);
                    assert(le_value(one@.skip(1)) == 0);
                    assert(le_value(one@) == 1);
                    lemma_pow10_values();
                    lemma_pow2_pos(d.halvings as nat);
                    assert(1 * pow2(d.halvings as nat) == pow2(d.halvings as nat))
                        by (nonlinear_arith);
                }
                let above = shift_up(&d.numerator, 2);
                let below = times_pow2(&one, d.halvings);
                let magnitude = nearest(&above, &below);
                let sign: u64 = if d.negative {
                    SIGN_BIT
                } else {
                    0
                };
                Binary64 { bits: sign + magnitude }
            },
            None => self,
        }
    }

    /// The binary64 value nearest to this value over `other`.
    pub fn over(self, other: Binary64) -> (value: Binary64)
        ensures
            value == quotient(self, other),
    {
        let a = self.dyadic();
        let b = other.dyadic();
        match (a, b) {
            (Some(a), Some(b)) => {
                let one: Vec<u8> = vec![1u8];
                proof {
                    assert(one@.skip(1).len() == 0);
                    assert(le_value(one@.skip(1)) == 0);
                    assert(le_value(one@) == 1);
                }
                if at_least(&b.numerator, &one) {
                    let above = times_pow2(&a.numerator, b.halvings);
                    let below = times_pow2(&b.numerator, a.halvings);
                    proof {
                        let nb = le_value(b.numerator@);
                        let da = pow2(a.halvings as nat);
                        lemma_pow2_pos(a.halvings as nat);
                        assert(nb * da > 0 && nb * da == da * nb) by (nonlinear_arith)
                            requires
                                nb >= 1,
                                da >= 1,
                        ;
                    }
                    let magnitude = nearest(&above, &below);
                    let sign: u64 = if a.negative != b.negative {
                        SIGN_BIT
                    } else {
                        0
                    };
                    Binary64 { bits: sign + magnitude }
                } else {
                    Binary64 { bits: NAN_BITS }
                }
            },
            _ => Binary64 { bits: NAN_BITS },
        }
    }
}

/// The percentage `part` of `whole`, computed in binary64.
pub fn percent_binary64(part: u64, whole: u128) -> (q: Binary64)
    ensures
        q == percent_value(part as nat, whole as nat),
{
    Binary64::of_integer(part as u128).times_hundred().over(Binary64::of_integer(whole))
}

/// A whole number below 2^53 is held by binary64 exactly.
pub proof fn lemma_integer_is_exact(n: nat)
    requires
        n < pow2(53),
    ensures
        binary64_of(n)@ matches Reading::Finite { negative, num, den, .. } && !negative && den > 0
            && num == n * den,
{
    lemma2_to64();
    lemma2_to64_rest();
    if n == 0 {
        lemma_pow2_pos(1074);
        assert(0 * pow2(1076) == 0) by (nonlinear_arith);
        lemma_nearest_of_tiny(0, 1);
        assert(0 * pow2(1074) == 0) by (nonlinear_arith);
    } else {
        lemma_level_is_first(n, 1, 0);
        let u = level_from(n, 1, 0);
        lemma_pow2_strictly_increases(1023, 2045);
        assert(n * pow2(2045) >= pow2(1023) * 1) by (nonlinear_arith)
            requires
                n >= 1,
                pow2(2045) >= pow2(1023),
        ;
        assert(reaches(n, 1, u));
        lemma_pow2_adds(53, 970);
        lemma_pow2_adds(52, 971);
        lemma_pow2_pos(u);
        if u < 971 {
            if u < 970 {
                lemma_pow2_strictly_increases(u, 970);
            }
            assert(n * pow2(u) < pow2(53) * pow2(970)) by (nonlinear_arith)
                requires
                    n < pow2(53),
                    0 < pow2(u) <= pow2(970),
            ;
        }
        let h = (u - 971) as nat;
        lemma_pow2_adds(h, 971);
        lemma_pow2_pos(h);
        lemma_pow2_pos(971);
        let m = n * pow2(h);
        let unit = pow2(971);
        assert(n * pow2(u) == unit * m + 0 && 1 * unit == unit) by (nonlinear_arith)
            requires
                pow2(u) == pow2(h) * unit,
                m == n * pow2(h),
        ;
        lemma_fundamental_div_mod_converse((n * pow2(u)) as int, unit as int, m as int, 0);
        assert(round_half_even(n * pow2(u), unit) == m);
        assert(m >= pow2(52)) by (nonlinear_arith)
            requires
                unit * m >= pow2(52) * unit,
                unit > 0,
        ;
        if u > 971 {
            let below = (u - 1) as nat;
            assert(!reaches(n, 1, below));
            lemma_pow2_unfold(h);
            lemma_pow2_adds((h - 1) as nat, 971);
            let half = n * pow2((h - 1) as nat);
            assert(half < pow2(52)) by (nonlinear_arith)
                requires
                    n * pow2(below) < pow2(52) * unit,
                    pow2(below) == pow2((h - 1) as nat) * unit,
                    half == n * pow2((h - 1) as nat),
                    unit > 0,
            {
                assert(n * pow2(below) == half * unit);
            }
            assert(m == 2 * half) by (nonlinear_arith)
                requires
                    m == n * pow2(h),
                    pow2(h) == 2 * pow2((h - 1) as nat),
                    half == n * pow2((h - 1) as nat),
            ;
        } else {
            assert(m == n) by (nonlinear_arith)
                requires
                    m == n * pow2(h),
                    pow2(h) == 1,
            ;
        }
        lemma_pow2_strictly_increases(53, 1024);
        assert(1 * pow2(1024) == pow2(1024)) by (nonlinear_arith);
        let bits = ((TOP_LEVEL - u) * pow2(52) + m) as nat;
        assert(nearest_bits(n, 1) == bits);
        let e = (2046 - u) as nat;
        let f = (m - pow2(52)) as nat;
        assert(bits == HIDDEN_BIT * e + f) by (nonlinear_arith)
            requires
                bits == (2045 - u) * pow2(52) + m,
                e == 2046 - u,
                f == m - pow2(52),
                pow2(52) == HIDDEN_BIT,
        ;
        lemma_fundamental_div_mod_converse(bits as int, HIDDEN_BIT as int, e as int, f as int);
        assert(bits < SIGN_BIT) by (nonlinear_arith)
            requires
                bits == HIDDEN_BIT * e + f,
                e <= 1075,
                f < HIDDEN_BIT,
                HIDDEN_BIT == 0x10_0000_0000_0000,
                SIGN_BIT == 0x8000_0000_0000_0000,
        ;
        let value = binary64_of(n);
        assert(value.bits == bits);
        assert(value.magnitude_bits() == bits);
        assert(value.exponent_field() == e);
        assert(value.fraction_field() == f);
        if u == 971 {
            assert((HIDDEN_BIT + f) * pow2(0) == n * 1) by (nonlinear_arith)
                requires
                    HIDDEN_BIT + f == m,
                    m == n,
                    pow2(0) == 1,
            ;
        } else {
            assert((EXPONENT_UNIT - e) as nat == h);
        }
    }
}

/// Where binary64 holds both counts and a hundred times the part exactly,
/// the percentage computed in binary64 is rounded once: it is the binary64
/// value nearest to the exact percentage.
pub proof fn lemma_percent_is_nearest(part: nat, whole: nat)
    requires
        100 * part < pow2(53),
        0 < whole < pow2(53),
    ensures
        percent_value(part, whole) == (Binary64 { bits: nearest_bits(100 * part, whole) as u64 }),
{
    let a = binary64_of(part);
    lemma_integer_is_exact(part);
    let (na, da) = (a@->num, a@->den);
    assert((100 * na) * 1 == (100 * part) * da) by (nonlinear_arith)
        requires
            na == part * da,
    ;
    lemma_nearest_by_value(100 * na, da, 100 * part, 1);
    let b = times_hundred(a);
    assert(b == binary64_of(100 * part));
    lemma_integer_is_exact(100 * part);
    let (nb, db) = (b@->num, b@->den);
    let c = binary64_of(whole);
    lemma_integer_is_exact(whole);
    let (nc, dc) = (c@->num, c@->den);
    assert(nc > 0 && db * nc > 0) by (nonlinear_arith)
        requires
            nc == whole * dc,
            whole > 0,
            dc > 0,
            db > 0,
    ;
    assert((nb * dc) * whole == (100 * part) * (db * nc)) by (nonlinear_arith)
        requires
            nb == (100 * part) * db,
            nc == whole * dc,
    ;
    lemma_nearest_by_value(nb * dc, db * nc, 100 * part, whole);
}

} // verus!
