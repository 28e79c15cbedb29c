//! The binary64 value nearest to a fraction.
//!
//! A fraction that binary64 cannot hold is rounded to the nearest value
//! that it can, and to the one with the even significand where two are
//! equally near; a fraction of 2^1024 or more, or one that rounds up to
//! it, becomes infinity. This is how a decimal numeral is read into
//! binary64, and how each arithmetic step in binary64 ends.

use crate::bigdec::at_least;
use crate::bigdec::digits_ok;
use crate::bigdec::double;
use crate::bigdec::le_value;
use crate::bigdec::minus;
use crate::rounding::lemma_round_by_value;
use crate::rounding::lemma_threshold_by_value;
use crate::rounding::round_half_even;
use vstd::arithmetic::div_mod::lemma_fundamental_div_mod_converse;
use vstd::arithmetic::power2::lemma2_to64;
use vstd::arithmetic::power2::lemma2_to64_rest;
use vstd::arithmetic::power2::lemma_pow2_adds;
use vstd::arithmetic::power2::lemma_pow2_pos;
use vstd::arithmetic::power2::lemma_pow2_strictly_increases;
use vstd::arithmetic::power2::lemma_pow2_unfold;
use vstd::arithmetic::power2::pow2;
use vstd::prelude::*;

verus! {

/// The bit pattern of positive infinity.
pub const INFINITY_BITS: u64 = 0x7ff0_0000_0000_0000;

/// The highest level: the one of the subnormal values, which are whole
/// multiples of 2^-1074.
pub const TOP_LEVEL: u64 = 2045;

/// Whether `num / den` times 2^(`level` - 971) is 2^52 or more: whether a
/// significand taken at this level has all its 53 bits.
pub open spec fn reaches(num: nat, den: nat, level: nat) -> bool {
    num * pow2(level) >= pow2(1023) * den
}

/// The first level from `level` on at which `num / den` has a full
/// significand, or the highest level where it has one at none.
pub open spec fn level_from(num: nat, den: nat, level: nat) -> nat
    decreases TOP_LEVEL - level,
{
    if level >= TOP_LEVEL || reaches(num, den, level) {
        level
    } else {
        level_from(num, den, level + 1)
    }
}

/// The bit pattern, without the sign, of the binary64 value nearest to
/// `num / den`.
///
/// At the level `u` of the fraction, the significand is the fraction times
/// 2^(`u` - 971), rounded to the nearest integer, ties to even. The pattern
/// is 2045 - `u` in the exponent field, less one, plus the significand: a
/// significand that rounds up to 2^53 carries into the next exponent, and
/// from the largest exponent into infinity.
pub open spec fn nearest_bits(num: nat, den: nat) -> nat {
    if num >= den * pow2(1024) {
        INFINITY_BITS as nat
    } else {
        let u = level_from(num, den, 0);
        ((TOP_LEVEL - u) * pow2(52) + round_half_even(num * pow2(u), den * pow2(971))) as nat
    }
}

/// A fraction that has a full significand at one level has one at the next.
proof fn lemma_reaches_next(num: nat, den: nat, level: nat)
    requires
        reaches(num, den, level),
    ensures
        reaches(num, den, level + 1),
{
    lemma_pow2_unfold(level + 1);
    assert(num * (2 * pow2(level)) == 2 * (num * pow2(level))) by (nonlinear_arith);
}

/// A fraction without a full significand at one level has none below it.
proof fn lemma_reaches_none_below(num: nat, den: nat, low: nat, level: nat)
    requires
        low <= level,
        !reaches(num, den, level),
    ensures
        !reaches(num, den, low),
    decreases level - low,
{
    if low < level {
        if reaches(num, den, low) {
            lemma_reaches_next(num, den, low);
        }
        lemma_reaches_none_below(num, den, low + 1, level);
    }
}

/// The level of a fraction is the one at which it first has a full
/// significand, or the highest.
pub proof fn lemma_level_found(num: nat, den: nat, from: nat, level: nat)
    requires
        from <= level <= TOP_LEVEL,
        level == TOP_LEVEL || reaches(num, den, level),
        level == 0 || !reaches(num, den, (level - 1) as nat),
    ensures
        level_from(num, den, from) == level,
    decreases level - from,
{
    if from < level {
        lemma_reaches_none_below(num, den, from, (level - 1) as nat);
        lemma_level_found(num, den, from + 1, level);
    }
}

/// What a pair `p`, `t` in the proportion of `num * 2^level` to
/// `den * 2^1023` says of the fraction `num / den` at that level.
proof fn lemma_in_proportion(num: nat, den: nat, level: nat, p: nat, t: nat, c: nat)
    requires
        c > 0,
        den > 0,
        num * pow2(level) == c * p,
        den * pow2(1023) == c * t,
    ensures
        reaches(num, den, level) == (p >= t),
        t > 0,
        round_half_even(num * pow2(level), den * pow2(971)) == round_half_even(p * pow2(52), t),
        p < 2 * t ==> num < den * pow2(1024) && (level > 0 ==> !reaches(
            num,
            den,
            (level - 1) as nat,
        )),
{
    lemma_pow2_pos(1023);
    lemma_pow2_pos(971);
    lemma_pow2_pos(level);
    lemma_pow2_adds(971, 52);
    lemma_pow2_unfold(1024);
    let a = num * pow2(level);
    let d = den * pow2(1023);
    assert(pow2(1023) * den == d) by (nonlinear_arith)
        requires
            d == den * pow2(1023),
    ;
    assert(d > 0) by (nonlinear_arith)
        requires
            d == den * pow2(1023),
            den > 0,
            pow2(1023) > 0,
    ;
    assert(t > 0) by (nonlinear_arith)
        requires
            d == c * t,
            d > 0,
            c > 0,
    ;
    assert((c * p >= c * t) == (p >= t)) by (nonlinear_arith)
        requires
            c > 0,
    ;
    let b1 = den * pow2(971);
    assert(b1 > 0) by (nonlinear_arith)
        requires
            b1 == den * pow2(971),
            den > 0,
            pow2(971) > 0,
    ;
    assert(a * t == (p * pow2(52)) * b1) by (nonlinear_arith)
        requires
            a == c * p,
            den * pow2(1023) == c * t,
            pow2(1023) == pow2(971) * pow2(52),
            b1 == den * pow2(971),
    ;
    lemma_round_by_value(a, b1, p * pow2(52), t);
    if p < 2 * t {
        assert(c * p < 2 * (c * t)) by (nonlinear_arith)
            requires
                p < 2 * t,
                c > 0,
        ;
        assert(num <= a) by (nonlinear_arith)
            requires
                a == num * pow2(level),
                pow2(level) >= 1,
        ;
        assert(den * pow2(1024) == 2 * d) by (nonlinear_arith)
            requires
                pow2(1024) == 2 * pow2(1023),
                d == den * pow2(1023),
        ;
        if level > 0 {
            lemma_pow2_unfold(level);
            let below = num * pow2((level - 1) as nat);
            assert(a == 2 * below) by (nonlinear_arith)
                requires
                    a == num * pow2(level),
                    pow2(level) == 2 * pow2((level - 1) as nat),
                    below == num * pow2((level - 1) as nat),
            ;
        }
    }
}

/// The digits of the number that `digits` write, times two to the power `doublings`.
pub fn times_pow2(digits: &Vec<u8>, doublings: u64) -> (scaled: Vec<u8>)
    requires
        digits_ok(digits@),
    ensures
        digits_ok(scaled@),
        le_value(scaled@) == le_value(digits@) * pow2(doublings as nat),
{
    let mut scaled = digits.clone();
    let mut i: u64 = 0;
    proof {
        lemma2_to64();
        assert(scaled@ == digits@);
        assert(le_value(digits@) * pow2(0) == le_value(digits@)) by (nonlinear_arith)
            requires
                pow2(0) == 1,
        ;
    }
    while i < doublings
        invariant
            i <= doublings,
            digits_ok(scaled@),
            le_value(scaled@) == le_value(digits@) * pow2(i as nat),
        decreases doublings - i,
    {
        proof {
            lemma_pow2_unfold((i + 1) as nat);
            assert(2 * (le_value(digits@) * pow2(i as nat)) == le_value(digits@) * (2 * pow2(
                i as nat,
            ))) by (nonlinear_arith);
        }
        scaled = double(&scaled);
        i = i + 1;
    }
    scaled
}

/// The significand of the fraction `p / t`, taken to 53 bits and rounded:
/// `p * 2^52 / t` to the nearest integer, ties to even.
fn significand(p: &Vec<u8>, t: &Vec<u8>) -> (m: u64)
    requires
        digits_ok(p@),
        digits_ok(t@),
        le_value(p@) < 2 * le_value(t@),
    ensures
        m == round_half_even(le_value(p@) * pow2(52), le_value(t@)),
        m <= 0x20_0000_0000_0000,
{
    let ghost pv = le_value(p@);
    let ghost tv = le_value(t@);
    let mut m: u64 = 0;
    let mut r = p.clone();
    let mut i: u64 = 0;
    proof {
        lemma2_to64();
        lemma2_to64_rest();
        assert(r@ == p@);
    }
    while i < 53
        invariant
            i <= 53,
            digits_ok(r@),
            digits_ok(t@),
            tv == le_value(t@),
            pv == le_value(p@),
            pv < 2 * tv,
            i == 0 ==> m == 0 && le_value(r@) == pv,
            i > 0 ==> pv * pow2((i - 1) as nat) == m * tv + le_value(r@) && le_value(r@) < tv,
            m < pow2(i as nat),
            pow2(53) == 0x20_0000_0000_0000,
        decreases 53 - i,
    {
        proof {
            lemma2_to64();
            lemma_pow2_unfold((i + 1) as nat);
            lemma_pow2_strictly_increases(i as nat, 53);
            if i > 0 {
                lemma_pow2_unfold(i as nat);
                assert(pv * (2 * pow2((i - 1) as nat)) == 2 * (pv * pow2((i - 1) as nat)))
                    by (nonlinear_arith);
            } else {
                assert(pv * pow2(0) == pv) by (nonlinear_arith)
                    requires
                        pow2(0) == 1,
                ;
            }
        }
        if i > 0 {
            r = double(&r);
        }
        let ghost rv = le_value(r@);
        if at_least(&r, t) {
            r = minus(&r, t);
            proof {
                assert((2 * m + 1) * tv + (rv - tv) == 2 * (m * tv) + rv) by (nonlinear_arith);
            }
            m = 2 * m + 1;
        } else {
            proof {
                assert((2 * m) * tv == 2 * (m * tv)) by (nonlinear_arith);
            }
            m = 2 * m;
        }
        i = i + 1;
    }
    let twice = double(&r);
    let up = at_least(&twice, t);
    let tie = up && at_least(t, &twice);
    proof {
        let a = pv * pow2(52);
        assert(a == tv * m + le_value(r@)) by (nonlinear_arith)
            requires
                a == m * tv + le_value(r@),
        ;
        lemma_fundamental_div_mod_converse(a as int, tv as int, m as int, le_value(r@) as int);
    }
    if !up {
        m
    } else if !tie {
        m + 1
    } else if m % 2 == 0 {
        m
    } else {
        m + 1
    }
}

/// The bit pattern, without the sign, of the binary64 value nearest to the
/// number that `n` writes over the number that `m` writes.
pub fn nearest(n: &Vec<u8>, m: &Vec<u8>) -> (bits: u64)
    requires
        digits_ok(n@),
        digits_ok(m@),
        le_value(m@) > 0,
    ensures
        bits == nearest_bits(le_value(n@), le_value(m@)),
        bits <= INFINITY_BITS,
{
    let ghost num = le_value(n@);
    let ghost den = le_value(m@);
    let base = times_pow2(m, 52);
    proof {
        lemma2_to64();
        lemma2_to64_rest();
        lemma_pow2_adds(52, 971);
        lemma_pow2_pos(971);
    }
    if at_least(n, &base) {
        let mut t = base;
        let mut j: u64 = 0;
        proof {
            assert(den * pow2(52) * pow2(0) == den * pow2(52)) by (nonlinear_arith)
                requires
                    pow2(0) == 1,
            ;
        }
        loop
            invariant_except_break
                j <= 971,
                digits_ok(t@),
                digits_ok(n@),
                num == le_value(n@),
                den == le_value(m@),
                den > 0,
                le_value(t@) == den * pow2(52) * pow2(j as nat),
                num >= le_value(t@),
            ensures
                j <= 971,
                digits_ok(t@),
                le_value(t@) == den * pow2(52) * pow2(j as nat),
                le_value(t@) <= num < 2 * le_value(t@),
            decreases 971 - j,
        {
            let next = double(&t);
            if !at_least(n, &next) {
                break;
            }
            if j == 971 {
                proof {
                    lemma_pow2_adds(52, 971);
                    lemma_pow2_unfold(1024);
                    assert(2 * (den * pow2(52) * pow2(971)) == den * (2 * (pow2(52) * pow2(971))))
                        by (nonlinear_arith);
                }
                return INFINITY_BITS;
            }
            proof {
                lemma_pow2_unfold((j + 1) as nat);
                assert(2 * (den * pow2(52) * pow2(j as nat)) == den * pow2(52) * (2 * pow2(
                    j as nat,
                ))) by (nonlinear_arith);
            }
            t = next;
            j = j + 1;
        }
        let level: u64 = 971 - j;
        let mantissa = significand(n, &t);
        proof {
            let c = pow2(level as nat);
            lemma_pow2_pos(level as nat);
            lemma_pow2_adds(level as nat, j as nat);
            assert(num * pow2(level as nat) == c * num) by (nonlinear_arith)
                requires
                    c == pow2(level as nat),
            ;
            assert(den * pow2(1023) == c * (den * pow2(52) * pow2(j as nat))) by (nonlinear_arith)
                requires
                    pow2(1023) == pow2(52) * pow2(971),
                    pow2(971) == c * pow2(j as nat),
            ;
            lemma_in_proportion(num, den, level as nat, num, le_value(t@), c);
            lemma_level_found(num, den, 0, level as nat);
        }
        (TOP_LEVEL - level) * 0x10_0000_0000_0000 + mantissa
    } else {
        let mut p = n.clone();
        let mut k: u64 = 0;
        proof {
            assert(p@ == n@);
            assert(num * pow2(0) == num) by (nonlinear_arith)
                requires
                    pow2(0) == 1,
            ;
        }
        while k < 1074 && !at_least(&p, &base)
            invariant
                k <= 1074,
                digits_ok(p@),
                digits_ok(base@),
                le_value(base@) == den * pow2(52),
                le_value(p@) == num * pow2(k as nat),
                le_value(p@) < 2 * le_value(base@),
            decreases 1074 - k,
        {
            proof {
                lemma_pow2_unfold((k + 1) as nat);
                assert(2 * (num * pow2(k as nat)) == num * (2 * pow2(k as nat)))
                    by (nonlinear_arith);
            }
            p = double(&p);
            k = k + 1;
        }
        let level: u64 = 971 + k;
        let mantissa = significand(&p, &base);
        proof {
            let c = pow2(971);
            lemma_pow2_adds(k as nat, 971);
            assert(num * pow2(level as nat) == c * (num * pow2(k as nat))) by (nonlinear_arith)
                requires
                    pow2(level as nat) == pow2(k as nat) * c,
            ;
            assert(den * pow2(1023) == c * (den * pow2(52))) by (nonlinear_arith)
                requires
                    pow2(1023) == pow2(52) * c,
            ;
            lemma_in_proportion(num, den, level as nat, le_value(p@), le_value(base@), c);
            lemma_level_found(num, den, 0, level as nat);
        }
        (TOP_LEVEL - level) * 0x10_0000_0000_0000 + mantissa
    }
}

/// The level of a fraction lies at or above where the search starts, the
/// fraction has a full significand there unless it is the highest level,
/// and it has none at any level that the search passed.
pub proof fn lemma_level_is_first(num: nat, den: nat, from: nat)
    requires
        from <= TOP_LEVEL,
    ensures
        from <= level_from(num, den, from) <= TOP_LEVEL,
        level_from(num, den, from) == TOP_LEVEL || reaches(num, den, level_from(num, den, from)),
        forall|j: nat| from <= j < level_from(num, den, from) ==> !reaches(num, den, j),
    decreases TOP_LEVEL - from,
{
    if from < TOP_LEVEL && !reaches(num, den, from) {
        lemma_level_is_first(num, den, from + 1);
    }
}

/// Two fractions of one value have a full significand at the same levels.
proof fn lemma_reaches_by_value(a1: nat, b1: nat, a2: nat, b2: nat, level: nat)
    requires
        b1 > 0,
        b2 > 0,
        a1 * b2 == a2 * b1,
    ensures
        reaches(a1, b1, level) == reaches(a2, b2, level),
{
    lemma_threshold_by_value(a1, b1, a2, b2, pow2(level), pow2(1023));
    assert(a1 * pow2(level) == pow2(level) * a1 && a2 * pow2(level) == pow2(level) * a2)
        by (nonlinear_arith);
}

/// Two fractions of one value have the same level.
proof fn lemma_level_by_value(a1: nat, b1: nat, a2: nat, b2: nat, from: nat)
    requires
        b1 > 0,
        b2 > 0,
        a1 * b2 == a2 * b1,
    ensures
        level_from(a1, b1, from) == level_from(a2, b2, from),
    decreases TOP_LEVEL - from,
{
    lemma_reaches_by_value(a1, b1, a2, b2, from);
    if from < TOP_LEVEL && !reaches(a1, b1, from) {
        lemma_level_by_value(a1, b1, a2, b2, from + 1);
    }
}

/// The nearest binary64 value goes by the value of the fraction alone,
/// not by how the fraction is written.
pub proof fn lemma_nearest_by_value(a1: nat, b1: nat, a2: nat, b2: nat)
    requires
        b1 > 0,
        b2 > 0,
        a1 * b2 == a2 * b1,
    ensures
        nearest_bits(a1, b1) == nearest_bits(a2, b2),
{
    lemma_threshold_by_value(a1, b1, a2, b2, 1, pow2(1024));
    assert(b1 * pow2(1024) == pow2(1024) * b1 && b2 * pow2(1024) == pow2(1024) * b2)
        by (nonlinear_arith);
    lemma_level_by_value(a1, b1, a2, b2, 0);
    let u = level_from(a1, b1, 0);
    lemma_pow2_pos(971);
    let c1 = b1 * pow2(971);
    let c2 = b2 * pow2(971);
    assert(c1 > 0 && c2 > 0) by (nonlinear_arith)
        requires
            c1 == b1 * pow2(971),
            c2 == b2 * pow2(971),
            b1 > 0,
            b2 > 0,
            pow2(971) > 0,
    ;
    assert((a1 * pow2(u)) * c2 == (a2 * pow2(u)) * c1) by (nonlinear_arith)
        requires
            a1 * b2 == a2 * b1,
            c1 == b1 * pow2(971),
            c2 == b2 * pow2(971),
    {
        assert((a1 * pow2(u)) * (b2 * pow2(971)) == (a1 * b2) * (pow2(u) * pow2(971)));
        assert((a2 * pow2(u)) * (b1 * pow2(971)) == (a2 * b1) * (pow2(u) * pow2(971)));
    }
    lemma_round_by_value(a1 * pow2(u), c1, a2 * pow2(u), c2);
}

} // verus!
