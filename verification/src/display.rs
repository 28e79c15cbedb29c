//! The fixed-width renderings of metric values for the human-readable report.

use crate::reading::Reading;
use crate::rounding::lemma_round_from_truncation;
use crate::rounding::round_half_even;
use crate::rounding::round_parts;
use crate::sample::Sample;
use crate::sample::SampleKind;
use crate::sample::at_ms_limit;
use crate::sample::MILLI_CAP;
use crate::sample::MS_LIMIT_SIGNIFICAND;
use vstd::arithmetic::power2::lemma2_to64;
use vstd::arithmetic::power2::lemma2_to64_rest;
use vstd::arithmetic::power2::lemma_pow2_adds;
use vstd::arithmetic::power2::pow2;
use crate::text::decimal_text;
use crate::text::digit_char;
use crate::text::pad_left;
use crate::text::push_decimal;
use crate::text::push_digit;
use crate::text::push_padded_left;
use vstd::arithmetic::div_mod::lemma_fundamental_div_mod;
use vstd::prelude::*;

verus! {

/// The numeral of `tenths / 10` with one digit after the point.
pub open spec fn one_decimal(tenths: nat) -> Seq<char> {
    decimal_text(tenths / 10) + seq!['.', digit_char(tenths % 10)]
}

/// The numeral of `hundredths / 100` with two digits after the point.
pub open spec fn two_decimals(hundredths: nat) -> Seq<char> {
    decimal_text(hundredths / 100) + seq![
        '.',
        digit_char((hundredths / 10) % 10),
        digit_char(hundredths % 10),
    ]
}

/// A percentage in five characters.
///
/// A value that is negative or not finite gives a dash. Zero is `0.0`, a
/// value under a tenth is `<0.1`, one of 100.001 or more is `100.0`, and any
/// other value is rounded to one decimal.
pub open spec fn pct_text(r: Reading) -> Seq<char> {
    match r {
        Reading::Finite { negative, num, den, .. } => {
            if negative {
                "    -"@
            } else if num == 0 {
                "  0.0"@
            } else if 10 * num < den {
                " <0.1"@
            } else if 1000 * num >= 100001 * den {
                "100.0"@
            } else {
                pad_left(one_decimal(round_half_even(10 * num, den)), 5)
            }
        },
        _ => "    -"@,
    }
}

/// A time in milliseconds in seven characters.
///
/// A value that is negative, zero, subnormal or not finite gives a dash. A
/// value that is at least the binary64 value nearest to 9999.99 is
/// `>10secs`, one under a hundredth is `<0.01`, and any other value is
/// rounded to two decimals.
pub open spec fn ms_text(r: Reading) -> Seq<char> {
    match r {
        Reading::Finite { negative, num, den, .. } => {
            if negative || !r.is_normal() {
                "      -"@
            } else if at_ms_limit(num, den) {
                ">10secs"@
            } else if 100 * num < den {
                "  <0.01"@
            } else {
                pad_left(two_decimals(round_half_even(100 * num, den)), 7)
            }
        },
        _ => "      -"@,
    }
}

/// A signed score in six characters.
///
/// A value that is not finite gives a dash in five characters. Zero is
/// blank. A positive value under a tenth is `<0.1`, a negative one above
/// minus a tenth is `-0.1`; a value of 100.001 or more is `+100.0`, one of
/// minus 100 or less is `-100.0`; any other value is rounded to one decimal
/// and carries its sign.
pub open spec fn score_text(r: Reading) -> Seq<char> {
    match r {
        Reading::Finite { negative, num, den, .. } => {
            if num == 0 {
                "      "@
            } else if !negative {
                if 10 * num < den {
                    "  <0.1"@
                } else if 1000 * num >= 100001 * den {
                    "+100.0"@
                } else {
                    pad_left(seq!['+'] + one_decimal(round_half_even(10 * num, den)), 6)
                }
            } else {
                if 10 * num < den {
                    "  -0.1"@
                } else if num >= 100 * den {
                    "-100.0"@
                } else {
                    pad_left(seq!['-'] + one_decimal(round_half_even(10 * num, den)), 6)
                }
            }
        },
        _ => "    -"@,
    }
}

/// A time under the least one that is shown as too long is under 9999.99.
pub proof fn lemma_under_ms_limit(num: nat, den: nat)
    requires
        den > 0,
        !at_ms_limit(num, den),
    ensures
        100 * num < 999999 * den,
        1000 * num < MILLI_CAP * den,
{
    lemma2_to64();
    lemma2_to64_rest();
    lemma_pow2_adds(32, 7);
    let p = pow2(39);
    assert(p == 549755813888);
    assert(100 * num < 999999 * den) by (nonlinear_arith)
        requires
            num * p < MS_LIMIT_SIGNIFICAND * den,
            p == 549755813888,
            MS_LIMIT_SIGNIFICAND == 5497552641321861,
            den > 0,
    {
        assert(100 * (num * p) < 100 * (5497552641321861 * den));
        assert(100 * 5497552641321861 < 999999 * 549755813888);
        assert((100 * num) * 549755813888 < (999999 * den) * 549755813888);
    }
}

/// Whether a fraction reaches `k` thousandths is whether its size in whole
/// thousandths does.
pub proof fn lemma_milli_threshold(num: nat, den: nat, k: nat)
    requires
        den > 0,
    ensures
        (1000 * num) / den >= k <==> 1000 * num >= k * den,
{
    let n = 1000 * num;
    let q = n / den;
    let r = n % den;
    lemma_fundamental_div_mod(n as int, den as int);
    if q >= k {
        assert(den * q >= k * den) by (nonlinear_arith)
            requires
                q >= k,
                den > 0,
        ;
    } else {
        assert(den * q + den <= k * den) by (nonlinear_arith)
            requires
                q + 1 <= k,
                den > 0,
        ;
    }
}

/// A zero fraction is one of zero whole thousandths with nothing cut off.
pub proof fn lemma_milli_zero(num: nat, den: nat)
    requires
        den > 0,
    ensures
        num == 0 <==> ((1000 * num) / den == 0 && (1000 * num) % den == 0),
{
    lemma_fundamental_div_mod((1000 * num) as int, den as int);
    let q = (1000 * num) / den;
    assert(den * q == 0 <==> q == 0) by (nonlinear_arith)
        requires
            den > 0,
    ;
}

/// Appends `tenths / 10` with one digit after the point.
pub fn push_one_decimal(out: &mut String, tenths: u64)
    ensures
        final(out)@ == old(out)@ + one_decimal(tenths as nat),
{
    push_decimal(out, (tenths / 10) as u128);
    proof {
        reveal_strlit(".");
    }
    out.append(".");
    push_digit(out, (tenths % 10) as u8);
    assert(out@ =~= old(out)@ + one_decimal(tenths as nat));
}

/// Appends `hundredths / 100` with two digits after the point.
pub fn push_two_decimals(out: &mut String, hundredths: u128)
    ensures
        final(out)@ == old(out)@ + two_decimals(hundredths as nat),
{
    push_decimal(out, hundredths / 100);
    proof {
        reveal_strlit(".");
    }
    out.append(".");
    push_digit(out, ((hundredths / 10) % 10) as u8);
    push_digit(out, (hundredths % 10) as u8);
    assert(out@ =~= old(out)@ + two_decimals(hundredths as nat));
}

/// The rounding of a size in thousandths to units of `scale` thousandths.
fn round_milli(milli: u64, exact: bool, scale: u64) -> (rounded: u64)
    requires
        milli < MILLI_CAP,
        scale == 10 || scale == 100,
    ensures
        rounded == round_parts(
            (milli / scale) as nat,
            (milli % scale) as nat,
            (scale / 2) as nat,
            exact,
        ),
{
    let whole = milli / scale;
    let part = milli % scale;
    let half = scale / 2;
    if part < half {
        whole
    } else if part > half || !exact {
        whole + 1
    } else if whole % 2 == 0 {
        whole
    } else {
        whole + 1
    }
}

/// Renders a sample as a percentage.
pub(crate) fn render_pct(s: Sample, Ghost(r): Ghost<Reading>) -> (out: String)
    requires
        r.wf(),
        s.reads(r),
    ensures
        out@ == pct_text(r),
{
    match s.kind {
        SampleKind::Finite => {
            proof {
                let (num, den) = (r->num, r->den);
                lemma_milli_threshold(num, den, 100);
                lemma_milli_threshold(num, den, 100001);
                lemma_milli_threshold(num, den, MILLI_CAP as nat);
                lemma_milli_zero(num, den);
                lemma_round_from_truncation(10 * num, den, 100);
                assert((10 * num) * 100 == 1000 * num);
            }
            if s.negative {
                "    -".to_string()
            } else if s.milli == 0 && s.exact {
                "  0.0".to_string()
            } else if s.milli < 100 {
                " <0.1".to_string()
            } else if s.milli >= 100001 {
                "100.0".to_string()
            } else {
                let tenths = round_milli(s.milli, s.exact, 100);
                let mut digits = String::new();
                push_one_decimal(&mut digits, tenths);
                let mut out = String::new();
                push_padded_left(&mut out, digits.as_str(), 5);
                assert(out@ =~= pad_left(one_decimal(tenths as nat), 5));
                out
            }
        },
        _ => "    -".to_string(),
    }
}

/// Renders a sample as a time in milliseconds.
pub(crate) fn render_ms(s: Sample, Ghost(r): Ghost<Reading>) -> (out: String)
    requires
        r.wf(),
        s.reads(r),
    ensures
        out@ == ms_text(r),
{
    match s.kind {
        SampleKind::Finite => {
            proof {
                let (num, den) = (r->num, r->den);
                lemma_milli_threshold(num, den, 10);
                lemma_milli_threshold(num, den, MILLI_CAP as nat);
                if !at_ms_limit(num, den) {
                    lemma_under_ms_limit(num, den);
                }
                lemma_milli_zero(num, den);
                lemma_round_from_truncation(100 * num, den, 10);
                assert((100 * num) * 10 == 1000 * num);
            }
            if s.negative || s.subnormal || (s.milli == 0 && s.exact) {
                "      -".to_string()
            } else if s.long {
                ">10secs".to_string()
            } else if s.milli < 10 {
                "  <0.01".to_string()
            } else {
                let hundredths = round_milli(s.milli, s.exact, 10);
                let mut digits = String::new();
                push_two_decimals(&mut digits, hundredths as u128);
                let mut out = String::new();
                push_padded_left(&mut out, digits.as_str(), 7);
                assert(out@ =~= pad_left(two_decimals(hundredths as nat), 7));
                out
            }
        },
        _ => "      -".to_string(),
    }
}

/// Renders a sample as a signed score.
pub(crate) fn render_score(s: Sample, Ghost(r): Ghost<Reading>) -> (out: String)
    requires
        r.wf(),
        s.reads(r),
    ensures
        out@ == score_text(r),
{
    match s.kind {
        SampleKind::Finite => {
            proof {
                let (num, den) = (r->num, r->den);
                lemma_milli_threshold(num, den, 100);
                lemma_milli_threshold(num, den, 100000);
                lemma_milli_threshold(num, den, 100001);
                lemma_milli_threshold(num, den, MILLI_CAP as nat);
                lemma_milli_zero(num, den);
                lemma_round_from_truncation(10 * num, den, 100);
                assert((10 * num) * 100 == 1000 * num);
            }
            if s.milli == 0 && s.exact {
                "      ".to_string()
            } else if !s.negative {
                if s.milli < 100 {
                    "  <0.1".to_string()
                } else if s.milli >= 100001 {
                    "+100.0".to_string()
                } else {
                    let tenths = round_milli(s.milli, s.exact, 100);
                    let mut digits = String::new();
                    proof {
                        reveal_strlit("+");
                    }
                    digits.append("+");
                    push_one_decimal(&mut digits, tenths);
                    let mut out = String::new();
                    push_padded_left(&mut out, digits.as_str(), 6);
                    assert(out@ =~= pad_left(seq!['+'] + one_decimal(tenths as nat), 6));
                    out
                }
            } else {
                if s.milli < 100 {
                    "  -0.1".to_string()
                } else if s.milli >= 100000 {
                    "-100.0".to_string()
                } else {
                    let tenths = round_milli(s.milli, s.exact, 100);
                    let mut digits = String::new();
                    proof {
                        reveal_strlit("-");
                    }
                    digits.append("-");
                    push_one_decimal(&mut digits, tenths);
                    let mut out = String::new();
                    push_padded_left(&mut out, digits.as_str(), 6);
                    assert(out@ =~= pad_left(seq!['-'] + one_decimal(tenths as nat), 6));
                    out
                }
            }
        },
        _ => "    -".to_string(),
    }
}

} // verus!
