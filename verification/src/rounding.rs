//! Rounding a non-negative fraction to the nearest integer, ties to the even
//! neighbour, and the same rounding recovered from a finer truncation.

use vstd::arithmetic::div_mod::lemma_fundamental_div_mod;
use vstd::arithmetic::div_mod::lemma_fundamental_div_mod_converse;
use vstd::prelude::*;

verus! {

/// `num / den` rounded to the nearest integer; a value exactly half way
/// between two integers goes to the even one.
pub open spec fn round_half_even(num: nat, den: nat) -> nat
    recommends
        den > 0,
{
    let q = num / den;
    let r = num % den;
    if 2 * r < den {
        q
    } else if 2 * r > den {
        q + 1
    } else if q % 2 == 0 {
        q
    } else {
        q + 1
    }
}

/// The rounding of a value known as a whole part `whole`, a truncated
/// remainder of `part` units out of `2 * half`, and whether anything was cut
/// off below the last unit (`exact` when nothing was).
pub open spec fn round_parts(whole: nat, part: nat, half: nat, exact: bool) -> nat {
    if part < half {
        whole
    } else if part > half || !exact {
        whole + 1
    } else if whole % 2 == 0 {
        whole
    } else {
        whole + 1
    }
}

/// Splits `a * c` by `den` after splitting `a` by `den`.
proof fn lemma_scaled_split(a: nat, den: nat, c: nat)
    requires
        den > 0,
        c > 0,
    ensures
        (a * c) / den == (a / den) * c + ((a % den) * c) / den,
        (a * c) % den == ((a % den) * c) % den,
        ((a % den) * c) / den < c,
{
    let q = a / den;
    let r = a % den;
    let u = (r * c) / den;
    let rho = (r * c) % den;
    lemma_fundamental_div_mod(a as int, den as int);
    lemma_fundamental_div_mod((r * c) as int, den as int);
    assert(a * c == (q * c + u) * den + rho) by (nonlinear_arith)
        requires
            a == den * q + r,
            r * c == den * u + rho,
    ;
    lemma_fundamental_div_mod_converse((a * c) as int, den as int, (q * c + u) as int, rho as int);
    assert(u < c) by (nonlinear_arith)
        requires
            r * c == den * u + rho,
            0 <= rho,
            r < den,
            den > 0,
            c > 0,
            0 <= u,
            0 <= r,
    ;
}

/// Rounding `a / den` to the nearest integer needs only the truncation of
/// `a * c / den` (for an even `c`) and whether that truncation was exact.
pub proof fn lemma_round_from_truncation(a: nat, den: nat, c: nat)
    requires
        den > 0,
        c > 0,
        c % 2 == 0,
    ensures
        round_half_even(a, den) == round_parts(
            ((a * c) / den) / c,
            ((a * c) / den) % c,
            c / 2,
            (a * c) % den == 0,
        ),
{
    let q = a / den;
    let r = a % den;
    let u = (r * c) / den;
    let rho = (r * c) % den;
    let h = c / 2;
    let t = (a * c) / den;
    lemma_scaled_split(a, den, c);
    lemma_fundamental_div_mod((r * c) as int, den as int);
    assert(t == q * c + u);
    assert(q * c == c * q) by (nonlinear_arith);
    lemma_fundamental_div_mod_converse(t as int, c as int, q as int, u as int);
    assert(t / c == q);
    assert(t % c == u);
    assert(c == 2 * h);
    assert(r * c == 2 * (r * h)) by (nonlinear_arith)
        requires
            c == 2 * h,
    ;
    let x = r * h;
    assert(2 * x == den * u + rho);
    if 2 * r < den {
        assert((2 * r + 1) * h <= den * h) by (nonlinear_arith)
            requires
                2 * r + 1 <= den,
                0 <= h,
        ;
        assert((2 * r + 1) * h == 2 * x + h) by (nonlinear_arith)
            requires
                x == r * h,
        ;
        assert(u < h) by (nonlinear_arith)
            requires
                den * u < den * h,
                den > 0,
        ;
    }
    if u < h {
        assert(den * u <= den * (h - 1)) by (nonlinear_arith)
            requires
                u <= h - 1,
                den > 0,
        ;
        assert(den * (h - 1) + den == den * h) by (nonlinear_arith);
        assert(2 * r < den) by (nonlinear_arith)
            requires
                2 * (r * h) < den * h,
                h > 0,
        ;
    }
    if 2 * r > den {
        assert((den + 1) * h <= (2 * r) * h) by (nonlinear_arith)
            requires
                den + 1 <= 2 * r,
                0 <= h,
        ;
        assert((2 * r) * h == 2 * x && (den + 1) * h == den * h + h) by (nonlinear_arith)
            requires
                x == r * h,
        ;
        assert(u >= h) by (nonlinear_arith)
            requires
                den * u + den > den * h,
                den > 0,
        ;
        if u == h {
            assert(rho > 0);
        }
    }
    if u > h || (u == h && rho > 0) {
        assert(den * u >= den * h) by (nonlinear_arith)
            requires
                u >= h,
                den > 0,
        ;
        if u > h {
            assert(den * u >= den * h + den) by (nonlinear_arith)
                requires
                    u >= h + 1,
                    den > 0,
            ;
        }
        assert(2 * r > den) by (nonlinear_arith)
            requires
                2 * (r * h) > den * h,
                h > 0,
        ;
    }
}

/// Two fractions of one value are rounded to the same integer.
pub proof fn lemma_round_by_value(a1: nat, b1: nat, a2: nat, b2: nat)
    requires
        b1 > 0,
        b2 > 0,
        a1 * b2 == a2 * b1,
    ensures
        round_half_even(a1, b1) == round_half_even(a2, b2),
{
    let q1 = a1 / b1;
    let r1 = a1 % b1;
    let q2 = a2 / b2;
    let r2 = a2 % b2;
    lemma_fundamental_div_mod(a1 as int, b1 as int);
    lemma_fundamental_div_mod(a2 as int, b2 as int);
    let d = b1 * b2;
    assert(d > 0) by (nonlinear_arith)
        requires
            d == b1 * b2,
            b1 > 0,
            b2 > 0,
    ;
    let x = r1 * b2;
    let y = r2 * b1;
    assert(0 <= x < d) by (nonlinear_arith)
        requires
            x == r1 * b2,
            d == b1 * b2,
            0 <= r1 < b1,
            b2 > 0,
    ;
    assert(0 <= y < d) by (nonlinear_arith)
        requires
            y == r2 * b1,
            d == b1 * b2,
            0 <= r2 < b2,
            b1 > 0,
    ;
    assert(q1 * d + x == q2 * d + y) by (nonlinear_arith)
        requires
            a1 == b1 * q1 + r1,
            a2 == b2 * q2 + r2,
            a1 * b2 == a2 * b1,
            d == b1 * b2,
            x == r1 * b2,
            y == r2 * b1,
    ;
    assert(q1 == q2) by (nonlinear_arith)
        requires
            q1 * d + x == q2 * d + y,
            0 <= x < d,
            0 <= y < d,
    ;
    assert(x == y) by (nonlinear_arith)
        requires
            q1 * d + x == q2 * d + y,
            q1 == q2,
    ;
    assert(2 * r1 < b1 <==> 2 * x < d) by (nonlinear_arith)
        requires
            x == r1 * b2,
            d == b1 * b2,
            b2 > 0,
    ;
    assert(2 * r1 > b1 <==> 2 * x > d) by (nonlinear_arith)
        requires
            x == r1 * b2,
            d == b1 * b2,
            b2 > 0,
    ;
    assert(2 * r2 < b2 <==> 2 * y < d) by (nonlinear_arith)
        requires
            y == r2 * b1,
            d == b1 * b2,
            b1 > 0,
    ;
    assert(2 * r2 > b2 <==> 2 * y > d) by (nonlinear_arith)
        requires
            y == r2 * b1,
            d == b1 * b2,
            b1 > 0,
    ;
}

/// A threshold is reached by both fractions of one value, or by neither.
pub proof fn lemma_threshold_by_value(a1: nat, b1: nat, a2: nat, b2: nat, k: nat, m: nat)
    requires
        b1 > 0,
        b2 > 0,
        a1 * b2 == a2 * b1,
    ensures
        k * a1 < m * b1 <==> k * a2 < m * b2,
{
    if k * a1 < m * b1 {
        assert(k * a2 < m * b2) by (nonlinear_arith)
            requires
                k * a1 < m * b1,
                a1 * b2 == a2 * b1,
                b1 > 0,
                b2 > 0,
        {
            assert((k * a1) * b2 < (m * b1) * b2);
            assert((k * a1) * b2 == (k * a2) * b1);
            assert((m * b1) * b2 == (m * b2) * b1);
        }
    }
    if k * a2 < m * b2 {
        assert(k * a1 < m * b1) by (nonlinear_arith)
            requires
                k * a2 < m * b2,
                a1 * b2 == a2 * b1,
                b1 > 0,
                b2 > 0,
        {
            assert((k * a2) * b1 < (m * b2) * b1);
            assert((k * a2) * b1 == (k * a1) * b2);
            assert((m * b2) * b1 == (m * b1) * b2);
        }
    }
}

} // verus!
