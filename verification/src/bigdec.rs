//! Whole numbers too large for a machine word, held as decimal digits with
//! the lowest digit first.

use crate::decimal::lemma_pow10_adds;
use crate::decimal::pow10;
use crate::text::decimal_text;
use crate::text::digit_char;
use crate::text::push_digit;
use vstd::prelude::*;

verus! {

/// The number that the digits `s` write, lowest digit first.
pub open spec fn le_value(s: Seq<u8>) -> nat
    decreases s.len(),
{
    if s.len() == 0 {
        0
    } else {
        s[0] as nat + 10 * le_value(s.skip(1))
    }
}

/// The numeral that the digits `s` write, highest digit first.
pub open spec fn le_text(s: Seq<u8>) -> Seq<char>
    decreases s.len(),
{
    if s.len() == 0 {
        Seq::empty()
    } else {
        le_text(s.skip(1)).push(digit_char(s[0] as nat))
    }
}

/// Digits that write a number the way a numeral does: at least one digit,
/// each below ten, and no zero in the highest place of a number with more
/// than one digit.
pub open spec fn canonical(s: Seq<u8>) -> bool {
    &&& s.len() >= 1
    &&& forall|i: int| 0 <= i < s.len() ==> #[trigger] s[i] < 10
    &&& (s.len() == 1 || s.last() != 0)
}

/// Whether each of `s` is a decimal digit.
pub open spec fn digits_ok(s: Seq<u8>) -> bool {
    forall|i: int| 0 <= i < s.len() ==> #[trigger] s[i] < 10
}

/// A digit added in the highest place counts with the power of ten of that place.
pub proof fn lemma_le_value_push(s: Seq<u8>, d: u8)
    ensures
        le_value(s.push(d)) == le_value(s) + d * pow10(s.len()),
    decreases s.len(),
{
    if s.len() == 0 {
        assert(s.push(d).skip(1).len() == 0);
        assert(le_value(s.push(d).skip(1)) == 0);
        assert(s.push(d)[0] == d);
        assert(pow10(0) == 1);
        assert(d * pow10(0) == d) by (nonlinear_arith)
            requires
                pow10(0) == 1,
        ;
    } else {
        lemma_le_value_push(s.skip(1), d);
        assert(s.push(d).skip(1) == s.skip(1).push(d));
        assert(s.push(d)[0] == s[0]);
        let p = pow10((s.len() - 1) as nat);
        assert(pow10(s.len()) == 10 * p);
        assert(10 * (d * p) == d * (10 * p)) by (nonlinear_arith);
    }
}

/// Canonical digits with more than one place write a number of ten or more.
proof fn lemma_canonical_size(s: Seq<u8>)
    requires
        canonical(s),
        s.len() > 1,
    ensures
        le_value(s) >= 10,
        canonical(s.skip(1)),
    decreases s.len(),
{
    let rest = s.skip(1);
    assert(rest.last() == s.last());
    assert forall|i: int| 0 <= i < rest.len() implies #[trigger] rest[i] < 10 by {
        assert(rest[i] == s[i + 1]);
    }
    if rest.len() > 1 {
        lemma_canonical_size(rest);
    } else {
        assert(rest.skip(1).len() == 0);
        assert(le_value(rest.skip(1)) == 0);
        assert(le_value(rest) == rest[0]);
    }
}

/// Canonical digits, read from the highest place down, are the numeral of
/// the number that they write.
pub proof fn lemma_le_text_is_decimal(s: Seq<u8>)
    requires
        canonical(s),
    ensures
        le_text(s) == decimal_text(le_value(s)),
    decreases s.len(),
{
    if s.len() == 1 {
        assert(s.skip(1).len() == 0);
        assert(le_value(s.skip(1)) == 0);
        assert(le_text(s.skip(1)) == Seq::<char>::empty());
        assert(le_text(s) == seq![digit_char(s[0] as nat)]);
    } else {
        lemma_canonical_size(s);
        lemma_le_text_is_decimal(s.skip(1));
        let n = le_value(s);
        assert(n / 10 == le_value(s.skip(1)));
        assert(n % 10 == s[0]);
    }
}

/// The digits of `n`, lowest first.
pub fn digits_of(n: u128) -> (digits: Vec<u8>)
    ensures
        canonical(digits@),
        le_value(digits@) == n,
{
    let mut digits: Vec<u8> = Vec::new();
    let mut rest = n;
    digits.push((rest % 10) as u8);
    rest = rest / 10;
    proof {
        let d = (n % 10) as u8;
        assert(digits@.skip(1).len() == 0);
        assert(le_value(digits@.skip(1)) == 0);
        assert(digits@[0] == d);
        assert(le_value(digits@) == d);
        assert(pow10(0) == 1);
        assert(pow10(1) == 10 * pow10(0));
        assert((n / 10) * pow10(1) == 10 * (n / 10)) by (nonlinear_arith)
            requires
                pow10(1) == 10,
        ;
    }
    while rest > 0
        invariant
            digits.len() >= 1,
            forall|i: int| 0 <= i < digits.len() ==> #[trigger] digits[i] < 10,
            le_value(digits@) + rest * pow10(digits.len() as nat) == n,
            rest == 0 ==> (digits.len() == 1 || digits@.last() != 0),
        decreases rest,
    {
        let d = (rest % 10) as u8;
        proof {
            lemma_le_value_push(digits@, d);
            let p = pow10(digits.len() as nat);
            assert(pow10((digits.len() + 1) as nat) == 10 * p);
            assert(rest * p == d * p + (rest / 10) * (10 * p)) by (nonlinear_arith)
                requires
                    rest == d + 10 * (rest / 10),
            ;
        }
        digits.push(d);
        rest = rest / 10;
    }
    proof {
        assert(0 * pow10(digits.len() as nat) == 0) by (nonlinear_arith);
    }
    digits
}

/// The digits of twice the number that `digits` write.
pub fn double(digits: &Vec<u8>) -> (twice: Vec<u8>)
    requires
        digits_ok(digits@),
    ensures
        digits_ok(twice@),
        canonical(digits@) ==> canonical(twice@),
        le_value(twice@) == 2 * le_value(digits@),
{
    let mut twice: Vec<u8> = Vec::new();
    let mut carry: u8 = 0;
    let mut i: usize = 0;
    proof {
        assert(digits@.take(0).len() == 0);
        assert(pow10(0) == 1);
    }
    while i < digits.len()
        invariant
            i <= digits.len(),
            digits_ok(digits@),
            twice.len() == i,
            carry <= 1,
            forall|k: int| 0 <= k < twice.len() ==> #[trigger] twice[k] < 10,
            le_value(twice@) + carry * pow10(i as nat) == 2 * le_value(digits@.take(i as int)),
            i > 0 ==> twice[i - 1] + 10 * carry >= 2 * digits[i - 1],
        decreases digits.len() - i,
    {
        let t: u8 = 2 * digits[i] + carry;
        let d: u8 = t % 10;
        proof {
            let p = pow10(i as nat);
            lemma_le_value_push(twice@, d);
            lemma_le_value_push(digits@.take(i as int), digits[i as int]);
            assert(digits@.take(i + 1) == digits@.take(i as int).push(digits[i as int]));
            assert(pow10((i + 1) as nat) == 10 * p);
            assert(d * p + (t / 10) * (10 * p) == carry * p + 2 * (digits[i as int] * p))
                by (nonlinear_arith)
                requires
                    d + 10 * (t / 10) == 2 * digits[i as int] + carry,
            ;
        }
        twice.push(d);
        carry = t / 10;
        i = i + 1;
    }
    proof {
        assert(digits@.take(digits.len() as int) == digits@);
    }
    if carry > 0 {
        proof {
            lemma_le_value_push(twice@, carry);
        }
        twice.push(carry);
    } else {
        proof {
            assert(0 * pow10(i as nat) == 0) by (nonlinear_arith);
        }
    }
    twice
}

/// Appends the numeral that `digits` write.
pub fn push_le_text(out: &mut String, digits: &Vec<u8>)
    requires
        forall|i: int| 0 <= i < digits.len() ==> #[trigger] digits[i] < 10,
    ensures
        final(out)@ == old(out)@ + le_text(digits@),
{
    let mut i: usize = digits.len();
    proof {
        assert(digits@.skip(digits.len() as int).len() == 0);
        assert(old(out)@ + le_text(digits@.skip(digits.len() as int)) == old(out)@);
    }
    while i > 0
        invariant
            i <= digits.len(),
            forall|k: int| 0 <= k < digits.len() ==> #[trigger] digits[k] < 10,
            out@ == old(out)@ + le_text(digits@.skip(i as int)),
        decreases i,
    {
        i = i - 1;
        push_digit(out, digits[i]);
        proof {
            let tail = digits@.skip(i as int);
            assert(tail.skip(1) == digits@.skip(i + 1));
            assert(tail[0] == digits[i as int]);
            assert(old(out)@ + le_text(tail.skip(1)).push(digit_char(tail[0] as nat)) == (old(out)@
                + le_text(tail.skip(1))).push(digit_char(tail[0] as nat)));
        }
    }
    proof {
        assert(digits@.skip(0) == digits@);
    }
}

/// Digits write a number below the power of ten of their count.
pub proof fn lemma_le_value_bound(s: Seq<u8>)
    requires
        digits_ok(s),
    ensures
        le_value(s) < pow10(s.len()),
    decreases s.len(),
{
    if s.len() > 0 {
        assert forall|i: int| 0 <= i < s.skip(1).len() implies #[trigger] s.skip(1)[i] < 10 by {
            assert(s.skip(1)[i] == s[i + 1]);
        }
        lemma_le_value_bound(s.skip(1));
        assert(pow10(s.len()) == 10 * pow10((s.len() - 1) as nat));
    }
}

/// Of two numbers with as many digits each, the one whose digits from
/// some place up write more is the larger.
pub proof fn lemma_order_by_high_digits(a: Seq<u8>, b: Seq<u8>, i: int)
    requires
        a.len() == b.len(),
        0 <= i <= a.len(),
        digits_ok(a),
        digits_ok(b),
        le_value(a.skip(i)) > le_value(b.skip(i)),
    ensures
        le_value(a) > le_value(b),
    decreases i,
{
    if i == 0 {
        assert(a.skip(0) == a);
        assert(b.skip(0) == b);
    } else {
        let ta = a.skip(i - 1);
        let tb = b.skip(i - 1);
        assert(ta.skip(1) == a.skip(i));
        assert(tb.skip(1) == b.skip(i));
        assert(ta[0] == a[i - 1]);
        assert(tb[0] == b[i - 1]);
        lemma_order_by_high_digits(a, b, i - 1);
    }
}

/// The digits of `digits` with zeros added in the highest places up to
/// `len` digits in all.
pub fn pad_to(digits: &Vec<u8>, len: usize) -> (padded: Vec<u8>)
    requires
        digits_ok(digits@),
    ensures
        digits_ok(padded@),
        le_value(padded@) == le_value(digits@),
        padded.len() == (if digits.len() >= len {
            digits.len()
        } else {
            len
        }),
{
    let mut padded = digits.clone();
    assert(padded@ == digits@);
    while padded.len() < len
        invariant
            digits_ok(padded@),
            le_value(padded@) == le_value(digits@),
            padded.len() >= digits.len(),
            digits.len() >= len ==> padded.len() == digits.len(),
            digits.len() < len ==> padded.len() <= len,
        decreases len - padded.len(),
    {
        proof {
            lemma_le_value_push(padded@, 0);
            assert(0 * pow10(padded@.len()) == 0) by (nonlinear_arith);
        }
        padded.push(0);
    }
    padded
}

/// Whether the number that `a` writes is at least the number that `b` writes.
pub fn at_least(a: &Vec<u8>, b: &Vec<u8>) -> (holds: bool)
    requires
        digits_ok(a@),
        digits_ok(b@),
    ensures
        holds == (le_value(a@) >= le_value(b@)),
{
    let x = pad_to(a, b.len());
    let y = pad_to(b, a.len());
    let mut i: usize = x.len();
    proof {
        assert(x@.skip(i as int).len() == 0);
        assert(y@.skip(i as int).len() == 0);
    }
    while i > 0
        invariant
            i <= x.len(),
            x.len() == y.len(),
            digits_ok(x@),
            digits_ok(y@),
            le_value(x@) == le_value(a@),
            le_value(y@) == le_value(b@),
            le_value(x@.skip(i as int)) == le_value(y@.skip(i as int)),
        decreases i,
    {
        i = i - 1;
        proof {
            let tx = x@.skip(i as int);
            let ty = y@.skip(i as int);
            assert(tx.skip(1) == x@.skip(i + 1));
            assert(ty.skip(1) == y@.skip(i + 1));
            assert(tx[0] == x[i as int]);
            assert(ty[0] == y[i as int]);
        }
        if x[i] > y[i] {
            proof {
                lemma_order_by_high_digits(x@, y@, i as int);
            }
            return true;
        }
        if x[i] < y[i] {
            proof {
                lemma_order_by_high_digits(y@, x@, i as int);
            }
            return false;
        }
    }
    proof {
        assert(x@.skip(0) == x@);
        assert(y@.skip(0) == y@);
    }
    true
}

/// The digits of the number that `a` writes less the number that `b` writes.
pub fn minus(a: &Vec<u8>, b: &Vec<u8>) -> (rest: Vec<u8>)
    requires
        digits_ok(a@),
        digits_ok(b@),
        le_value(a@) >= le_value(b@),
    ensures
        digits_ok(rest@),
        le_value(rest@) == le_value(a@) - le_value(b@),
{
    let x = pad_to(a, b.len());
    let y = pad_to(b, a.len());
    let mut rest: Vec<u8> = Vec::new();
    let mut borrow: u8 = 0;
    let mut i: usize = 0;
    proof {
        assert(x@.take(0).len() == 0);
        assert(y@.take(0).len() == 0);
        assert(pow10(0) == 1);
    }
    while i < x.len()
        invariant
            i <= x.len(),
            x.len() == y.len(),
            digits_ok(x@),
            digits_ok(y@),
            digits_ok(rest@),
            rest.len() == i,
            borrow <= 1,
            le_value(rest@) + le_value(y@.take(i as int)) == le_value(x@.take(i as int)) + borrow
                * pow10(i as nat),
        decreases x.len() - i,
    {
        let have: u8 = x[i];
        let take: u8 = y[i] + borrow;
        let (d, next): (u8, u8) = if have >= take {
            (have - take, 0)
        } else {
            (have + 10 - take, 1)
        };
        proof {
            let p = pow10(i as nat);
            lemma_le_value_push(rest@, d);
            lemma_le_value_push(x@.take(i as int), x[i as int]);
            lemma_le_value_push(y@.take(i as int), y[i as int]);
            assert(x@.take(i + 1) == x@.take(i as int).push(x[i as int]));
            assert(y@.take(i + 1) == y@.take(i as int).push(y[i as int]));
            assert(pow10((i + 1) as nat) == 10 * p);
            assert(d * p + y[i as int] * p + borrow * p == x[i as int] * p + next * (10 * p))
                by (nonlinear_arith)
                requires
                    d + y[i as int] + borrow == x[i as int] + 10 * next,
            ;
        }
        rest.push(d);
        borrow = next;
        i = i + 1;
    }
    proof {
        assert(x@.take(x.len() as int) == x@);
        assert(y@.take(y.len() as int) == y@);
        lemma_le_value_bound(rest@);
        if borrow == 1 {
            assert(1 * pow10(i as nat) == pow10(i as nat)) by (nonlinear_arith);
        } else {
            assert(0 * pow10(i as nat) == 0) by (nonlinear_arith);
        }
    }
    rest
}

/// The digits of the number that `digits` write, times ten to the power `places`.
pub fn shift_up(digits: &Vec<u8>, places: u128) -> (moved: Vec<u8>)
    requires
        digits_ok(digits@),
    ensures
        digits_ok(moved@),
        le_value(moved@) == le_value(digits@) * pow10(places as nat),
{
    let mut moved: Vec<u8> = Vec::new();
    let mut i: u128 = 0;
    while i < places
        invariant
            i <= places,
            moved@.len() == i,
            digits_ok(moved@),
            le_value(moved@) == 0,
        decreases places - i,
    {
        proof {
            lemma_le_value_push(moved@, 0);
            assert(0 * pow10(moved@.len()) == 0) by (nonlinear_arith);
        }
        moved.push(0);
        i = i + 1;
    }
    let mut k: usize = 0;
    proof {
        assert(digits@.take(0).len() == 0);
        assert(0 * pow10(places as nat) == 0) by (nonlinear_arith);
    }
    while k < digits.len()
        invariant
            k <= digits.len(),
            moved@.len() == places + k,
            digits_ok(digits@),
            digits_ok(moved@),
            le_value(moved@) == le_value(digits@.take(k as int)) * pow10(places as nat),
        decreases digits.len() - k,
    {
        proof {
            let d = digits[k as int];
            lemma_le_value_push(moved@, d);
            lemma_le_value_push(digits@.take(k as int), d);
            assert(digits@.take(k + 1) == digits@.take(k as int).push(d));
            lemma_pow10_adds(k as nat, places as nat);
            let v = le_value(digits@.take(k as int));
            assert((v + d * pow10(k as nat)) * pow10(places as nat) == v * pow10(places as nat) + d
                * (pow10(k as nat) * pow10(places as nat))) by (nonlinear_arith);
            assert(pow10((places + k) as nat) == pow10((k + places) as nat));
        }
        moved.push(digits[k]);
        k = k + 1;
    }
    proof {
        assert(digits@.take(digits.len() as int) == digits@);
    }
    moved
}

} // verus!
