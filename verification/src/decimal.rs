//! Reading a number from text.
//!
//! The grammar is that of a decimal floating-point literal: an optional
//! sign, then either one of the words `inf`, `infinity` and `nan` in any
//! letter case, or digits with an optional point and an optional exponent.
//! At least one digit stands before the exponent, the point may come first
//! or last, and an exponent holds at least one digit. Nothing else may
//! surround the number.
//!
//! A number written with digits has an exact decimal value, however many
//! digits the text holds. What is read is the binary64 value nearest to
//! it: a numeral beyond the largest binary64 value reads as infinity, and
//! one too small for the smallest as zero.

use crate::bigdec::at_least;
use crate::bigdec::digits_ok;
use crate::bigdec::le_value;
use crate::bigdec::lemma_le_value_push;
use crate::bigdec::shift_up;
use crate::nearest::lemma_level_found;
use crate::nearest::nearest;
use crate::nearest::nearest_bits;
use crate::nearest::INFINITY_BITS;
use crate::nearest::TOP_LEVEL;
use crate::reading::Binary64;
use crate::reading::Reading;
use crate::reading::SIGN_BIT;
use vstd::arithmetic::div_mod::lemma_basic_div;
use vstd::arithmetic::div_mod::lemma_small_mod;
use vstd::arithmetic::power2::lemma2_to64;
use vstd::arithmetic::power2::lemma_pow2_adds;
use vstd::arithmetic::power2::lemma_pow2_pos;
use vstd::arithmetic::power2::lemma_pow2_strictly_increases;
use vstd::arithmetic::power2::lemma_pow2_unfold;
use vstd::arithmetic::power2::pow2;
use vstd::prelude::*;

verus! {

/// Ten to the power `e`.
pub open spec fn pow10(e: nat) -> nat
    decreases e,
{
    if e == 0 {
        1
    } else {
        10 * pow10((e - 1) as nat)
    }
}

/// Whether `c` is one of the ten digits.
pub open spec fn is_digit(c: char) -> bool {
    '0' <= c && c <= '9'
}

/// Whether `c` is a plus or a minus sign.
pub open spec fn is_sign(c: char) -> bool {
    c == '+' || c == '-'
}

/// The number that a digit character stands for.
pub open spec fn digit_value(c: char) -> nat
    recommends
        is_digit(c),
{
    (c as int - '0' as int) as nat
}

/// The number that a run of digit characters writes in base ten; the empty
/// run writes zero.
pub open spec fn digits_value(s: Seq<char>) -> nat
    decreases s.len(),
{
    if s.len() == 0 {
        0
    } else {
        10 * digits_value(s.drop_last()) + digit_value(s.last())
    }
}

/// The first position at or after `from` that holds no digit.
pub open spec fn digits_end(s: Seq<char>, from: int) -> int
    decreases s.len() - from,
{
    if 0 <= from < s.len() && is_digit(s[from]) {
        digits_end(s, from + 1)
    } else {
        from
    }
}

/// Whether `c` is the lower-case letter `letter`, or the same letter in upper case.
pub open spec fn is_letter(c: char, letter: char) -> bool {
    c == letter || ('A' <= c && c <= 'Z' && (c as u32) + 32 == (letter as u32))
}

/// Whether `s`, from position `from` to its end, is the lower-case `word`
/// in any letter case.
pub open spec fn is_word(s: Seq<char>, from: int, word: Seq<char>) -> bool {
    &&& 0 <= from
    &&& s.len() - from == word.len()
    &&& forall|i: int| 0 <= i < word.len() ==> is_letter(#[trigger] s[from + i], word[i])
}

/// The parts of a number written with digits.
pub struct Numeral {
    pub negative: bool,
    /// The digits before the point.
    pub int_digits: Seq<char>,
    /// The digits after the point.
    pub frac_digits: Seq<char>,
    /// The power of ten that the exponent part names; zero without one.
    pub exponent: int,
}

impl Numeral {
    /// All digits of the number, as if no point stood among them.
    pub open spec fn digits(self) -> Seq<char> {
        self.int_digits + self.frac_digits
    }

    /// The power of ten by which the digits, read as a whole number, are
    /// multiplied.
    pub open spec fn shift(self) -> int {
        self.exponent - self.frac_digits.len()
    }

    /// The exact value.
    pub open spec fn reading(self) -> Reading {
        let m = digits_value(self.digits());
        if self.shift() >= 0 {
            Reading::Finite {
                negative: self.negative,
                subnormal: false,
                num: m * pow10(self.shift() as nat),
                den: 1,
            }
        } else {
            Reading::Finite {
                negative: self.negative,
                subnormal: false,
                num: m,
                den: pow10((-self.shift()) as nat),
            }
        }
    }
}

/// The position after an optional sign at the start of `s`.
pub open spec fn sign_end(s: Seq<char>, from: int) -> int {
    if 0 <= from < s.len() && is_sign(s[from]) {
        from + 1
    } else {
        from
    }
}

/// Whether a minus sign stands at `from`.
pub open spec fn has_minus(s: Seq<char>, from: int) -> bool {
    0 <= from < s.len() && s[from] == '-'
}

/// The power of ten named by the exponent part that makes up `s` from
/// `from` to its end; zero where `s` ends at `from`; `None` where what
/// stands there is no exponent part.
pub open spec fn parse_exponent(s: Seq<char>, from: int) -> Option<int> {
    if from >= s.len() {
        Some(0)
    } else if s[from] == 'e' || s[from] == 'E' {
        let start = sign_end(s, from + 1);
        let end = digits_end(s, start);
        if end > start && end == s.len() {
            let size = digits_value(s.subrange(start, end));
            if has_minus(s, from + 1) {
                Some(-size)
            } else {
                Some(size as int)
            }
        } else {
            None
        }
    } else {
        None
    }
}

/// The number written with digits that `s` holds after its sign, if it holds one.
pub open spec fn parse_numeral(s: Seq<char>) -> Option<Numeral> {
    let start = sign_end(s, 0);
    let int_end = digits_end(s, start);
    let has_point = int_end < s.len() && s[int_end] == '.';
    let frac_start = if has_point {
        int_end + 1
    } else {
        int_end
    };
    let frac_end = digits_end(s, frac_start);
    if (int_end - start) + (frac_end - frac_start) == 0 {
        None
    } else {
        match parse_exponent(s, frac_end) {
            Some(exponent) => Some(
                Numeral {
                    negative: has_minus(s, 0),
                    int_digits: s.subrange(start, int_end),
                    frac_digits: s.subrange(frac_start, frac_end),
                    exponent,
                },
            ),
            None => None,
        }
    }
}

/// The value that the text `s` writes, or `None` where it writes no number.
pub open spec fn parse_reading(s: Seq<char>) -> Option<Reading> {
    let start = sign_end(s, 0);
    if is_word(s, start, seq!['i', 'n', 'f']) || is_word(
        s,
        start,
        seq!['i', 'n', 'f', 'i', 'n', 'i', 't', 'y'],
    ) {
        Some(Reading::Infinite { negative: has_minus(s, 0) })
    } else if is_word(s, start, seq!['n', 'a', 'n']) {
        Some(Reading::NotANumber)
    } else {
        match parse_numeral(s) {
            Some(n) => Some(n.reading()),
            None => None,
        }
    }
}

/// A power of ten is above zero.
pub proof fn lemma_pow10_positive(e: nat)
    ensures
        pow10(e) > 0,
    decreases e,
{
    if e > 0 {
        lemma_pow10_positive((e - 1) as nat);
    }
}

/// Powers of ten multiply by adding their exponents.
pub proof fn lemma_pow10_adds(a: nat, b: nat)
    ensures
        pow10(a + b) == pow10(a) * pow10(b),
    decreases a,
{
    if a == 0 {
        assert(pow10(0) * pow10(b) == pow10(b)) by (nonlinear_arith)
            requires
                pow10(0) == 1,
        ;
    } else {
        lemma_pow10_adds((a - 1) as nat, b);
        assert(pow10(a + b) == 10 * pow10((a - 1 + b) as nat));
        assert(10 * (pow10((a - 1) as nat) * pow10(b)) == (10 * pow10((a - 1) as nat)) * pow10(b))
            by (nonlinear_arith);
    }
}

/// A power of ten grows with its exponent.
pub proof fn lemma_pow10_monotonic(a: nat, b: nat)
    requires
        a <= b,
    ensures
        pow10(a) <= pow10(b),
    decreases b,
{
    if a < b {
        lemma_pow10_monotonic(a, (b - 1) as nat);
    }
}

/// The first powers of ten.
pub proof fn lemma_pow10_values()
    ensures
        pow10(0) == 1,
        pow10(1) == 10,
        pow10(2) == 100,
        pow10(3) == 1000,
        pow10(9) == 1_000_000_000,
{
    reveal_with_fuel(pow10, 10);
}

/// A run of `n` digit characters writes a number below ten to the `n`.
pub proof fn lemma_digits_value_bound(s: Seq<char>)
    requires
        forall|i: int| 0 <= i < s.len() ==> is_digit(#[trigger] s[i]),
    ensures
        digits_value(s) < pow10(s.len()),
    decreases s.len(),
{
    if s.len() > 0 {
        lemma_digits_value_bound(s.drop_last());
    }
}

/// A run of digits is the digits before a position, moved up by the number
/// of digits after it, plus the digits after it.
pub proof fn lemma_digits_value_split(s: Seq<char>, k: int)
    requires
        0 <= k <= s.len(),
    ensures
        digits_value(s) == digits_value(s.take(k)) * pow10((s.len() - k) as nat) + digits_value(
            s.skip(k),
        ),
    decreases s.len(),
{
    if k == s.len() {
        assert(s.take(k) == s);
        assert(s.skip(k).len() == 0);
        assert(digits_value(s) * pow10(0) == digits_value(s)) by (nonlinear_arith)
            requires
                pow10(0) == 1,
        ;
    } else {
        let init = s.drop_last();
        lemma_digits_value_split(init, k);
        assert(init.take(k) == s.take(k));
        assert(s.skip(k).drop_last() == init.skip(k));
        assert(s.skip(k).last() == s.last());
        let pre = digits_value(s.take(k));
        let p = pow10((init.len() - k) as nat);
        assert(pow10((s.len() - k) as nat) == 10 * p);
        assert(10 * (pre * p + digits_value(init.skip(k))) + digit_value(s.last()) == pre * (10 * p)
            + (10 * digits_value(init.skip(k)) + digit_value(s.last()))) by (nonlinear_arith);
    }
}

/// The number that a digit character stands for.
fn digit_of(c: char) -> (d: u64)
    requires
        is_digit(c),
    ensures
        d == digit_value(c),
        d <= 9,
{
    ((c as u32) - ('0' as u32)) as u64
}

/// Exponents beyond this size, either way, are held as this size: far more
/// than any text has digits.
pub const EXPONENT_CAP: i128 = 1_000_000_000_000_000_000_000_000_000_000;

/// An exponent held within the cap.
pub open spec fn clamp_exponent(e: int) -> int {
    if e > EXPONENT_CAP {
        EXPONENT_CAP as int
    } else if e < -EXPONENT_CAP {
        -EXPONENT_CAP
    } else {
        e
    }
}

/// What scanning a number written with digits yields.
pub struct Scan {
    pub negative: bool,
    /// The digits before and after the point, in order.
    pub digits: Vec<char>,
    /// How many of them stand before the point.
    pub int_len: usize,
    /// The exponent, held within the cap.
    pub exponent: i128,
}

impl Scan {
    /// Whether this scan holds the parts of `n`.
    pub open spec fn holds(self, n: Numeral) -> bool {
        &&& self.negative == n.negative
        &&& self.digits@ == n.digits()
        &&& self.int_len == n.int_digits.len()
        &&& self.exponent == clamp_exponent(n.exponent)
        &&& forall|i: int| 0 <= i < self.digits.len() ==> is_digit(#[trigger] self.digits[i])
    }
}

/// Copies the digits that stand at `from` to `out`, and returns the position after them.
fn scan_digits(s: &Vec<char>, from: usize, out: &mut Vec<char>) -> (end: usize)
    requires
        from <= s.len(),
        forall|i: int| 0 <= i < old(out).len() ==> is_digit(#[trigger] old(out)[i]),
    ensures
        end == digits_end(s@, from as int),
        from <= end <= s.len(),
        final(out)@ == old(out)@ + s@.subrange(from as int, end as int),
        forall|i: int| 0 <= i < final(out).len() ==> is_digit(#[trigger] final(out)[i]),
{
    let mut i = from;
    proof {
        assert(old(out)@ + s@.subrange(from as int, from as int) == old(out)@);
    }
    while i < s.len() && s[i] >= '0' && s[i] <= '9'
        invariant
            from <= i <= s.len(),
            digits_end(s@, from as int) == digits_end(s@, i as int),
            out@ == old(out)@ + s@.subrange(from as int, i as int),
            forall|k: int| 0 <= k < out.len() ==> is_digit(#[trigger] out[k]),
        decreases s.len() - i,
    {
        out.push(s[i]);
        proof {
            assert(s@.subrange(from as int, i + 1) == s@.subrange(from as int, i as int).push(
                s@[i as int],
            ));
            assert(out@ == old(out)@ + s@.subrange(from as int, i + 1));
        }
        i = i + 1;
    }
    i
}

/// Reads the exponent part that makes up `s` from `from` to its end.
fn scan_exponent(s: &Vec<char>, from: usize) -> (r: Option<i128>)
    requires
        from <= s.len(),
    ensures
        r is Some <==> parse_exponent(s@, from as int) is Some,
        r matches Some(e) ==> e == clamp_exponent(parse_exponent(s@, from as int)->0),
{
    if from >= s.len() {
        return Some(0);
    }
    let mark = s[from];
    if !(mark == 'e' || mark == 'E') {
        return None;
    }
    let mut i = from + 1;
    let mut negative = false;
    if i < s.len() && (s[i] == '+' || s[i] == '-') {
        negative = s[i] == '-';
        i = i + 1;
    }
    let start = i;
    let mut size: u128 = 0;
    proof {
        assert(s@.subrange(start as int, start as int).len() == 0);
    }
    while i < s.len() && s[i] >= '0' && s[i] <= '9'
        invariant
            start <= i <= s.len(),
            digits_end(s@, start as int) == digits_end(s@, i as int),
            size <= EXPONENT_CAP,
            size == (if digits_value(s@.subrange(start as int, i as int)) > EXPONENT_CAP {
                EXPONENT_CAP as nat
            } else {
                digits_value(s@.subrange(start as int, i as int))
            }),
        decreases s.len() - i,
    {
        let v = digit_of(s[i]) as u128;
        proof {
            assert(s@.subrange(start as int, i + 1).drop_last() == s@.subrange(
                start as int,
                i as int,
            ));
            assert(s@.subrange(start as int, i + 1).last() == s@[i as int]);
        }
        let next = size * 10 + v;
        size = if next > EXPONENT_CAP as u128 {
            EXPONENT_CAP as u128
        } else {
            next
        };
        i = i + 1;
    }
    if i > start && i == s.len() {
        if negative {
            Some(-(size as i128))
        } else {
            Some(size as i128)
        }
    } else {
        None
    }
}

/// Scans the number written with digits that `s` holds after its sign.
pub fn scan_numeral(s: &Vec<char>) -> (r: Option<Scan>)
    ensures
        r is Some <==> parse_numeral(s@) is Some,
        r matches Some(scan) ==> scan.holds(parse_numeral(s@)->0),
{
    let mut negative = false;
    let mut start: usize = 0;
    if s.len() > 0 && (s[0] == '+' || s[0] == '-') {
        negative = s[0] == '-';
        start = 1;
    }
    let mut digits: Vec<char> = Vec::new();
    let int_end = scan_digits(s, start, &mut digits);
    let has_point = int_end < s.len() && s[int_end] == '.';
    let frac_start = if has_point {
        int_end + 1
    } else {
        int_end
    };
    let frac_end = scan_digits(s, frac_start, &mut digits);
    if digits.len() == 0 {
        return None;
    }
    match scan_exponent(s, frac_end) {
        Some(exponent) => Some(Scan { negative, digits, int_len: int_end - start, exponent }),
        None => None,
    }
}

/// Whether `s`, from `from` to its end, is the lower-case `word` in any letter case.
fn word_at(s: &Vec<char>, from: usize, word: &Vec<char>) -> (found: bool)
    requires
        from <= s.len(),
    ensures
        found == is_word(s@, from as int, word@),
{
    if s.len() - from != word.len() {
        return false;
    }
    let mut i: usize = 0;
    while i < word.len()
        invariant
            i <= word.len(),
            from <= s.len(),
            s.len() - from == word.len(),
            forall|k: int| 0 <= k < i ==> is_letter(#[trigger] s@[from + k], word@[k]),
        decreases word.len() - i,
    {
        let c = s[from + i];
        let w = word[i];
        let same = c == w || (c >= 'A' && c <= 'Z' && (c as u32) + 32 == (w as u32));
        assert(c == s@[from + i]);
        if !same {
            return false;
        }
        i = i + 1;
    }
    true
}

/// The bit pattern that stands for a value that is not a number.
pub const NAN_BITS: u64 = 0x7ff8_0000_0000_0000;

/// The pattern of the size `magnitude` under the given sign.
pub open spec fn signed_bits(negative: bool, magnitude: nat) -> u64 {
    if negative {
        (SIGN_BIT + magnitude) as u64
    } else {
        magnitude as u64
    }
}

/// The binary64 value that the text `s` reads as, or `None` where it
/// writes no number: infinity and not-a-number for the words, and for a
/// numeral the binary64 value nearest to its exact decimal value.
pub open spec fn text_value(s: Seq<char>) -> Option<Binary64> {
    match parse_reading(s) {
        None => None,
        Some(Reading::NotANumber) => Some(Binary64 { bits: NAN_BITS }),
        Some(Reading::Infinite { negative }) => Some(
            Binary64 { bits: signed_bits(negative, INFINITY_BITS as nat) },
        ),
        Some(Reading::Finite { negative, num, den, .. }) => Some(
            Binary64 { bits: signed_bits(negative, nearest_bits(num, den)) },
        ),
    }
}

/// Two to the power of three times `k` is at most ten to the power `k`.
pub proof fn lemma_pow2_under_pow10(k: nat)
    ensures
        pow2(3 * k) <= pow10(k),
    decreases k,
{
    lemma2_to64();
    if k > 0 {
        lemma_pow2_under_pow10((k - 1) as nat);
        lemma_pow2_adds(3, (3 * (k - 1)) as nat);
        assert(8 * pow2((3 * (k - 1)) as nat) <= 10 * pow10((k - 1) as nat)) by (nonlinear_arith)
            requires
                pow2((3 * (k - 1)) as nat) <= pow10((k - 1) as nat),
        ;
    }
}

/// A fraction under 2^-1076 reads as zero.
pub proof fn lemma_nearest_of_tiny(num: nat, den: nat)
    requires
        den > 0,
        num * pow2(1076) < den,
    ensures
        nearest_bits(num, den) == 0,
{
    lemma_pow2_pos(1076);
    lemma_pow2_pos(1024);
    lemma_pow2_pos(971);
    lemma_pow2_adds(1076, 968);
    lemma_pow2_adds(1076, 971);
    lemma_pow2_adds(968, 55);
    lemma_pow2_pos(55);
    lemma_pow2_pos(968);
    lemma_pow2_unfold(2045);
    lemma_pow2_unfold(2046);
    lemma_pow2_unfold(2047);
    let x = num * pow2(1076);
    assert(num <= x) by (nonlinear_arith)
        requires
            x == num * pow2(1076),
            pow2(1076) >= 1,
    ;
    assert(den <= den * pow2(1024)) by (nonlinear_arith)
        requires
            pow2(1024) >= 1,
    ;
    assert(num * pow2(2044) < pow2(1023) * den) by (nonlinear_arith)
        requires
            num * pow2(1076) < den,
            pow2(2044) == pow2(1076) * pow2(968),
            pow2(1023) == pow2(968) * pow2(55),
            pow2(968) > 0,
            pow2(55) >= 1,
            den > 0,
    {
        assert(num * pow2(1076) * pow2(968) < den * pow2(968));
        assert(den * pow2(968) <= den * pow2(968) * pow2(55));
    }
    lemma_level_found(num, den, 0, TOP_LEVEL as nat);
    let a = num * pow2(2045);
    let b = den * pow2(971);
    assert(4 * a < b) by (nonlinear_arith)
        requires
            a == num * pow2(2045),
            b == den * pow2(971),
            num * pow2(1076) < den,
            pow2(2047) == pow2(1076) * pow2(971),
            pow2(2047) == 4 * pow2(2045),
            pow2(971) > 0,
    {
        assert(num * pow2(1076) * pow2(971) < den * pow2(971));
    }
    lemma_basic_div(a as int, b as int);
    lemma_small_mod(a, b);
}

/// The digits that the characters `chars` write, lowest first.
fn digit_vector(chars: &Vec<char>) -> (digits: Vec<u8>)
    requires
        forall|i: int| 0 <= i < chars.len() ==> is_digit(#[trigger] chars[i]),
    ensures
        digits_ok(digits@),
        digits@.len() == chars@.len(),
        le_value(digits@) == digits_value(chars@),
{
    let mut digits: Vec<u8> = Vec::new();
    let mut i: usize = chars.len();
    proof {
        assert(chars@.skip(i as int).len() == 0);
    }
    while i > 0
        invariant
            i <= chars.len(),
            forall|k: int| 0 <= k < chars.len() ==> is_digit(#[trigger] chars[k]),
            digits_ok(digits@),
            digits@.len() == chars.len() - i,
            le_value(digits@) == digits_value(chars@.skip(i as int)),
        decreases i,
    {
        i = i - 1;
        let d = digit_of(chars[i]) as u8;
        proof {
            let t = chars@.skip(i as int);
            lemma_digits_value_split(t, 1);
            assert(t.skip(1) == chars@.skip(i + 1));
            assert(t.take(1).drop_last().len() == 0);
            assert(digits_value(t.take(1).drop_last()) == 0);
            assert(t.take(1).last() == chars[i as int]);
            assert(digits_value(t.take(1)) == d);
            lemma_le_value_push(digits@, d);
        }
        digits.push(d);
    }
    proof {
        assert(chars@.skip(0) == chars@);
    }
    digits
}

/// Reads the binary64 value that the characters `s` write, if they write a number.
pub fn read_binary64(s: &Vec<char>) -> (value: Option<Binary64>)
    ensures
        value == text_value(s@),
{
    let start: usize = if s.len() > 0 && (s[0] == '+' || s[0] == '-') {
        1
    } else {
        0
    };
    let negative = s.len() > 0 && s[0] == '-';
    let sign: u64 = if negative {
        SIGN_BIT
    } else {
        0
    };
    let inf = vec!['i', 'n', 'f'];
    let infinity = vec!['i', 'n', 'f', 'i', 'n', 'i', 't', 'y'];
    let nan = vec!['n', 'a', 'n'];
    assert(inf@ == seq!['i', 'n', 'f']);
    assert(infinity@ == seq!['i', 'n', 'f', 'i', 'n', 'i', 't', 'y']);
    assert(nan@ == seq!['n', 'a', 'n']);
    if word_at(s, start, &inf) || word_at(s, start, &infinity) {
        return Some(Binary64 { bits: sign + INFINITY_BITS });
    }
    if word_at(s, start, &nan) {
        return Some(Binary64 { bits: NAN_BITS });
    }
    match scan_numeral(s) {
        Some(scan) => {
            let digits = digit_vector(&scan.digits);
            let count = scan.digits.len() as i128;
            let shift: i128 = scan.exponent - (count - scan.int_len as i128);
            let one: Vec<u8> = vec![1u8];
            let ghost n = parse_numeral(s@)->0;
            let ghost m = digits_value(n.digits());
            proof {
                assert(one@.skip(1).len() == 0);
                assert(le_value(one@.skip(1)) == 0);
                assert(le_value(one@) == 1);
                lemma_digits_value_bound(n.digits());
                lemma_pow10_positive((-n.shift()) as nat);
                lemma_pow2_pos(1024);
                lemma_pow2_pos(1076);
            }
            let magnitude: u64 = if shift >= 342 {
                if at_least(&digits, &one) {
                    proof {
                        lemma_pow2_under_pow10(342);
                        lemma_pow2_strictly_increases(1024, 1026);
                        lemma_pow10_monotonic(342, n.shift() as nat);
                        let p = pow10(n.shift() as nat);
                        assert(m * p >= 1 * pow2(1024)) by (nonlinear_arith)
                            requires
                                m >= 1,
                                p >= pow2(1024),
                        ;
                    }
                    INFINITY_BITS
                } else {
                    proof {
                        assert(m * pow10(n.shift() as nat) == 0) by (nonlinear_arith)
                            requires
                                m == 0,
                        ;
                        assert(0 * pow2(1076) == 0) by (nonlinear_arith);
                        lemma_nearest_of_tiny(0, 1);
                    }
                    0
                }
            } else if count + shift <= -359 {
                proof {
                    let places = (-n.shift()) as nat;
                    lemma_pow2_under_pow10(359);
                    lemma_pow2_strictly_increases(1076, 1077);
                    lemma_pow10_adds(count as nat, 359);
                    lemma_pow10_monotonic((count + 359) as nat, places);
                    assert(m * pow2(1076) < pow10(count as nat) * pow10(359)) by (nonlinear_arith)
                        requires
                            m < pow10(count as nat),
                            pow2(1076) < pow10(359),
                            pow2(1076) > 0,
                    ;
                    lemma_nearest_of_tiny(m, pow10(places));
                }
                0
            } else if shift >= 0 {
                let above = shift_up(&digits, shift as u128);
                nearest(&above, &one)
            } else {
                let below = shift_up(&one, (-shift) as u128);
                proof {
                    assert(1 * pow10((-shift) as nat) == pow10((-shift) as nat))
                        by (nonlinear_arith);
                }
                nearest(&digits, &below)
            };
            Some(Binary64 { bits: sign + magnitude })
        },
        None => None,
    }
}

} // verus!
