//! Building fixed-width text: decimal digits, runs of spaces and padding.

use vstd::prelude::*;

verus! {

/// The character for one decimal digit.
pub open spec fn digit_char(d: nat) -> char
    recommends
        d < 10,
{
    if d == 0 {
        '0'
    } else if d == 1 {
        '1'
    } else if d == 2 {
        '2'
    } else if d == 3 {
        '3'
    } else if d == 4 {
        '4'
    } else if d == 5 {
        '5'
    } else if d == 6 {
        '6'
    } else if d == 7 {
        '7'
    } else if d == 8 {
        '8'
    } else {
        '9'
    }
}

/// The decimal numeral of `n`, without leading zeros (`0` is "0").
pub open spec fn decimal_text(n: nat) -> Seq<char>
    decreases n,
{
    if n < 10 {
        seq![digit_char(n)]
    } else {
        decimal_text(n / 10).push(digit_char(n % 10))
    }
}

/// A run of `n` spaces.
pub open spec fn spaces(n: nat) -> Seq<char> {
    Seq::new(n, |i: int| ' ')
}

/// `s` right-justified in a field of `width` characters. Longer text is kept whole.
pub open spec fn pad_left(s: Seq<char>, width: nat) -> Seq<char> {
    if s.len() >= width {
        s
    } else {
        spaces((width - s.len()) as nat) + s
    }
}

/// `s` left-justified in a field of `width` characters. Longer text is kept whole.
pub open spec fn pad_right(s: Seq<char>, width: nat) -> Seq<char> {
    if s.len() >= width {
        s
    } else {
        s + spaces((width - s.len()) as nat)
    }
}

/// A decimal numeral of `n` has at least one character, and `digits` many
/// whenever `n` lies in the range of numbers with that many digits.
pub proof fn lemma_decimal_text_len(n: nat)
    ensures
        decimal_text(n).len() >= 1,
        n < 10 ==> decimal_text(n).len() == 1,
        10 <= n < 100 ==> decimal_text(n).len() == 2,
        100 <= n < 1000 ==> decimal_text(n).len() == 3,
        1000 <= n < 10000 ==> decimal_text(n).len() == 4,
        10000 <= n < 100000 ==> decimal_text(n).len() == 5,
        100000 <= n < 1000000 ==> decimal_text(n).len() == 6,
        1000000 <= n < 10000000 ==> decimal_text(n).len() == 7,
        10000000 <= n < 100000000 ==> decimal_text(n).len() == 8,
    decreases n,
{
    if n >= 10 {
        lemma_decimal_text_len(n / 10);
    }
}

/// Appends one decimal digit.
pub fn push_digit(out: &mut String, d: u8)
    requires
        d < 10,
    ensures
        final(out)@ == old(out)@.push(digit_char(d as nat)),
{
    proof {
        reveal_strlit("0");
        reveal_strlit("1");
        reveal_strlit("2");
        reveal_strlit("3");
        reveal_strlit("4");
        reveal_strlit("5");
        reveal_strlit("6");
        reveal_strlit("7");
        reveal_strlit("8");
        reveal_strlit("9");
    }
    let piece = match d {
        0 => "0",
        1 => "1",
        2 => "2",
        3 => "3",
        4 => "4",
        5 => "5",
        6 => "6",
        7 => "7",
        8 => "8",
        _ => "9",
    };
    assert(piece@ == seq![digit_char(d as nat)]);
    out.append(piece);
    assert(old(out)@ + seq![digit_char(d as nat)] == old(out)@.push(digit_char(d as nat)));
}

/// Appends the decimal numeral of `n`.
pub fn push_decimal(out: &mut String, n: u128)
    ensures
        final(out)@ == old(out)@ + decimal_text(n as nat),
    decreases n,
{
    if n >= 10 {
        push_decimal(out, n / 10);
    }
    push_digit(out, (n % 10) as u8);
    proof {
        if n >= 10 {
            assert(old(out)@ + decimal_text(n as nat / 10).push(digit_char(n as nat % 10)) == (old(out)@
                + decimal_text(n as nat / 10)).push(digit_char(n as nat % 10)));
        } else {
            assert(old(out)@ + seq![digit_char(n as nat)] == old(out)@.push(digit_char(n as nat)));
        }
    }
}

/// Appends `n` spaces.
pub fn push_spaces(out: &mut String, n: usize)
    ensures
        final(out)@ == old(out)@ + spaces(n as nat),
{
    proof {
        reveal_strlit(" ");
    }
    let mut i: usize = 0;
    assert(old(out)@ + spaces(0) == old(out)@);
    while i < n
        invariant
            i <= n,
            out@ == old(out)@ + spaces(i as nat),
            " "@ == seq![' '],
        decreases n - i,
    {
        out.append(" ");
        assert((old(out)@ + spaces(i as nat)) + seq![' '] == old(out)@ + spaces((i + 1) as nat));
        i = i + 1;
    }
}

/// Appends `piece` right-justified in a field of `width` characters.
pub fn push_padded_left(out: &mut String, piece: &str, width: usize)
    ensures
        final(out)@ == old(out)@ + pad_left(piece@, width as nat),
{
    let len = piece.unicode_len();
    if len < width {
        push_spaces(out, width - len);
        out.append(piece);
        assert((old(out)@ + spaces((width - len) as nat)) + piece@ == old(out)@ + (spaces(
            (width - len) as nat,
        ) + piece@));
    } else {
        out.append(piece);
    }
}

/// Appends `piece` left-justified in a field of `width` characters.
pub fn push_padded_right(out: &mut String, piece: &str, width: usize)
    ensures
        final(out)@ == old(out)@ + pad_right(piece@, width as nat),
{
    let len = piece.unicode_len();
    out.append(piece);
    if len < width {
        push_spaces(out, width - len);
        assert((old(out)@ + piece@) + spaces((width - len) as nat) == old(out)@ + (piece@ + spaces(
            (width - len) as nat,
        )));
    }
}

} // verus!
