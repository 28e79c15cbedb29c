use suibase_daemon::arith64::percent_binary64;
use suibase_daemon::bigdec::{at_least, digits_of, double, minus, pad_to, shift_up};
use suibase_daemon::decimal::read_binary64;
use suibase_daemon::proxy_api::chars_of;
use suibase_daemon::nearest::{nearest, times_pow2};
use suibase_daemon::reading::Binary64;

fn b(x: f64) -> Binary64 {
    Binary64::from_bits(x.to_bits())
}

fn number(digits: &[u8]) -> u128 {
    digits.iter().rev().fold(0u128, |acc, d| acc * 10 + *d as u128)
}

fn randoms(count: usize, seed: u64) -> Vec<u64> {
    let mut x = seed;
    let mut out = Vec::new();
    for _ in 0..count {
        x ^= x << 13;
        x ^= x >> 7;
        x ^= x << 17;
        out.push(x);
    }
    out
}

#[test]
fn whole_numbers_are_rounded_as_a_cast_rounds() {
    for n in [0u128, 1, 2, 3, 1 << 52, (1 << 53) - 1, 1 << 53, (1 << 53) + 1, (1 << 53) + 2,
        (1 << 53) + 3, (1 << 54) + 2, (1 << 54) + 6, u64::MAX as u128, u128::MAX,
        u128::MAX - (1 << 74), u128::MAX - (1 << 75), (1 << 100) + (1 << 47), (1 << 100) + (1 << 46)]
    {
        assert_eq!(Binary64::of_integer(n).to_bits(), (n as f64).to_bits(), "{}", n);
    }
    for x in randoms(500, 0xA24BAED4963EE407) {
        let n = (x as u128) << (x % 64) | (x.rotate_left(29) as u128);
        assert_eq!(Binary64::of_integer(n).to_bits(), (n as f64).to_bits(), "{}", n);
        assert_eq!(Binary64::of_integer(x as u128).to_bits(), (x as f64).to_bits(), "{}", x);
    }
}

#[test]
fn products_are_rounded_as_multiplication_rounds() {
    let mut values = vec![0.0, -0.0, 1.0, 0.07, 1e306, 1.8e306, 1.7976931348623157e306,
        1.7976931348623158e306, 1e307, f64::MAX, 5e-324, 1e-323, 2.2250738585072014e-310,
        f64::INFINITY, f64::NEG_INFINITY];
    for x in randoms(300, 0x9FB21C651E98DF25) {
        let v = f64::from_bits(x);
        if !v.is_nan() {
            values.push(v);
        }
        values.push((x % 10_000_000) as f64 / 1000.0);
    }
    for v in values {
        assert_eq!(b(v).times_hundred().to_bits(), (v * 100.0).to_bits(), "{:?}", v);
    }
    let nan = Binary64::from_bits(0x7ff8_0000_0000_0001);
    assert_eq!(nan.times_hundred().to_bits(), 0x7ff8_0000_0000_0001);
}

#[test]
fn quotients_are_rounded_as_division_rounds() {
    let mut pairs = vec![(1.0, 3.0), (2.0, 3.0), (0.0, 5.0), (-0.0, 5.0), (0.0, -5.0), (1.0, -3.0),
        (f64::MAX, 0.5), (f64::MAX, 0.9999999999999999), (5e-324, 2.0), (1.5e-323, 2.0),
        (2.2250738585072014e-308, 1.0000000000000002), (1e308, 1e-308), (1e-308, 1e308),
        (100.0, 4000.0), (300.0, 20000.0)];
    let xs = randoms(400, 0xC2B2AE3D27D4EB4F);
    for pair in xs.chunks(2) {
        let (a, c) = (f64::from_bits(pair[0]), f64::from_bits(pair[1]));
        if a.is_finite() && c.is_finite() && c != 0.0 {
            pairs.push((a, c));
        }
        pairs.push(((pair[0] % 1_000_000) as f64, 1.0 + (pair[1] % 1_000_000) as f64));
    }
    for (a, c) in pairs {
        assert_eq!(b(a).over(b(c)).to_bits(), (a / c).to_bits(), "{:?} / {:?}", a, c);
    }
}

#[test]
fn quotients_without_a_value() {
    let nan = 0x7ff8_0000_0000_0000;
    assert_eq!(b(1.0).over(b(0.0)).to_bits(), nan);
    assert_eq!(b(0.0).over(b(0.0)).to_bits(), nan);
    assert_eq!(b(f64::INFINITY).over(b(2.0)).to_bits(), nan);
    assert_eq!(b(2.0).over(b(f64::INFINITY)).to_bits(), nan);
    assert_eq!(b(2.0).over(b(f64::NAN)).to_bits(), nan);
    assert_eq!(percent_binary64(1, 0).to_bits(), nan);
}

#[test]
fn percentages() {
    assert_eq!(percent_binary64(1, 4000).to_bits(), 0.025f64.to_bits());
    assert_eq!(percent_binary64(1, 3).to_bits(), (100.0f64 / 3.0).to_bits());
    assert_eq!(percent_binary64(0, 3).to_bits(), 0);
    assert_eq!(percent_binary64(7, 7).to_bits(), 100.0f64.to_bits());
    assert_eq!(percent_binary64(1, 4000).machine_form(), "0.03");
    assert_eq!(percent_binary64(3, 20000).machine_form(), "0.01");
}

#[test]
fn fractions_of_values() {
    let d = b(-0.75).dyadic().unwrap();
    assert!(d.negative);
    assert_eq!(number(&d.numerator), 3 << 51);
    assert_eq!(d.halvings, 53);
    let d = b(6.0).dyadic().unwrap();
    assert_eq!((d.negative, d.halvings), (false, 50));
    assert_eq!(number(&d.numerator), 6 << 50);
    let d = b(1e22).dyadic().unwrap();
    assert_eq!((number(&d.numerator), d.halvings), (10_000_000_000_000_000_000_000, 0));
    let d = b(5e-324).dyadic().unwrap();
    assert_eq!((number(&d.numerator), d.halvings), (1, 1074));
    assert!(b(f64::NAN).dyadic().is_none());
    assert!(b(f64::NEG_INFINITY).dyadic().is_none());
}

#[test]
fn nearest_of_fractions() {
    let one = vec![1u8];
    let three = vec![3u8];
    assert_eq!(nearest(&one, &three), (1.0f64 / 3.0).to_bits());
    assert_eq!(nearest(&digits_of(35), &digits_of(100)), 0.35f64.to_bits());
    assert_eq!(nearest(&vec![], &one), 0);
    assert_eq!(nearest(&vec![0, 0], &vec![7, 0, 0]), 0);
    assert_eq!(nearest(&digits_of(u128::MAX), &one), (u128::MAX as f64).to_bits());
    assert_eq!(nearest(&shift_up(&one, 309), &one), f64::INFINITY.to_bits());
    assert_eq!(nearest(&one, &shift_up(&one, 400)), 0);
    assert_eq!(nearest(&one, &times_pow2(&one, 1074)), 1);
    assert_eq!(nearest(&one, &times_pow2(&one, 1075)), 0);
    assert_eq!(nearest(&three, &times_pow2(&one, 1075)), 2);
    assert_eq!(nearest(&three, &times_pow2(&one, 1076)), 1);
}

#[test]
fn big_decimals() {
    assert_eq!(digits_of(0), [0]);
    assert_eq!(digits_of(9075), [5, 7, 0, 9]);
    assert_eq!(number(&digits_of(u128::MAX)), u128::MAX);
    assert_eq!(double(&vec![5, 7, 0, 9]), [0, 5, 1, 8, 1]);
    assert_eq!(double(&vec![0]), [0]);
    assert_eq!(double(&vec![]), Vec::<u8>::new());
    assert_eq!(number(&times_pow2(&digits_of(3), 100)), 3 << 100);
    assert_eq!(shift_up(&vec![2, 1], 3), [0, 0, 0, 2, 1]);
    assert_eq!(shift_up(&vec![2, 1], 0), [2, 1]);
    assert_eq!(pad_to(&vec![2, 1], 4), [2, 1, 0, 0]);
    assert_eq!(pad_to(&vec![2, 1], 1), [2, 1]);
    for x in randoms(300, 0x165667B19E3779F9) {
        let (p, q) = ((x >> 20) as u128 * (x % 1000) as u128, (x.rotate_left(31) >> 25) as u128);
        assert_eq!(at_least(&digits_of(p), &digits_of(q)), p >= q);
        assert!(at_least(&digits_of(p), &pad_to(&digits_of(p), 50)));
        let (hi, lo) = if p >= q { (p, q) } else { (q, p) };
        assert_eq!(number(&minus(&digits_of(hi), &digits_of(lo))), hi - lo);
    }
}

#[test]
fn text_is_read_as_the_float_parser_reads_it() {
    let mut texts: Vec<String> = ["0", "-0", "1", "0.1", "1e23", "8.5e-324", "2e-324", "3e-324",
        "1.7976931348623158e308", "1797693134862315708145274237317043567981e269", ".5", "5.",
        "+.5e+1", "1E400", "-1E400", "inf", "-INF", "Infinity"]
        .iter()
        .map(|t| t.to_string())
        .collect();
    for x in randoms(400, 0x27D4EB2F165667C5) {
        texts.push(format!("{:?}", f64::from_bits(x & 0x7fef_ffff_ffff_ffff)));
        texts.push(format!("{}.{}e{}", x % 1000, x >> 3, (x % 700) as i64 - 350));
    }
    for text in texts {
        let expected: f64 = text.parse().unwrap();
        let read = read_binary64(&chars_of(&text)).unwrap();
        assert_eq!(read.to_bits(), expected.to_bits(), "{:?}", text);
    }
    for text in ["nan", "NaN", "-nan"] {
        let read = read_binary64(&chars_of(text)).unwrap();
        assert!(f64::from_bits(read.to_bits()).is_nan(), "{:?}", text);
    }
    for text in ["", "x", "1x", "--1", "e", "1e", ".", "1 "] {
        assert!(read_binary64(&chars_of(text)).is_none(), "{:?}", text);
    }
}
