use suibase_daemon::proxy_api::ProxyApiImpl;
use suibase_daemon::reading::Binary64;

fn b(x: f64) -> Binary64 {
    Binary64::from_bits(x.to_bits())
}

fn float_pct(input: f64) -> String {
    if input.is_sign_negative() || input.is_infinite() || input.is_nan() {
        return "    -".to_string();
    }
    if input == 0.0 {
        "  0.0".to_string()
    } else if input < 0.1 {
        " <0.1".to_string()
    } else if input >= 100.001 {
        "100.0".to_string()
    } else {
        format!("{:5.1}", input)
    }
}

fn float_score(input: f64) -> String {
    if input.is_infinite() || input.is_nan() {
        return "    -".to_string();
    }
    if input == 0.0 {
        "      ".to_string()
    } else if input.is_sign_positive() {
        if input < 0.1 {
            "  <0.1".to_string()
        } else if input >= 100.001 {
            "+100.0".to_string()
        } else {
            format!("{:+6.1}", input)
        }
    } else if input > -0.1 {
        "  -0.1".to_string()
    } else if input <= -100.0 {
        "-100.0".to_string()
    } else {
        format!("{:+6.1}", input)
    }
}

fn float_ms(input: f64) -> String {
    if input.is_sign_negative() || !input.is_normal() {
        "      -".to_string()
    } else if input >= 9999.99f64 {
        ">10secs".to_string()
    } else if input < 0.01f64 {
        "  <0.01".to_string()
    } else {
        format!("{:7.2}", input)
    }
}

fn text_ms(text: &str) -> String {
    float_ms(text.parse::<f64>().unwrap_or(-1.0))
}

fn text_pct(text: &str) -> String {
    float_pct(text.parse::<f64>().unwrap_or(-1.0))
}

fn text_score(text: &str) -> String {
    float_score(text.parse::<f64>().unwrap_or(f64::NAN))
}

fn samples() -> Vec<f64> {
    let mut v = vec![
        0.0, 0.05, 0.1, 0.19, 0.25, 0.35, 0.45, 0.55, 0.65, 0.75, 0.85, 0.95, 1.0, 1.05, 1.15,
        2.5, 9.95, 9.99, 10.0, 33.33, 33.35, 50.0, 66.666, 99.94, 99.95, 99.96, 99.99, 100.0,
        100.0005, 100.001, 100.002, 150.0, 1e-300, 5e-324, 1e300, 0.01, 0.005, 0.015, 0.025,
        0.125, 0.375, 12.345, 12.355, 1234.565, 9999.98, 9999.985, 9999.9849, 10000.0,
        4503599627370496.0, 9007199254740992.0, 1e19, 1e20, 1.7976931348623157e308,
        123456789.125, 0.004999, 0.00999, 0.0999, 0.09999999999999999, 2.2250738585072014e-308,
        2.225073858507201e-308, f64::INFINITY, f64::NAN, 105.28, 99.999, 999999.995,
    ];
    let mut x: u64 = 0x9E3779B97F4A7C15;
    for _ in 0..3000 {
        x ^= x << 13;
        x ^= x >> 7;
        x ^= x << 17;
        let m = (x % 20_000_000) as f64;
        v.push(m / 1000.0);
        v.push(m / 100000.0);
        v.push(f64::from_bits(x));
    }
    v
}

#[test]
fn pct_agrees_with_float_formatting() {
    for x in samples() {
        for y in [x, -x] {
            assert_eq!(ProxyApiImpl::fmt_f64_pct(b(y)), float_pct(y), "{:?}", y);
        }
    }
}

#[test]
fn score_agrees_with_float_formatting() {
    for x in samples() {
        for y in [x, -x] {
            assert_eq!(ProxyApiImpl::fmt_f64_score(b(y)), float_score(y), "{:?}", y);
        }
    }
}

#[test]
fn ms_agrees_with_float_formatting() {
    for x in samples() {
        for y in [x, -x] {
            assert_eq!(ProxyApiImpl::fmt_f64_ms(b(y)), float_ms(y), "{:?}", y);
        }
    }
}

#[test]
fn ms_at_the_limit() {
    let limit = 9999.99f64;
    assert!(limit.to_bits() == 0x40c387feb851eb85);
    assert_eq!(ProxyApiImpl::fmt_f64_ms(b(limit)), ">10secs");
    assert_eq!(ProxyApiImpl::fmt_f64_ms(Binary64::from_bits(0x40c387feb851eb84)), "9999.99");
    assert_eq!(ProxyApiImpl::fmt_f64_ms(Binary64::from_bits(0x40c387feb851eb86)), ">10secs");
    assert_eq!(ProxyApiImpl::fmt_str_ms("9999.99"), ">10secs");
    assert_eq!(ProxyApiImpl::fmt_str_ms("9999.9899999999999"), ">10secs");
    assert_eq!(ProxyApiImpl::fmt_str_ms("9999.98999999999"), "9999.99");
    for text in ["9999.989999999999", "9999.9899999999988", "9999.98999999999887", "9999.985"] {
        assert_eq!(ProxyApiImpl::fmt_str_ms(text), text_ms(text), "{:?}", text);
    }
    assert_eq!(ProxyApiImpl::fmt_str_ms("9999.98"), "9999.98");
}

#[test]
fn machine_form_agrees_with_float_formatting() {
    for x in samples() {
        for y in [x, -x] {
            let expected = if y.is_finite() { format!("{:.2}", y) } else { String::new() };
            assert_eq!(ProxyApiImpl::fmt_f64_api(b(y)), expected, "{:?}", y);
        }
    }
}

#[test]
fn machine_form_values() {
    assert_eq!(ProxyApiImpl::fmt_f64_api(b(0.0)), "0.00");
    assert_eq!(ProxyApiImpl::fmt_f64_api(b(-0.0)), "-0.00");
    assert_eq!(ProxyApiImpl::fmt_f64_api(b(12.345)), "12.35");
    assert_eq!(ProxyApiImpl::fmt_f64_api(b(0.125)), "0.12");
    assert_eq!(ProxyApiImpl::fmt_f64_api(b(0.375)), "0.38");
    assert_eq!(ProxyApiImpl::fmt_f64_api(b(-1.005)), "-1.00");
    assert_eq!(ProxyApiImpl::fmt_f64_api(b(1e21)), "1000000000000000000000.00");
    assert_eq!(ProxyApiImpl::fmt_f64_api(b(f64::NAN)), "");
    assert_eq!(ProxyApiImpl::fmt_f64_api(b(f64::INFINITY)), "");
    assert_eq!(ProxyApiImpl::fmt_f64_api(b(f64::NEG_INFINITY)), "");
    assert_eq!(ProxyApiImpl::fmt_f64_api(b(f64::MAX)).len(), 309 + 3);
}

#[test]
fn pct_of_values() {
    assert_eq!(ProxyApiImpl::fmt_f64_pct(b(0.0)), "  0.0");
    assert_eq!(ProxyApiImpl::fmt_f64_pct(b(0.05)), " <0.1");
    assert_eq!(ProxyApiImpl::fmt_f64_pct(b(100.0)), "100.0");
    assert_eq!(ProxyApiImpl::fmt_f64_pct(b(105.28)), "100.0");
    assert_eq!(ProxyApiImpl::fmt_f64_pct(b(1e300)), "100.0");
    assert_eq!(ProxyApiImpl::fmt_f64_pct(b(0.19)), "  0.2");
    assert_eq!(ProxyApiImpl::fmt_f64_pct(b(99.95)), "100.0");
    assert_eq!(ProxyApiImpl::fmt_f64_pct(b(0.25)), "  0.2");
    assert_eq!(ProxyApiImpl::fmt_f64_pct(b(0.75)), "  0.8");
    assert_eq!(ProxyApiImpl::fmt_f64_pct(b(42.0)), " 42.0");
}

#[test]
fn pct_of_negative_or_not_finite_is_a_dash() {
    for x in [-0.0, -1.0, -0.05, -100.0, f64::NEG_INFINITY, f64::INFINITY, f64::NAN, -f64::NAN] {
        assert_eq!(ProxyApiImpl::fmt_f64_pct(b(x)), "    -", "{:?}", x);
    }
    assert_eq!(ProxyApiImpl::fmt_f64_pct(Binary64::from_bits(0x7ff0_0000_0000_0001)), "    -");
    assert_eq!(ProxyApiImpl::fmt_f64_pct(Binary64::from_bits(0xffff_ffff_ffff_ffff)), "    -");
}

#[test]
fn pct_of_text() {
    assert_eq!(ProxyApiImpl::fmt_str_pct("0"), "  0.0");
    assert_eq!(ProxyApiImpl::fmt_str_pct("0.0"), "  0.0");
    assert_eq!(ProxyApiImpl::fmt_str_pct("0.05"), " <0.1");
    assert_eq!(ProxyApiImpl::fmt_str_pct("100"), "100.0");
    assert_eq!(ProxyApiImpl::fmt_str_pct("105.28"), "100.0");
    assert_eq!(ProxyApiImpl::fmt_str_pct("0.19"), "  0.2");
    assert_eq!(ProxyApiImpl::fmt_str_pct("33.33"), " 33.3");
    assert_eq!(ProxyApiImpl::fmt_str_pct("1e1"), " 10.0");
    assert_eq!(ProxyApiImpl::fmt_str_pct("5."), "  5.0");
    assert_eq!(ProxyApiImpl::fmt_str_pct(".5"), "  0.5");
    for text in ["", "abc", "1.2.3", ".", "-5", "-0", "-0.05", " 12.5 %", "12.5 %", "inf", "-inf", "nan"] {
        assert_eq!(ProxyApiImpl::fmt_str_pct(text), "    -", "{:?}", text);
    }
}

#[test]
fn ms_of_values() {
    assert_eq!(ProxyApiImpl::fmt_f64_ms(b(10000.0)), ">10secs");
    assert_eq!(ProxyApiImpl::fmt_f64_ms(b(0.005)), "  <0.01");
    assert_eq!(ProxyApiImpl::fmt_f64_ms(b(-1.0)), "      -");
    assert_eq!(ProxyApiImpl::fmt_f64_ms(b(-0.0)), "      -");
    assert_eq!(ProxyApiImpl::fmt_f64_ms(b(f64::NAN)), "      -");
    assert_eq!(ProxyApiImpl::fmt_f64_ms(b(f64::INFINITY)), "      -");
    assert_eq!(ProxyApiImpl::fmt_f64_ms(b(5e-324)), "      -");
    assert_eq!(ProxyApiImpl::fmt_f64_ms(b(0.01)), "   0.01");
    assert_eq!(ProxyApiImpl::fmt_f64_ms(b(102.125)), " 102.12");
    assert_eq!(ProxyApiImpl::fmt_f64_ms(b(9999.98)), "9999.98");
}

#[test]
fn ms_of_zero_is_a_dash() {
    // Zero is not in the normal range, so it is shown as a value without
    // data is.
    assert_eq!(ProxyApiImpl::fmt_f64_ms(b(0.0)), "      -");
    assert_eq!(ProxyApiImpl::fmt_str_ms("0"), "      -");
    assert_eq!(ProxyApiImpl::fmt_str_ms("0.00"), "      -");
}

#[test]
fn ms_of_text() {
    assert_eq!(ProxyApiImpl::fmt_str_ms("10000"), ">10secs");
    assert_eq!(ProxyApiImpl::fmt_str_ms("0.005"), "  <0.01");
    assert_eq!(ProxyApiImpl::fmt_str_ms("-3"), "      -");
    assert_eq!(ProxyApiImpl::fmt_str_ms(""), "      -");
    assert_eq!(ProxyApiImpl::fmt_str_ms("fast"), "      -");
    assert_eq!(ProxyApiImpl::fmt_str_ms("12.34"), "  12.34");
    assert_eq!(ProxyApiImpl::fmt_str_ms("1e3"), "1000.00");
    assert_eq!(ProxyApiImpl::fmt_str_ms("1E-1"), "   0.10");
    assert_eq!(ProxyApiImpl::fmt_str_ms("+7.005"), "   7.00");
    assert_eq!(ProxyApiImpl::fmt_str_ms("7.0150001"), "   7.02");
    assert_eq!(ProxyApiImpl::fmt_str_ms("7.0149999"), "   7.01");
    assert_eq!(ProxyApiImpl::fmt_str_ms(" 1"), "      -");
    assert_eq!(ProxyApiImpl::fmt_str_ms("1 "), "      -");
    assert_eq!(ProxyApiImpl::fmt_str_ms("1e"), "      -");
    assert_eq!(ProxyApiImpl::fmt_str_ms("1e+"), "      -");
    assert_eq!(ProxyApiImpl::fmt_str_ms("e5"), "      -");
    assert_eq!(ProxyApiImpl::fmt_str_ms("."), "      -");
    assert_eq!(ProxyApiImpl::fmt_str_ms("+"), "      -");
    assert_eq!(ProxyApiImpl::fmt_str_ms("inf"), "      -");
    assert_eq!(ProxyApiImpl::fmt_str_ms("nan"), "      -");
    assert_eq!(ProxyApiImpl::fmt_str_ms("1e99999999999999999999999999999999999999"), "      -");
    assert_eq!(ProxyApiImpl::fmt_str_ms("1e-99999999999999999999999999999999999999"), "      -");
    assert_eq!(ProxyApiImpl::fmt_str_ms("1e300"), ">10secs");
    assert_eq!(ProxyApiImpl::fmt_str_ms("1e-300"), "  <0.01");
    assert_eq!(ProxyApiImpl::fmt_str_ms("0e99999999999999999999999999999999999999"), "      -");
    assert_eq!(ProxyApiImpl::fmt_str_ms("0.000000000000000000000000000000000001e36"), "   1.00");
    assert_eq!(ProxyApiImpl::fmt_str_ms("123456789012345678901234567890e-28"), "  12.35");
}

#[test]
fn score_of_values() {
    assert_eq!(ProxyApiImpl::fmt_f64_score(b(0.0)), "      ");
    assert_eq!(ProxyApiImpl::fmt_f64_score(b(-0.0)), "      ");
    assert_eq!(ProxyApiImpl::fmt_f64_score(b(150.0)), "+100.0");
    assert_eq!(ProxyApiImpl::fmt_f64_score(b(-150.0)), "-100.0");
    assert_eq!(ProxyApiImpl::fmt_f64_score(b(-100.0)), "-100.0");
    assert_eq!(ProxyApiImpl::fmt_f64_score(b(f64::NAN)), "    -");
    assert_eq!(ProxyApiImpl::fmt_f64_score(b(f64::INFINITY)), "    -");
    assert_eq!(ProxyApiImpl::fmt_f64_score(b(f64::NEG_INFINITY)), "    -");
    assert_eq!(ProxyApiImpl::fmt_f64_score(b(0.05)), "  <0.1");
    assert_eq!(ProxyApiImpl::fmt_f64_score(b(-0.05)), "  -0.1");
    assert_eq!(ProxyApiImpl::fmt_f64_score(b(12.34)), " +12.3");
    assert_eq!(ProxyApiImpl::fmt_f64_score(b(-99.96)), "-100.0");
    assert_eq!(ProxyApiImpl::fmt_f64_score(b(-0.1)), "  -0.1");
    assert_eq!(ProxyApiImpl::fmt_f64_score(b(100.0)), "+100.0");
}

#[test]
fn score_of_text() {
    assert_eq!(ProxyApiImpl::fmt_str_score("0"), "      ");
    assert_eq!(ProxyApiImpl::fmt_str_score("-0.00"), "      ");
    assert_eq!(ProxyApiImpl::fmt_str_score("150"), "+100.0");
    assert_eq!(ProxyApiImpl::fmt_str_score("-150"), "-100.0");
    assert_eq!(ProxyApiImpl::fmt_str_score("99.5"), " +99.5");
    assert_eq!(ProxyApiImpl::fmt_str_score("-12.34"), " -12.3");
    assert_eq!(ProxyApiImpl::fmt_str_score("0.04"), "  <0.1");
    assert_eq!(ProxyApiImpl::fmt_str_score("-0.04"), "  -0.1");
    for text in ["inf", "-Infinity", "+INF", "NaN", "", "healthy", "infinit", "nano", " 1"] {
        assert_eq!(ProxyApiImpl::fmt_str_score(text), "    -", "{:?}", text);
    }
}

#[test]
fn text_is_read_into_binary64() {
    // The binary64 value nearest to 0.35 lies under it, the one nearest to
    // 0.45 above it, and 0.25 is held exactly.
    assert_eq!(ProxyApiImpl::fmt_str_score("0.25"), "  +0.2");
    assert_eq!(ProxyApiImpl::fmt_str_score("0.35"), "  +0.3");
    assert_eq!(ProxyApiImpl::fmt_str_score("0.45"), "  +0.5");
    assert_eq!(ProxyApiImpl::fmt_str_pct("33.45"), " 33.5");
    assert_eq!(ProxyApiImpl::fmt_str_ms("7.015"), "   7.01");
    for text in [
        "0.25", "0.35", "0.45", "33.35", "33.45", "33.450000000000000000000000000001",
        "100.0009999999999999999999999999", "0.0999999999999999999999999999999",
        "0.1000000000000000055511151231257827021181583404541015625",
        "0.10000000000000000555111512312578270211815834045410156249999",
        "0.09999999999999999167332731531132594682276248931884765625",
        "0.099999999999999991673327315311325946822762489318847656250000001",
        "1.7976931348623157e308", "1.7976931348623158e308", "1.7976931348623159e308",
        "179769313486231580793728971405303415079934132710037826936173778980444968292764750946649017977587207096330286416692887910946555547851940402630657488671505820681908902000708383676273854845817711531764475730270069855571366959622842914819860834936475292719074168444365510704342711559699508093042880177904174497791",
        "179769313486231580793728971405303415079934132710037826936173778980444968292764750946649017977587207096330286416692887910946555547851940402630657488671505820681908902000708383676273854845817711531764475730270069855571366959622842914819860834936475292719074168444365510704342711559699508093042880177904174497792",
        "2.2250738585072014e-308", "2.2250738585072011e-308", "2.225073858507201e-308",
        "4.9406564584124654e-324", "2.4703282292062327e-324", "2.4703282292062328e-324",
        "2.47032822920623272e-324", "1e-323", "1e-324", "1e-400", "1e400", "1e342", "1e341",
        "0e400", "0e-400", "0.0000001e-352", "1000000e-365", "1e-358", "1e-359", "1e-360",
        "123456789012345678901234567890e-28", "0.000000000000000000000000000000000001e36",
        "9007199254740993", "9007199254740992.5", "9007199254740993.0000000001",
        "1e99999999999999999999999999999999999999", "1e-99999999999999999999999999999999999999",
        "0e99999999999999999999999999999999999999", "-1e99999999999999999999999999999999999999",
    ] {
        assert_eq!(ProxyApiImpl::fmt_str_ms(text), text_ms(text), "{:?}", text);
        assert_eq!(ProxyApiImpl::fmt_str_pct(text), text_pct(text), "{:?}", text);
        assert_eq!(ProxyApiImpl::fmt_str_score(text), text_score(text), "{:?}", text);
        let negative = format!("-{}", text.trim_start_matches('-'));
        assert_eq!(ProxyApiImpl::fmt_str_score(&negative), text_score(&negative), "{:?}", text);
    }
}

#[test]
fn text_agrees_with_float_formatting() {
    let mut x: u64 = 0x2545F4914F6CDD1D;
    for round in 0..2000 {
        x ^= x << 13;
        x ^= x >> 7;
        x ^= x << 17;
        let hundredths = x % 2_000_000;
        let text = match round % 4 {
            0 => format!("{}.{:02}", hundredths / 100, hundredths % 100),
            1 => format!("{}.{:03}5", hundredths / 1000, hundredths % 1000),
            2 => format!("{}e-{}", x % 1_000_000_007, (x >> 40) % 12),
            _ => format!("{:?}", f64::from_bits(x)),
        };
        assert_eq!(ProxyApiImpl::fmt_str_ms(&text), text_ms(&text), "{}", text);
        assert_eq!(ProxyApiImpl::fmt_str_pct(&text), text_pct(&text), "{}", text);
        assert_eq!(ProxyApiImpl::fmt_str_score(&text), text_score(&text), "{}", text);
    }
}

#[test]
fn counts() {
    assert_eq!(ProxyApiImpl::fmt_u64(0), "        0");
    assert_eq!(ProxyApiImpl::fmt_u64(7), "        7");
    assert_eq!(ProxyApiImpl::fmt_u64(12345), "    12345");
    assert_eq!(ProxyApiImpl::fmt_u64(99999999), " 99999999");
    assert_eq!(ProxyApiImpl::fmt_u64(100000000), ">99999999");
    assert_eq!(ProxyApiImpl::fmt_u64(u64::MAX - 1), ">99999999");
    assert_eq!(ProxyApiImpl::fmt_u64(u64::MAX), "        -");
    assert_eq!(ProxyApiImpl::fmt_u32(0), "        0");
    assert_eq!(ProxyApiImpl::fmt_u32(4242), "     4242");
    assert_eq!(ProxyApiImpl::fmt_u32(100000000), ">99999999");
    assert_eq!(ProxyApiImpl::fmt_u32(u32::MAX - 1), ">99999999");
    assert_eq!(ProxyApiImpl::fmt_u32(u32::MAX), "        -");
}

#[test]
fn widths_are_fixed() {
    for x in samples() {
        for y in [x, -x] {
            assert_eq!(ProxyApiImpl::fmt_f64_pct(b(y)).chars().count(), 5);
            assert_eq!(ProxyApiImpl::fmt_f64_ms(b(y)).chars().count(), 7);
            let score = ProxyApiImpl::fmt_f64_score(b(y)).chars().count();
            assert_eq!(score, if y.is_finite() { 6 } else { 5 });
        }
    }
    for n in [0u64, 1, 9, 10, 99999999, 100000000, u64::MAX] {
        assert_eq!(ProxyApiImpl::fmt_u64(n).chars().count(), 9);
    }
}

#[test]
fn binary64_classes() {
    assert!(b(1.0).is_finite());
    assert!(b(-0.0).is_finite());
    assert!(!b(f64::NAN).is_finite());
    assert!(!b(f64::NEG_INFINITY).is_finite());
    assert!(b(5e-324).is_positive());
    assert!(b(1e300).is_positive());
    assert!(!b(0.0).is_positive());
    assert!(!b(-1.0).is_positive());
    assert!(!b(f64::INFINITY).is_positive());
    assert!(!b(f64::NAN).is_positive());
    assert_eq!(b(1.5).to_bits(), 1.5f64.to_bits());
}

#[test]
fn grammar_agrees_with_float_parsing() {
    let signs = ["", "+"];
    let ints = ["", "1", "12", "007"];
    let points = ["", "."];
    let fracs = ["", "5", "05", "250"];
    let exps = ["", "e", "e1", "E+1", "e-1", "e+", "E", "e1.5", "e 1", "E02", "ee1"];
    let wraps = [("", ""), (" ", ""), ("", " "), ("x", ""), ("", "x"), ("", "f"), ("--", "")];
    let mut count = 0;
    for sign in signs {
        for int in ints {
            for point in points {
                for frac in fracs {
                    for exp in exps {
                        for (before, after) in wraps {
                            let text =
                                format!("{}{}{}{}{}{}{}", before, sign, int, point, frac, exp, after);
                            let parsed: Result<f64, _> = text.parse();
                            let shown = ProxyApiImpl::fmt_str_ms(&text);
                            assert_eq!(parsed.is_ok(), shown != "      -", "{:?}", text);
                            count += 1;
                        }
                    }
                }
            }
        }
    }
    assert!(count > 4000);
    for word in ["inf", "INF", "Inf", "infinity", "INFINITY", "InFiNiTy", "nan", "NaN", "NAN"] {
        for sign in ["", "+", "-"] {
            let text = format!("{}{}", sign, word);
            let parsed: f64 = text.parse().unwrap();
            assert_eq!(ProxyApiImpl::fmt_str_score(&text), float_score(parsed), "{:?}", text);
        }
    }
    for text in ["in", "infinit", "infinityy", "na", "nana", "i nf", "+-inf", "ınf", "ſ", "1_0", "0x10"] {
        assert!(text.parse::<f64>().is_err());
        assert_eq!(ProxyApiImpl::fmt_str_ms(text), "      -", "{:?}", text);
        assert_eq!(ProxyApiImpl::fmt_str_score(text), "    -", "{:?}", text);
    }
}
