use vmcli::numtext::{is_float_chars, trunc_float_chars, i64_to_dec_chars, u64_to_dec_chars};
use vmcli::strutil::{str_to_chars, chars_to_string};

fn accepts(s: &str) -> bool {
    is_float_chars(&str_to_chars(s))
}

fn trunc(s: &str) -> i64 {
    assert!(accepts(s), "token {:?} should be numeric", s);
    trunc_float_chars(&str_to_chars(s))
}

#[test]
fn float_grammar_agrees_with_std_parsing() {
    let tokens = [
        "0", "1", "-1", "+5", "3.5", "1.", ".5", ".", "", "1e3", "1E3", "1e+3", "1e-3", "1.5e2",
        ".5e1", "1.e5", "e5", "1e", "1e+", "inf", "INF", "-inf", "+infinity", "Infinity", "nan",
        "NaN", "-NAN", "in", "nanx", "infinit", "1.2.3", "--1", "1-", " 1", "1 ", "0x10", "1_000",
        "12345678901234567890", "1e999", "-1e999", "0.000001", "+.5", "-.", "+.", "1..2", "1.5e",
    ];
    for token in tokens {
        assert_eq!(
            accepts(token),
            token.parse::<f64>().is_ok(),
            "grammar and std disagree on {:?}",
            token
        );
    }
}

#[test]
fn truncation_agrees_with_float_casts() {
    // tokens whose decimal value is represented exactly enough that the
    // float path truncates to the same integer
    let tokens = [
        "0", "1", "-1", "3.99", "-3.99", "1700000000.75", "1.5e3", "-1.5e3", "12345.6789",
        "1e18", "-1e18", "2.5e-1", "1e-20", "123.456e2", "9007199254740991",
    ];
    for token in tokens {
        let via_float = token.parse::<f64>().unwrap() as i64;
        assert_eq!(trunc(token), via_float, "truncation disagrees on {:?}", token);
    }
}

#[test]
fn truncation_saturates_and_absorbs() {
    assert_eq!(trunc("inf"), i64::MAX);
    assert_eq!(trunc("-infinity"), i64::MIN);
    assert_eq!(trunc("nan"), 0);
    assert_eq!(trunc("1e300"), i64::MAX);
    assert_eq!(trunc("-1e300"), i64::MIN);
    assert_eq!(trunc("1e-300"), 0);
    assert_eq!(trunc("0.0e999999999999999999999999"), 0);
    assert_eq!(trunc("1e999999999999999999999999"), i64::MAX);
    assert_eq!(trunc("-1e999999999999999999999999"), i64::MIN);
}

#[test]
fn truncation_is_exact_on_long_decimals() {
    // the text is truncated exactly, digit by digit
    assert_eq!(trunc("00123.999"), 123);
    assert_eq!(trunc("-0.5"), 0);
    assert_eq!(trunc("9223372036854775807"), i64::MAX);
    assert_eq!(trunc("9223372036854775808"), i64::MAX);
    assert_eq!(trunc("-9223372036854775808"), i64::MIN);
    assert_eq!(trunc("-9223372036854775809"), i64::MIN);
}

#[test]
fn decimal_rendering_round_trips() {
    for value in [0i64, 1, -1, 42, -42, 1700000000, i64::MAX, i64::MIN] {
        let chars = i64_to_dec_chars(value);
        assert_eq!(chars_to_string(&chars), value.to_string());
    }
    for value in [0u64, 9, 10, 1000, u64::MAX] {
        let chars = u64_to_dec_chars(value);
        assert_eq!(chars_to_string(&chars), value.to_string());
    }
}
