use rusty_dumb_tools::text::{parse_bool_text, parse_i64_text};
use rusty_dumb_tools::text::f64_text;

#[test]
fn test_f64_text_agrees_with_std() {
    let cases = [
        "1.", ".5", "+1.5", "-1.5", "inf", "-inf", "+infinity", "Infinity", "INF", "NaN", "nan", "-nan", "1e5",
        "1E-5", "1e+5", "1.5e3", ".5e-2", "5.e3", "e5", ".", "+", "-", "", "1e", "1e+", "1.2.3", "1_000", " 1", "1 ",
        "0x10", "infinit", "infinityx", "++1", "00012", "1e400", "1.5E", "-.5", "+.", "nana",
    ];
    for case in cases {
        let cs: Vec<char> = case.chars().collect();
        assert_eq!(f64_text(&cs), case.parse::<f64>().is_ok(), "{:?}", case);
    }
}

#[test]
fn test_parse_i64_and_bool_text() {
    let cs = |s: &str| s.chars().collect::<Vec<char>>();
    assert_eq!(parse_i64_text(&cs("123")), Some(123));
    assert_eq!(parse_i64_text(&cs("-9223372036854775808")), Some(i64::MIN));
    assert_eq!(parse_i64_text(&cs("+9223372036854775807")), Some(i64::MAX));
    assert_eq!(parse_i64_text(&cs("9223372036854775808")), None);
    assert_eq!(parse_i64_text(&cs("-9223372036854775809")), None);
    assert_eq!(parse_i64_text(&cs("12a")), None);
    assert_eq!(parse_i64_text(&cs("-")), None);
    assert_eq!(parse_i64_text(&cs("")), None);
    assert_eq!(parse_bool_text(&cs("true")), Some(true));
    assert_eq!(parse_bool_text(&cs("false")), Some(false));
    assert_eq!(parse_bool_text(&cs("True")), None);
    assert_eq!(parse_bool_text(&cs("tru")), None);
}
