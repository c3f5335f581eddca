use csvprof::text::{contains_char, is_float, parse_int, trim};

#[test]
fn trim_removes_ascii_and_unicode_whitespace() {
    assert_eq!(trim("  a b \t\n"), "a b");
    assert_eq!(trim("\u{3000}x\u{a0}"), "x");
    assert_eq!(trim("   "), "");
    assert_eq!(trim(""), "");
    assert_eq!(trim("no-space"), "no-space");
}

#[test]
fn trim_agrees_with_std() {
    for s in ["", " ", " x ", "\u{2028}y\u{205f}", "\u{1680}\u{1680}", "a\u{200b}", "\u{85}z\u{85}"] {
        assert_eq!(trim(s), s.trim(), "input {:?}", s);
    }
}

#[test]
fn parse_int_values() {
    assert_eq!(parse_int("42"), Some(42));
    assert_eq!(parse_int("+7"), Some(7));
    assert_eq!(parse_int("-0"), Some(0));
    assert_eq!(parse_int("007"), Some(7));
    assert_eq!(parse_int("9223372036854775807"), Some(i64::MAX));
    assert_eq!(parse_int("-9223372036854775808"), Some(i64::MIN));
    assert_eq!(parse_int("9223372036854775808"), None);
    assert_eq!(parse_int("-9223372036854775809"), None);
    assert_eq!(parse_int(""), None);
    assert_eq!(parse_int("+"), None);
    assert_eq!(parse_int("-"), None);
    assert_eq!(parse_int("1.0"), None);
    assert_eq!(parse_int(" 1"), None);
    assert_eq!(parse_int("+-1"), None);
}

#[test]
fn parse_int_agrees_with_std() {
    for s in ["0", "12", "-12", "+12", "1a", "a1", "99999999999999999999", "00000000000000000000001", "--1", "１"] {
        assert_eq!(parse_int(s), s.parse::<i64>().ok(), "input {:?}", s);
    }
}

#[test]
fn is_float_grammar() {
    for s in ["1", "1.", ".5", "1.5", "1e5", "1E-5", "+.5e+3", "inf", "-Infinity", "NaN", "INF", "1e400"] {
        assert!(is_float(s), "should accept {:?}", s);
    }
    for s in ["", ".", "e5", "1e", "1e+", "abc", "1.2.3", "infin", "+", "- 1", "1_000", "0x10", ".e1"] {
        assert!(!is_float(s), "should reject {:?}", s);
    }
}

#[test]
fn is_float_agrees_with_std() {
    for s in [
        "3.14", "-2", "nan", "inFinity", "1e-3", "5.", "..", "1,5", "12abc", "+", "e", "E7", "7E", "-.e", "0.0e0",
        "+infinity", "-NaN", "5.e3", ".5E+5", "1e0000000000000000000000000001", "infinityx", "in", "1e5.", "1.5e-",
    ] {
        assert_eq!(is_float(s), s.parse::<f64>().is_ok(), "input {:?}", s);
    }
}

#[test]
fn contains_char_finds_characters() {
    assert!(contains_char("2024-01-02", '-'));
    assert!(!contains_char("20240102", '/'));
    assert!(contains_char("a/b", '/'));
    assert!(!contains_char("", '-'));
}

#[test]
fn trimming_twice_is_trimming_once() {
    for s in ["  a  ", "\u{3000} b\t", "", "   ", "x"] {
        assert_eq!(trim(trim(s)), trim(s));
    }
}
