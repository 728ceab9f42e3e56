use listlang::lexer::check_numeric;
use listlang::lexer::check_pointer;
use listlang::lexer::check_string;
use listlang::lexer::parse_i64;

#[test]
fn numeric_accepts_plain_digits() {
    assert!(check_numeric("0"));
    assert!(check_numeric("3"));
    assert!(check_numeric("30"));
    assert!(check_numeric("007"));
}

#[test]
fn numeric_accepts_negative() {
    assert!(check_numeric("-5"));
    assert!(check_numeric("-0"));
}

#[test]
fn numeric_rejects_empty_and_bare_minus() {
    assert!(!check_numeric(""));
    assert!(!check_numeric("-"));
}

#[test]
fn numeric_rejects_plus_and_letters() {
    assert!(!check_numeric("+5"));
    assert!(!check_numeric("5a"));
    assert!(!check_numeric("a5"));
    assert!(!check_numeric("5 "));
    assert!(!check_numeric("--5"));
}

#[test]
fn numeric_respects_signed_64_bit_range() {
    assert!(check_numeric("9223372036854775807"));
    assert!(!check_numeric("9223372036854775808"));
    assert!(check_numeric("-9223372036854775808"));
    assert!(!check_numeric("-9223372036854775809"));
    assert!(!check_numeric("99999999999999999999999"));
    assert!(check_numeric("000000000000000000000009"));
}

#[test]
fn parse_i64_values() {
    assert_eq!(parse_i64("0"), Some(0));
    assert_eq!(parse_i64("-5"), Some(-5));
    assert_eq!(parse_i64("007"), Some(7));
    assert_eq!(parse_i64("9223372036854775807"), Some(i64::MAX));
    assert_eq!(parse_i64("-9223372036854775808"), Some(i64::MIN));
    assert_eq!(parse_i64("9223372036854775808"), None);
    assert_eq!(parse_i64("x"), None);
}

#[test]
fn string_accepts_identifiers() {
    assert!(check_string("a"));
    assert!(check_string("Apple"));
    assert!(check_string("abc123"));
    assert!(check_string("Z9z"));
}

#[test]
fn string_rejects_bad_shapes() {
    assert!(!check_string(""));
    assert!(!check_string("1abc"));
    assert!(!check_string("a_b"));
    assert!(!check_string("a b"));
    assert!(!check_string("@a"));
    assert!(!check_string("-a"));
}

#[test]
fn pointer_accepts_at_identifier() {
    assert!(check_pointer("@a"));
    assert!(check_pointer("@abc123"));
}

#[test]
fn pointer_rejects_bad_shapes() {
    assert!(!check_pointer("@"));
    assert!(!check_pointer("a"));
    assert!(!check_pointer("@1a"));
    assert!(!check_pointer("@@a"));
    assert!(!check_pointer(""));
}

#[test]
fn classes_are_mutually_exclusive_on_samples() {
    for tok in ["a", "abc123", "5", "-5", "@a", "@abc123", "007"] {
        let n = check_numeric(tok) as u32;
        let s = check_string(tok) as u32;
        let p = check_pointer(tok) as u32;
        assert_eq!(n + s + p, 1, "token {tok} should be in exactly one class");
    }
}
