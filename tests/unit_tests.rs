use edfplus::{is_integer_number, parse_edf_time, version};

#[test]
fn test_version() {
    assert!(!version().is_empty());
}

#[test]
fn test_is_integer_number() {
    assert!(is_integer_number("123"));
    assert!(is_integer_number("-456"));
    assert!(is_integer_number("+789"));
    assert!(is_integer_number("0"));
    assert!(!is_integer_number("12.34"));
    assert!(!is_integer_number("abc"));
    assert!(!is_integer_number(""));
}

#[test]
fn test_parse_edf_time() {
    assert_eq!(parse_edf_time("1").unwrap(), 10_000_000);
    assert_eq!(parse_edf_time("1.5").unwrap(), 15_000_000);
    assert_eq!(parse_edf_time("-2.5").unwrap(), -25_000_000);
    assert_eq!(parse_edf_time("+0.0000001").unwrap(), 1);
}
