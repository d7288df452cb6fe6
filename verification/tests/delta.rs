use std::str::FromStr;
use wm::delta::{split_delta, trim, CharSeq, Delta, ParseError, ParseValue};

/// An opacity between 0 and 1, written as a fraction or as a percentage.
struct OpacityValue(f32);

impl ParseValue for OpacityValue {
    // Describes `parse_value` for contracts only; it has no meaning when
    // running and is never called.
    fn spec_parse(_raw: CharSeq) -> Result<Self, ParseError> {
        unreachable!("spec_parse describes parse_value and is never run")
    }

    fn parse_value(raw: &str) -> Result<Self, ParseError> {
        let raw = raw.trim();
        match raw.strip_suffix('%') {
            Some(percent) => percent
                .parse::<f32>()
                .map(|p| OpacityValue(p / 100.0))
                .map_err(|_| ParseError::Value(raw.to_string())),
            None => raw
                .parse::<f32>()
                .map(OpacityValue)
                .map_err(|_| ParseError::Value(raw.to_string())),
        }
    }
}

#[test]
fn delta_parses_positive_number() {
    let result = Delta::<OpacityValue>::from_str("+0.5").unwrap();
    assert!((result.inner.0 - 0.5).abs() < 0.001);
    assert!(!result.is_negative);
}

#[test]
fn delta_parses_negative_number() {
    let result = Delta::<OpacityValue>::from_str("-0.25").unwrap();
    assert!((result.inner.0 - 0.25).abs() < 0.001);
    assert!(result.is_negative);
}

#[test]
fn delta_parses_unsigned_number() {
    let result = Delta::<OpacityValue>::from_str("0.75").unwrap();
    assert!((result.inner.0 - 0.75).abs() < 0.001);
    assert!(!result.is_negative);
}

#[test]
fn delta_parses_with_whitespace() {
    let result = Delta::<OpacityValue>::from_str("  +0.25  ").unwrap();
    assert!((result.inner.0 - 0.25).abs() < 0.001);
    assert!(!result.is_negative);
}

#[test]
fn delta_fails_on_empty_string() {
    let result = Delta::<OpacityValue>::from_str("");
    assert!(result.is_err());
}

#[test]
fn delta_fails_on_sign_only() {
    let result = Delta::<OpacityValue>::from_str("-");
    assert!(result.is_err());
}

#[test]
fn delta_parses_percentage_value() {
    let result = Delta::<OpacityValue>::from_str("+50%").unwrap();
    assert!((result.inner.0 - 0.5).abs() < 0.001);
    assert!(!result.is_negative);
}

#[test]
fn delta_parses_negative_percentage() {
    let result = Delta::<OpacityValue>::from_str("-25%").unwrap();
    assert!((result.inner.0 - 0.25).abs() < 0.001);
    assert!(result.is_negative);
}

#[test]
fn delta_sign_only_error_holds_trimmed_input() {
    match Delta::<OpacityValue>::parse("  +  ") {
        Err(ParseError::Delta(msg)) => assert_eq!(msg, "+"),
        _ => panic!("expected a delta error"),
    }
}

#[test]
fn delta_bad_magnitude_is_a_value_error() {
    match Delta::<OpacityValue>::parse("-abc") {
        Err(ParseError::Value(msg)) => assert_eq!(msg, "abc"),
        _ => panic!("expected a value error"),
    }
}

#[test]
fn split_delta_separates_sign_and_magnitude() {
    match split_delta(" -12px ") {
        Ok((raw, negative)) => {
            assert_eq!(raw, "12px");
            assert!(negative);
        }
        Err(_) => panic!("expected a split"),
    }
    match split_delta("+3") {
        Ok((raw, negative)) => {
            assert_eq!(raw, "3");
            assert!(!negative);
        }
        Err(_) => panic!("expected a split"),
    }
}

#[test]
fn trim_removes_unicode_whitespace() {
    assert_eq!(trim("\u{3000} a b \t\n"), "a b");
    assert_eq!(trim("   "), "");
    assert_eq!(trim("x"), "x");
}

#[test]
fn from_parsed_keeps_value_and_sign_or_error() {
    assert_eq!(
        Delta::<u8>::from_parsed(Ok(3), true),
        Ok(Delta { inner: 3, is_negative: true })
    );
    assert_eq!(
        Delta::<u8>::from_parsed(Err(ParseError::Value("x".to_string())), false),
        Err(ParseError::Value("x".to_string()))
    );
}
