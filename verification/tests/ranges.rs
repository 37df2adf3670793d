use i18n_schema::error::Error;
use i18n_schema::key::KeyPath;
use i18n_schema::parsed_value::{LiteralValue, ParsedValue};
use i18n_schema::ranges::{dispatch_range, parse_range_arm, resolve_range, Bound};

fn lit(text: &str) -> ParsedValue {
    ParsedValue::Literal(LiteralValue::Str(text.to_string()))
}

#[test]
fn bound_expressions_parse_exactly() {
    assert_eq!(parse_range_arm("..5"), Some((Bound::Unbounded, Bound::Exclusive(5))));
    assert_eq!(parse_range_arm("..=5"), Some((Bound::Unbounded, Bound::Inclusive(5))));
    assert_eq!(parse_range_arm("3.."), Some((Bound::Inclusive(3), Bound::Unbounded)));
    assert_eq!(parse_range_arm("3..10"), Some((Bound::Inclusive(3), Bound::Exclusive(10))));
    assert_eq!(parse_range_arm("1..=5"), Some((Bound::Inclusive(1), Bound::Inclusive(5))));
    assert_eq!(parse_range_arm(".."), Some((Bound::Unbounded, Bound::Unbounded)));
    assert_eq!(parse_range_arm("-3..-1"), Some((Bound::Inclusive(-3), Bound::Exclusive(-1))));
    assert_eq!(parse_range_arm("five"), None);
    assert_eq!(parse_range_arm("1..x"), None);
    assert_eq!(parse_range_arm("x..1"), None);
    assert_eq!(parse_range_arm(""), None);
}

#[test]
fn overlapping_arms_resolve_and_dispatch_first_match() {
    // Both arms are legal; overlap is resolved by authored order.
    let arms: Vec<(String, ParsedValue)> = vec![
        ("..5".to_string(), lit("V1")),
        ("3..10".to_string(), lit("V2")),
    ];
    let path = KeyPath::new(None);
    let bounds = resolve_range("en", &path, &arms).unwrap();
    assert_eq!(bounds.len(), 2);
    // Input 4 matches both; the first arm governs.
    assert_eq!(dispatch_range(&bounds, 4), Some(0));
    assert_eq!(dispatch_range(&bounds, 7), Some(1));
    assert_eq!(dispatch_range(&bounds, 11), None);
}

#[test]
fn upper_bound_excluding_the_minimum_is_invalid() {
    let text = format!("..{}", i64::MIN);
    let arms: Vec<(String, ParsedValue)> = vec![(text.clone(), lit("V"))];
    let path = KeyPath::new(None);
    let err = resolve_range("en", &path, &arms).unwrap_err();
    match err {
        Error::InvalidBoundEnd { range, .. } => assert_eq!(range, text),
        _ => panic!("expected an invalid bound end"),
    }
}

#[test]
fn range_ending_before_it_starts_is_impossible() {
    let arms: Vec<(String, ParsedValue)> = vec![("5..=2".to_string(), lit("V"))];
    let path = KeyPath::new(None);
    let err = resolve_range("en", &path, &arms).unwrap_err();
    assert!(matches!(err, Error::ImpossibleRange { .. }));
    // An exclusive upper equal to the lower admits nothing either.
    let arms2: Vec<(String, ParsedValue)> = vec![("5..5".to_string(), lit("V"))];
    let err2 = resolve_range("en", &path, &arms2).unwrap_err();
    assert!(matches!(err2, Error::ImpossibleRange { .. }));
}

#[test]
fn malformed_bound_text_is_a_parse_error() {
    let arms: Vec<(String, ParsedValue)> = vec![("1..2..3".to_string(), lit("V"))];
    let path = KeyPath::new(None);
    let err = resolve_range("en", &path, &arms).unwrap_err();
    assert!(matches!(err, Error::ParseError { .. }));
}

#[test]
fn empty_arm_list_resolves_empty() {
    let arms: Vec<(String, ParsedValue)> = Vec::new();
    let path = KeyPath::new(None);
    let bounds = resolve_range("en", &path, &arms).unwrap();
    assert_eq!(bounds.len(), 0);
    assert_eq!(dispatch_range(&bounds, 0), None);
}
