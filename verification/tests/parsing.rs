use i18n_schema::error::{Error, Warnings};
use i18n_schema::key::{Key, KeyPath};
use i18n_schema::parse::{parse_string, parse_value};
use i18n_schema::parsed_value::{LiteralValue, ParsedValue, Segment};
use i18n_schema::pipeline::{load_locales, BuildersKeys, Locale, LocalesOrNamespaces};
use i18n_schema::plurals::PluralRuleTable;
use i18n_schema::raw::RawValue;
use i18n_schema::text::parse_i64_str;

fn root() -> KeyPath {
    KeyPath::new(None)
}

#[test]
fn plain_text_parses_to_an_identical_literal() {
    let path = root();
    for text in ["", "hello", "émile & co — 100%", "a } b", "$tx", "$", "a.b.c"] {
        match parse_string("en", &path, text).unwrap() {
            ParsedValue::Literal(LiteralValue::Str(t)) => assert_eq!(t, text),
            _ => panic!("expected a literal"),
        }
    }
}

#[test]
fn resolving_a_plain_tree_keeps_every_literal_byte_identical() {
    // Round-trip: no references, no plurals, no ranges — resolution and
    // merging leave each literal exactly as written.
    let texts = ["first value", "deuxième — être & çà", ""];
    let mut tree: Vec<(Key, ParsedValue)> = Vec::new();
    let mut path = root();
    for (i, t) in texts.iter().enumerate() {
        let key = Key::try_new(format!("key_{}", i)).unwrap();
        let parsed = parse_value("en", &mut path, &RawValue::Str(t.to_string())).unwrap();
        tree.push((key, parsed));
    }
    let en = Locale { name: Key::try_new("en".to_string()).unwrap(), tree };
    let input = LocalesOrNamespaces::Locales(vec![en]);
    let default = Key::try_new("en".to_string()).unwrap();
    let rules = PluralRuleTable::builtin();
    let mut warnings = Warnings::new();
    let keys = load_locales(&input, &default, &rules, &mut warnings).unwrap();
    let BuildersKeys::Locales(ks) = keys else {
        panic!("expected a flat key space");
    };
    for (i, t) in texts.iter().enumerate() {
        match &ks.locales[0].tree[i].1 {
            ParsedValue::Literal(LiteralValue::Str(got)) => assert_eq!(got, t),
            _ => panic!("expected a literal"),
        }
    }
    assert_eq!(warnings.len(), 0);
}

#[test]
fn interpolation_splits_into_segments() {
    let path = root();
    match parse_string("en", &path, "Hi {name}, bye {name}").unwrap() {
        ParsedValue::Interpolation(segs) => {
            assert_eq!(segs.len(), 4);
            assert!(matches!(&segs[0], Segment::Lit(t) if t == "Hi "));
            assert!(matches!(&segs[1], Segment::Var(v) if v == "name"));
            assert!(matches!(&segs[2], Segment::Lit(t) if t == ", bye "));
            assert!(matches!(&segs[3], Segment::Var(v) if v == "name"));
        },
        _ => panic!("expected an interpolation"),
    }
}

#[test]
fn lone_variable_is_a_single_segment() {
    let path = root();
    match parse_string("en", &path, "{count}").unwrap() {
        ParsedValue::Interpolation(segs) => {
            assert_eq!(segs.len(), 1);
            assert!(matches!(&segs[0], Segment::Var(v) if v == "count"));
        },
        _ => panic!("expected an interpolation"),
    }
}

#[test]
fn unterminated_brace_is_a_parse_error() {
    let path = root();
    assert!(matches!(
        parse_string("en", &path, "oops {name"),
        Err(Error::ParseError { .. })
    ));
    assert!(matches!(
        parse_string("en", &path, "bad {1x}"),
        Err(Error::ParseError { .. })
    ));
    assert!(matches!(
        parse_string("en", &path, "empty {}"),
        Err(Error::ParseError { .. })
    ));
}

#[test]
fn foreign_key_reference_parses_with_overrides() {
    let path = root();
    match parse_string("en", &path, "$t(ns:a.b, count = 45, who = {name})").unwrap() {
        ParsedValue::ForeignKey { path: target, overrides } => {
            assert_eq!(target.depth(), 2);
            assert_eq!(target.key_at(0).as_str(), "a");
            assert_eq!(target.key_at(1).as_str(), "b");
            assert_eq!(overrides.len(), 2);
            assert_eq!(overrides[0].0, "count");
            assert!(matches!(
                &overrides[0].1,
                ParsedValue::Literal(LiteralValue::Str(t)) if t == "45"
            ));
            assert_eq!(overrides[1].0, "who");
        },
        _ => panic!("expected a foreign key"),
    }
}

#[test]
fn unterminated_reference_is_a_parse_error() {
    let path = root();
    assert!(matches!(
        parse_string("en", &path, "$t(key"),
        Err(Error::ParseError { .. })
    ));
    assert!(matches!(
        parse_string("en", &path, "$t(key, x = )junk"),
        Ok(_)
    ));
    assert!(matches!(
        parse_string("en", &path, "$t(key, = 3)"),
        Err(Error::ParseError { .. })
    ));
}

#[test]
fn invalid_map_key_is_rejected_with_the_raw_string() {
    let mut path = root();
    let raw = RawValue::Table(vec![("1bad".to_string(), RawValue::Str("x".to_string()))]);
    match parse_value("en", &mut path, &raw).unwrap_err() {
        Error::InvalidLocaleKey { key, .. } => assert_eq!(key.as_str(), "1bad"),
        _ => panic!("expected an invalid key"),
    }
}

#[test]
fn numbers_and_booleans_become_literals() {
    let mut path = root();
    let raw = RawValue::Num(42, "42".to_string());
    assert!(matches!(
        parse_value("en", &mut path, &raw).unwrap(),
        ParsedValue::Literal(LiteralValue::Num(42, _))
    ));
    let raw = RawValue::Bool(true);
    assert!(matches!(
        parse_value("en", &mut path, &raw).unwrap(),
        ParsedValue::Literal(LiteralValue::Bool(true))
    ));
}

#[test]
fn decimal_text_parses_exactly_as_i64() {
    assert_eq!(parse_i64_str("0"), Some(0));
    assert_eq!(parse_i64_str("-0"), Some(0));
    assert_eq!(parse_i64_str("00042"), Some(42));
    assert_eq!(parse_i64_str("9223372036854775807"), Some(i64::MAX));
    assert_eq!(parse_i64_str("-9223372036854775808"), Some(i64::MIN));
    assert_eq!(parse_i64_str("9223372036854775808"), None);
    assert_eq!(parse_i64_str("-9223372036854775809"), None);
    assert_eq!(parse_i64_str("000000000000000000000000007"), Some(7));
    assert_eq!(parse_i64_str(""), None);
    assert_eq!(parse_i64_str("-"), None);
    assert_eq!(parse_i64_str("12a"), None);
    assert_eq!(parse_i64_str("99999999999999999999999999"), None);
}
