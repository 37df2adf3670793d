use i18n_schema::cfg_file::extract_section;
use i18n_schema::error::{Error, Warnings};
use i18n_schema::key::{Key, KeyPath};
use i18n_schema::parse::parse_value;
use i18n_schema::parsed_value::ParsedValue;
use i18n_schema::pipeline::{load_locales, Locale, LocalesOrNamespaces};
use i18n_schema::plurals::PluralRuleTable;
use i18n_schema::raw::RawValue;
use i18n_schema::render::collect_into_spans;
use i18n_schema::plurals::{PluralRuleKind, PluralRules};

#[test]
fn collect_into_spans_wraps_every_piece() {
    let pieces = vec!["a".to_string(), "".to_string(), "b & c".to_string()];
    assert_eq!(
        collect_into_spans(pieces),
        "<span>a</span><span></span><span>b & c</span>"
    );
    assert_eq!(collect_into_spans(Vec::new()), "");
}

#[test]
fn extract_section_keeps_line_numbers_and_drops_the_rest() {
    let manifest = "top = 1\nmore = 2\n[the.section]\nkey = \"v\"\n";
    let out = extract_section(manifest, "[the.section]").unwrap();
    assert_eq!(out, "\n\n\nkey = \"v\"\n");
    assert!(extract_section(manifest, "[absent.section]").is_none());
    // The first occurrence governs.
    let twice = "a[m]b[m]c";
    assert_eq!(extract_section(twice, "[m]").unwrap(), "b[m]c");
}

#[test]
fn missing_default_locale_is_reported() {
    let mut path = KeyPath::new(None);
    let raw = RawValue::Str("Hello".to_string());
    let tree = vec![(
        Key::try_new("hello".to_string()).unwrap(),
        parse_value("en", &mut path, &raw).unwrap(),
    )];
    let en = Locale { name: Key::try_new("en".to_string()).unwrap(), tree };
    let input = LocalesOrNamespaces::Locales(vec![en]);
    let default = Key::try_new("es".to_string()).unwrap();
    let rules = PluralRuleTable::builtin();
    let mut warnings = Warnings::new();
    let err = load_locales(&input, &default, &rules, &mut warnings).unwrap_err();
    match err {
        Error::ConfigFileDefaultMissing(name) => assert_eq!(name, "es"),
        _ => panic!("expected a missing default locale"),
    }
}

#[test]
fn rule_table_lookup_prefers_the_first_entry_and_has_a_default() {
    let mut t = PluralRuleTable::new();
    t.insert(
        "xx".to_string(),
        PluralRules { cardinal: PluralRuleKind::OtherOnly, ordinal: PluralRuleKind::OtherOnly },
    );
    t.insert(
        "xx".to_string(),
        PluralRules {
            cardinal: PluralRuleKind::CardinalFrench,
            ordinal: PluralRuleKind::OtherOnly,
        },
    );
    let r = t.rules_for("xx");
    assert_eq!(r.cardinal, PluralRuleKind::OtherOnly);
    // A locale the table does not name gets English-style cardinals.
    let d = t.rules_for("yy");
    assert_eq!(d.cardinal, PluralRuleKind::CardinalOneOther);
    assert_eq!(d.ordinal, PluralRuleKind::OtherOnly);
}
