use i18n_schema::error::{Error, Warnings};
use i18n_schema::key::{Key, KeyPath};
use i18n_schema::parse::parse_value;
use i18n_schema::parsed_value::ParsedValue;
use i18n_schema::pipeline::{load_locales, BuildersKeys, Locale, LocalesOrNamespaces};
use i18n_schema::plurals::{
    category_of, resolve_plural, select_arm, PluralCategory, PluralRuleKind, PluralRuleTable,
};
use i18n_schema::raw::RawValue;
use i18n_schema::render::render_value;

fn rs(text: &str) -> RawValue {
    RawValue::Str(text.to_string())
}

fn rb(b: bool) -> RawValue {
    RawValue::Bool(b)
}

fn table(entries: Vec<(&str, RawValue)>) -> RawValue {
    RawValue::Table(entries.into_iter().map(|(k, v)| (k.to_string(), v)).collect())
}

fn build_locale(name: &str, entries: Vec<(&str, RawValue)>) -> Locale {
    let mut tree: Vec<(Key, ParsedValue)> = Vec::new();
    let mut path = KeyPath::new(None);
    for (k, raw) in entries {
        let key = Key::try_new(k.to_string()).unwrap();
        let parsed = parse_value(name, &mut path, &raw).unwrap();
        tree.push((key, parsed));
    }
    Locale { name: Key::try_new(name.to_string()).unwrap(), tree }
}

fn en_entries() -> Vec<(&'static str, RawValue)> {
    vec![
        (
            "cardinal_plural",
            table(vec![("one", rs("one item")), ("other", rs("{count} items"))]),
        ),
        (
            "ordinal_plural",
            table(vec![
                ("ordinal", rb(true)),
                ("one", rs("{count}st place")),
                ("two", rs("{count}nd place")),
                ("few", rs("{count}rd place")),
                ("other", rs("{count}th place")),
            ]),
        ),
        (
            "args_to_plural",
            table(vec![("one", rs("en singular")), ("other", rs("en {count}"))]),
        ),
        (
            "plural_with_arg",
            table(vec![("one", rs("{arg} singular")), ("other", rs("{arg} {count}"))]),
        ),
        ("count_arg_to_plural", rs("$t(plural_with_arg, count = 1)")),
        ("foreign_key_to_two_plurals", rs("$t(cardinal_plural) $t(args_to_plural)")),
        (
            "renamed_plurals_count",
            rs("$t(cardinal_plural, count = {first_count}) $t(ordinal_plural, count = {second_count})"),
        ),
    ]
}

fn fr_entries() -> Vec<(&'static str, RawValue)> {
    vec![
        ("cardinal_plural", rs("{count}")),
        (
            "ordinal_plural",
            table(vec![
                ("ordinal", rb(true)),
                ("one", rs("{count}re place")),
                ("other", rs("{count}e place")),
            ]),
        ),
        (
            "args_to_plural",
            table(vec![("one", rs("fr singular")), ("other", rs("fr {count}"))]),
        ),
        (
            "plural_with_arg",
            table(vec![("one", rs("{arg} singular")), ("other", rs("{arg} {count}"))]),
        ),
        ("count_arg_to_plural", rs("$t(plural_with_arg, count = 2)")),
        ("foreign_key_to_two_plurals", rs("$t(cardinal_plural) $t(args_to_plural)")),
        (
            "renamed_plurals_count",
            rs("$t(cardinal_plural, count = {first_count}) $t(ordinal_plural, count = {second_count})"),
        ),
    ]
}

fn resolve_both() -> (BuildersKeys, PluralRuleTable) {
    let en = build_locale("en", en_entries());
    let fr = build_locale("fr", fr_entries());
    let input = LocalesOrNamespaces::Locales(vec![en, fr]);
    let default = Key::try_new("en".to_string()).unwrap();
    let rules = PluralRuleTable::builtin();
    let mut warnings = Warnings::new();
    let keys = load_locales(&input, &default, &rules, &mut warnings).unwrap();
    (keys, rules)
}

fn rendered(
    keys: &BuildersKeys,
    rules: &PluralRuleTable,
    locale: &str,
    key: &str,
    args: Vec<(&str, &str)>,
    counts: Vec<(&str, i64)>,
) -> String {
    let BuildersKeys::Locales(ks) = keys else {
        panic!("expected a flat key space");
    };
    let loc = ks
        .locales
        .iter()
        .find(|l| l.name.as_str() == locale)
        .expect("locale not found");
    let value = loc
        .tree
        .iter()
        .find(|(k, _)| k.as_str() == key)
        .map(|(_, v)| v)
        .expect("key not found");
    let args: Vec<(String, String)> =
        args.into_iter().map(|(a, b)| (a.to_string(), b.to_string())).collect();
    let counts: Vec<(String, i64)> =
        counts.into_iter().map(|(a, b)| (a.to_string(), b)).collect();
    render_value(value, &args, &counts, rules.rules_for(locale))
}

#[test]
fn cardinal_plural() {
    let (keys, rules) = resolve_both();
    // count = 0
    let en = rendered(&keys, &rules, "en", "cardinal_plural", vec![("count", "0")], vec![(
        "count",
        0,
    )]);
    assert_eq!(en, "<span>0</span><span> items</span>");
    let fr = rendered(&keys, &rules, "fr", "cardinal_plural", vec![("count", "0")], vec![(
        "count",
        0,
    )]);
    assert_eq!(fr, "0");

    // count = 1
    let en = rendered(&keys, &rules, "en", "cardinal_plural", vec![("count", "1")], vec![(
        "count",
        1,
    )]);
    assert_eq!(en, "one item");
    let fr = rendered(&keys, &rules, "fr", "cardinal_plural", vec![("count", "1")], vec![(
        "count",
        1,
    )]);
    assert_eq!(fr, "1");

    // count = 2..
    for i in [2i64, 5, 10, 1000] {
        let text = format!("{}", i);
        let en = rendered(&keys, &rules, "en", "cardinal_plural", vec![("count", &text)], vec![(
            "count",
            i,
        )]);
        assert_eq!(en, format!("<span>{}</span><span> items</span>", i));
        let fr = rendered(&keys, &rules, "fr", "cardinal_plural", vec![("count", &text)], vec![(
            "count",
            i,
        )]);
        assert_eq!(fr, text);
    }
}

#[test]
fn ordinal_plural() {
    let (keys, rules) = resolve_both();
    let expected = [
        (1i64, "<span>1</span><span>st place</span>", "<span>1</span><span>re place</span>"),
        (2, "<span>2</span><span>nd place</span>", "<span>2</span><span>e place</span>"),
        (3, "<span>3</span><span>rd place</span>", "<span>3</span><span>e place</span>"),
        (4, "<span>4</span><span>th place</span>", "<span>4</span><span>e place</span>"),
    ];
    for (i, en_want, fr_want) in expected {
        let text = format!("{}", i);
        let en = rendered(&keys, &rules, "en", "ordinal_plural", vec![("count", &text)], vec![(
            "count",
            i,
        )]);
        assert_eq!(en, en_want);
        let fr = rendered(&keys, &rules, "fr", "ordinal_plural", vec![("count", &text)], vec![(
            "count",
            i,
        )]);
        assert_eq!(fr, fr_want);
    }
}

#[test]
fn args_to_plural() {
    let (keys, rules) = resolve_both();
    let en = rendered(&keys, &rules, "en", "args_to_plural", vec![("count", "0")], vec![(
        "count",
        0,
    )]);
    assert_eq!(en, "<span>en </span><span>0</span>");
    let fr = rendered(&keys, &rules, "fr", "args_to_plural", vec![("count", "0")], vec![(
        "count",
        0,
    )]);
    assert_eq!(fr, "fr singular");
}

#[test]
fn count_arg_to_plural() {
    let (keys, rules) = resolve_both();
    let en = rendered(&keys, &rules, "en", "count_arg_to_plural", vec![("arg", "en")], vec![]);
    assert_eq!(en, "<span>en</span><span> singular</span>");
    let fr = rendered(&keys, &rules, "fr", "count_arg_to_plural", vec![("arg", "fr")], vec![]);
    assert_eq!(fr, "<span>fr</span><span> 2</span>");
}

#[test]
fn foreign_key_to_two_plurals() {
    let (keys, rules) = resolve_both();
    let en = rendered(
        &keys,
        &rules,
        "en",
        "foreign_key_to_two_plurals",
        vec![("count", "0")],
        vec![("count", 0)],
    );
    assert_eq!(
        en,
        "<span><span>0</span><span> items</span></span><span> </span><span><span>en </span><span>0</span></span>"
    );
    let fr = rendered(
        &keys,
        &rules,
        "fr",
        "foreign_key_to_two_plurals",
        vec![("count", "0")],
        vec![("count", 0)],
    );
    assert_eq!(fr, "<span>0</span><span> </span><span>fr singular</span>");

    let en = rendered(
        &keys,
        &rules,
        "en",
        "foreign_key_to_two_plurals",
        vec![("count", "1")],
        vec![("count", 1)],
    );
    assert_eq!(en, "<span>one item</span><span> </span><span>en singular</span>");
    let fr = rendered(
        &keys,
        &rules,
        "fr",
        "foreign_key_to_two_plurals",
        vec![("count", "1")],
        vec![("count", 1)],
    );
    assert_eq!(fr, "<span>1</span><span> </span><span>fr singular</span>");
}

#[test]
fn renamed_plurals_count() {
    let (keys, rules) = resolve_both();
    let en = rendered(
        &keys,
        &rules,
        "en",
        "renamed_plurals_count",
        vec![("first_count", "0"), ("second_count", "1")],
        vec![("first_count", 0), ("second_count", 1)],
    );
    assert_eq!(
        en,
        "<span><span>0</span><span> items</span></span><span> </span><span><span>1</span><span>st place</span></span>"
    );
    let fr = rendered(
        &keys,
        &rules,
        "fr",
        "renamed_plurals_count",
        vec![("first_count", "0"), ("second_count", "1")],
        vec![("first_count", 0), ("second_count", 1)],
    );
    assert_eq!(
        fr,
        "<span>0</span><span> </span><span><span>1</span><span>re place</span></span>"
    );
}

#[test]
fn plural_arm_illegal_for_rule_fails() {
    // An English-style cardinal rule produces only `one` and `other`; an
    // authored `few` arm is an invalid category.
    let en = build_locale(
        "en",
        vec![(
            "items",
            table(vec![("one", rs("one")), ("few", rs("few")), ("other", rs("{count}"))]),
        )],
    );
    let input = LocalesOrNamespaces::Locales(vec![en]);
    let default = Key::try_new("en".to_string()).unwrap();
    let rules = PluralRuleTable::builtin();
    let mut warnings = Warnings::new();
    let err = load_locales(&input, &default, &rules, &mut warnings).unwrap_err();
    match err {
        Error::InvalidPluralCategory { locale, category, .. } => {
            assert_eq!(locale.as_str(), "en");
            assert_eq!(category.as_str(), "few");
        },
        _ => panic!("expected an invalid plural category"),
    }
}

#[test]
fn plural_without_other_arm_fails() {
    let en = build_locale(
        "en",
        vec![("items", table(vec![("one", rs("one item")), ("count", rs("count"))]))],
    );
    let input = LocalesOrNamespaces::Locales(vec![en]);
    let default = Key::try_new("en".to_string()).unwrap();
    let rules = PluralRuleTable::builtin();
    let mut warnings = Warnings::new();
    let err = load_locales(&input, &default, &rules, &mut warnings).unwrap_err();
    assert!(matches!(err, Error::MissingOtherArm { .. }));
}

#[test]
fn duplicate_plural_arm_is_shadowed_with_a_warning() {
    let mut warnings = Warnings::new();
    let path = KeyPath::new(None);
    let arms: Vec<(String, ParsedValue)> = vec![
        ("one".to_string(), ParsedValue::Interpolation(Vec::new())),
        ("other".to_string(), ParsedValue::Interpolation(Vec::new())),
        ("one".to_string(), ParsedValue::Interpolation(Vec::new())),
    ];
    let t = resolve_plural(
        "en",
        &path,
        PluralRuleKind::CardinalOneOther,
        &arms,
        &mut warnings,
    )
    .unwrap();
    assert_eq!(t.len(), 2);
    assert_eq!(warnings.len(), 1);
}

#[test]
fn rule_evaluation_matches_the_tables() {
    assert_eq!(category_of(PluralRuleKind::CardinalOneOther, 1), PluralCategory::One);
    assert_eq!(category_of(PluralRuleKind::CardinalOneOther, 0), PluralCategory::Other);
    assert_eq!(category_of(PluralRuleKind::CardinalFrench, 0), PluralCategory::One);
    assert_eq!(category_of(PluralRuleKind::CardinalFrench, 1), PluralCategory::One);
    assert_eq!(category_of(PluralRuleKind::CardinalFrench, 2), PluralCategory::Other);
    assert_eq!(
        category_of(PluralRuleKind::CardinalFrench, 2_000_000),
        PluralCategory::Many
    );
    assert_eq!(category_of(PluralRuleKind::OrdinalEnglish, 11), PluralCategory::Other);
    assert_eq!(category_of(PluralRuleKind::OrdinalEnglish, 21), PluralCategory::One);
    assert_eq!(category_of(PluralRuleKind::OrdinalEnglish, 22), PluralCategory::Two);
    assert_eq!(category_of(PluralRuleKind::OrdinalEnglish, 23), PluralCategory::Few);
    assert_eq!(category_of(PluralRuleKind::OrdinalOneOther, 1), PluralCategory::One);
    assert_eq!(category_of(PluralRuleKind::OtherOnly, 1), PluralCategory::Other);
}

#[test]
fn selection_prefers_the_authored_arm_and_falls_back_to_other() {
    let mut warnings = Warnings::new();
    let path = KeyPath::new(None);
    let arms: Vec<(String, ParsedValue)> = vec![
        ("one".to_string(), ParsedValue::Interpolation(Vec::new())),
        ("two".to_string(), ParsedValue::Interpolation(Vec::new())),
        ("other".to_string(), ParsedValue::Interpolation(Vec::new())),
    ];
    let table = resolve_plural(
        "en",
        &path,
        PluralRuleKind::OrdinalEnglish,
        &arms,
        &mut warnings,
    )
    .unwrap();
    assert_eq!(select_arm(&table, PluralCategory::Two), Some(1));
    // `few` has no authored arm: the `other` arm stands in.
    assert_eq!(select_arm(&table, PluralCategory::Few), Some(2));
    assert_eq!(warnings.len(), 0);
}
