use i18n_schema::error::Warnings;
use i18n_schema::key::{Key, KeyPath};
use i18n_schema::parse::parse_value;
use i18n_schema::parsed_value::ParsedValue;
use i18n_schema::pipeline::{load_locales, BuildersKeys, Locale, LocalesOrNamespaces};
use i18n_schema::plurals::PluralRuleTable;
use i18n_schema::raw::RawValue;
use i18n_schema::render::render_value;

fn rs(text: &str) -> RawValue {
    RawValue::Str(text.to_string())
}

fn table(entries: Vec<(&str, RawValue)>) -> RawValue {
    RawValue::Table(entries.into_iter().map(|(k, v)| (k.to_string(), v)).collect())
}

fn build_locale(name: &str, entries: Vec<(&str, RawValue)>) -> Locale {
    let mut tree: Vec<(Key, ParsedValue)> = Vec::new();
    let mut path = KeyPath::new(None);
    for (k, raw) in entries {
        let key = Key::try_new(k.to_string()).unwrap();
        let parsed = parse_value(name, &mut path, &raw).unwrap();
        tree.push((key, parsed));
    }
    Locale { name: Key::try_new(name.to_string()).unwrap(), tree }
}

fn en_entries() -> Vec<(&'static str, RawValue)> {
    vec![
        ("click_to_inc", rs("Click to increment the counter")),
        ("clicked_times", rs("You clicked {count} times")),
        ("subkeys", table(vec![("subkey_1", rs("subkey_1"))])),
        ("explicit_default", rs("this string is declared in locale en")),
        ("foreign_key_to_string", rs("before $t(click_to_inc) after")),
        ("foreign_key_to_interpolation", rs("before $t(clicked_times) after")),
        ("foreign_key_to_subkey", rs("before $t(subkeys.subkey_1) after")),
        ("foreign_key_to_explicit_default", rs("no explicit default in default locale")),
        ("populated_foreign_key", rs("before $t(clicked_times, count = 45) after")),
        (
            "populated_foreign_key_with_arg",
            rs("before $t(clicked_times, count = {new_count}) after"),
        ),
        (
            "populated_foreign_key_with_foreign_key_arg",
            rs("before $t(clicked_times, count = $t(subkeys.subkey_1)) after"),
        ),
    ]
}

fn fr_entries() -> Vec<(&'static str, RawValue)> {
    vec![
        ("click_to_inc", rs("Cliquez pour incrémenter le compteur")),
        ("clicked_times", rs("Vous avez cliqué {count} fois")),
        ("subkeys", table(vec![("subkey_1", rs("subkey_1"))])),
        ("foreign_key_to_string", rs("before $t(click_to_inc) after")),
        ("foreign_key_to_interpolation", rs("before $t(clicked_times) after")),
        ("foreign_key_to_subkey", rs("before $t(subkeys.subkey_1) after")),
        ("foreign_key_to_explicit_default", rs("before $t(explicit_default) after")),
        ("populated_foreign_key", rs("before $t(clicked_times, count = 32) after")),
        (
            "populated_foreign_key_with_arg",
            rs("before $t(clicked_times, count = {new_count}) after"),
        ),
        (
            "populated_foreign_key_with_foreign_key_arg",
            rs("before $t(clicked_times, count = $t(subkeys.subkey_1)) after"),
        ),
    ]
}

fn resolve_both() -> (BuildersKeys, Vec<i18n_schema::error::Warning>, PluralRuleTable) {
    let en = build_locale("en", en_entries());
    let fr = build_locale("fr", fr_entries());
    let input = LocalesOrNamespaces::Locales(vec![en, fr]);
    let default = Key::try_new("en".to_string()).unwrap();
    let rules = PluralRuleTable::builtin();
    let mut warnings = Warnings::new();
    let keys = load_locales(&input, &default, &rules, &mut warnings).unwrap();
    let flushed = warnings.take_all();
    (keys, flushed, rules)
}

fn rendered(
    keys: &BuildersKeys,
    rules: &PluralRuleTable,
    locale: &str,
    key: &str,
    args: Vec<(&str, &str)>,
    counts: Vec<(&str, i64)>,
) -> String {
    let BuildersKeys::Locales(ks) = keys else {
        panic!("expected a flat key space");
    };
    let loc = ks
        .locales
        .iter()
        .find(|l| l.name.as_str() == locale)
        .expect("locale not found");
    let value = loc
        .tree
        .iter()
        .find(|(k, _)| k.as_str() == key)
        .map(|(_, v)| v)
        .expect("key not found");
    let args: Vec<(String, String)> =
        args.into_iter().map(|(a, b)| (a.to_string(), b.to_string())).collect();
    let counts: Vec<(String, i64)> =
        counts.into_iter().map(|(a, b)| (a.to_string(), b)).collect();
    render_value(value, &args, &counts, rules.rules_for(locale))
}

#[test]
fn foreign_key_to_string() {
    let (keys, _, rules) = resolve_both();
    let en = rendered(&keys, &rules, "en", "foreign_key_to_string", vec![], vec![]);
    assert_eq!(en, "before Click to increment the counter after");
    let fr = rendered(&keys, &rules, "fr", "foreign_key_to_string", vec![], vec![]);
    assert_eq!(fr, "before Cliquez pour incrémenter le compteur after");
}

#[test]
fn foreign_key_to_interpolation() {
    let (keys, _, rules) = resolve_both();
    for count in -5..5 {
        let text = format!("{}", count);
        let en = rendered(
            &keys,
            &rules,
            "en",
            "foreign_key_to_interpolation",
            vec![("count", &text)],
            vec![],
        );
        assert_eq!(
            en,
            format!(
                "<span>before You clicked </span><span>{}</span><span> times after</span>",
                count
            )
        );
        let fr = rendered(
            &keys,
            &rules,
            "fr",
            "foreign_key_to_interpolation",
            vec![("count", &text)],
            vec![],
        );
        assert_eq!(
            fr,
            format!(
                "<span>before Vous avez cliqué </span><span>{}</span><span> fois after</span>",
                count
            )
        );
    }
}

#[test]
fn foreign_key_to_subkey() {
    let (keys, _, rules) = resolve_both();
    let en = rendered(&keys, &rules, "en", "foreign_key_to_subkey", vec![], vec![]);
    assert_eq!(en, "before subkey_1 after");
    let fr = rendered(&keys, &rules, "fr", "foreign_key_to_subkey", vec![], vec![]);
    assert_eq!(fr, "before subkey_1 after");
}

#[test]
fn foreign_key_to_explicit_default() {
    let (keys, _, rules) = resolve_both();
    let en = rendered(&keys, &rules, "en", "foreign_key_to_explicit_default", vec![], vec![]);
    assert_eq!(en, "no explicit default in default locale");
    let fr = rendered(&keys, &rules, "fr", "foreign_key_to_explicit_default", vec![], vec![]);
    assert_eq!(fr, "before this string is declared in locale en after");
}

#[test]
fn populated_foreign_key() {
    let (keys, _, rules) = resolve_both();
    let en = rendered(&keys, &rules, "en", "populated_foreign_key", vec![], vec![]);
    assert_eq!(en, "before You clicked 45 times after");
    let fr = rendered(&keys, &rules, "fr", "populated_foreign_key", vec![], vec![]);
    assert_eq!(fr, "before Vous avez cliqué 32 fois after");
}

#[test]
fn populated_foreign_key_with_arg() {
    let (keys, _, rules) = resolve_both();
    let en = rendered(
        &keys,
        &rules,
        "en",
        "populated_foreign_key_with_arg",
        vec![("new_count", "12")],
        vec![],
    );
    assert_eq!(
        en,
        "<span>before You clicked </span><span>12</span><span> times after</span>"
    );
    let fr = rendered(
        &keys,
        &rules,
        "fr",
        "populated_foreign_key_with_arg",
        vec![("new_count", "67")],
        vec![],
    );
    assert_eq!(
        fr,
        "<span>before Vous avez cliqué </span><span>67</span><span> fois after</span>"
    );
}

#[test]
fn populated_foreign_key_with_foreign_key_arg() {
    let (keys, _, rules) = resolve_both();
    let en = rendered(
        &keys,
        &rules,
        "en",
        "populated_foreign_key_with_foreign_key_arg",
        vec![],
        vec![],
    );
    assert_eq!(en, "before You clicked subkey_1 times after");
    let fr = rendered(
        &keys,
        &rules,
        "fr",
        "populated_foreign_key_with_foreign_key_arg",
        vec![],
        vec![],
    );
    assert_eq!(fr, "before Vous avez cliqué subkey_1 fois after");
}

#[test]
fn merging_these_locales_warns_only_about_missing_explicit_default() {
    let (_, warnings, _) = resolve_both();
    // fr lacks only `explicit_default`, which en declares.
    assert_eq!(warnings.len(), 1);
    match &warnings[0] {
        i18n_schema::error::Warning::MissingKey { locale, .. } => {
            assert_eq!(locale.as_str(), "fr");
        },
        _ => panic!("expected a missing-key warning"),
    }
}
