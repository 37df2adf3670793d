use i18n_schema::error::{Error, Warning, Warnings};
use i18n_schema::key::{Key, KeyPath};
use i18n_schema::locale::{ArgType, LocaleValue};
use i18n_schema::parse::parse_value;
use i18n_schema::parsed_value::ParsedValue;
use i18n_schema::pipeline::{load_locales, BuildersKeys, Locale, LocalesOrNamespaces};
use i18n_schema::plurals::PluralRuleTable;
use i18n_schema::raw::RawValue;
use i18n_schema::render::render_value;

fn rs(text: &str) -> RawValue {
    RawValue::Str(text.to_string())
}

fn table(entries: Vec<(&str, RawValue)>) -> RawValue {
    RawValue::Table(entries.into_iter().map(|(k, v)| (k.to_string(), v)).collect())
}

fn build_locale(name: &str, entries: Vec<(&str, RawValue)>) -> Locale {
    let mut tree: Vec<(Key, ParsedValue)> = Vec::new();
    let mut path = KeyPath::new(None);
    for (k, raw) in entries {
        let key = Key::try_new(k.to_string()).unwrap();
        let parsed = parse_value(name, &mut path, &raw).unwrap();
        tree.push((key, parsed));
    }
    Locale { name: Key::try_new(name.to_string()).unwrap(), tree }
}

fn run(
    locales: Vec<Locale>,
) -> Result<(BuildersKeys, Vec<Warning>), Error> {
    let input = LocalesOrNamespaces::Locales(locales);
    let default = Key::try_new("en".to_string()).unwrap();
    let rules = PluralRuleTable::builtin();
    let mut warnings = Warnings::new();
    let keys = load_locales(&input, &default, &rules, &mut warnings)?;
    Ok((keys, warnings.take_all()))
}

fn base_entries() -> Vec<(&'static str, RawValue)> {
    vec![
        ("hello", rs("Hello")),
        ("greet", rs("Hi {name}!")),
        ("nested", table(vec![("inner", rs("deep")), ("more", rs("{x}"))])),
    ]
}

#[test]
fn schema_lists_exactly_the_default_keys() {
    let en = build_locale("en", base_entries());
    let fr = build_locale("fr", vec![("hello", rs("Bonjour"))]);
    let (keys, _) = run(vec![en, fr]).unwrap();
    let BuildersKeys::Locales(ks) = keys else {
        panic!("expected a flat key space");
    };
    let names: Vec<&str> = ks.keys.keys.iter().map(|(k, _)| k.as_str()).collect();
    assert_eq!(names, vec!["hello", "greet", "nested"]);
    // Every merged locale tree carries the same keys, in the same order.
    for loc in &ks.locales {
        let tree_names: Vec<&str> = loc.tree.iter().map(|(k, _)| k.as_str()).collect();
        assert_eq!(tree_names, names);
    }
    // The nested group's keys survive too.
    match &ks.keys.keys[2].1 {
        LocaleValue::Subkeys(sub) => {
            let sub_names: Vec<&str> = sub.iter().map(|(k, _)| k.as_str()).collect();
            assert_eq!(sub_names, vec!["inner", "more"]);
        },
        _ => panic!("expected nested subkeys"),
    }
}

#[test]
fn identical_locales_merge_without_warnings() {
    let en = build_locale("en", base_entries());
    let same = build_locale("fr", base_entries());
    let (_, warnings) = run(vec![en, same]).unwrap();
    assert_eq!(warnings.len(), 0);
}

#[test]
fn missing_key_warns_once_and_falls_back_to_the_default() {
    let en = build_locale("en", base_entries());
    let fr = build_locale(
        "fr",
        vec![
            ("hello", rs("Bonjour")),
            ("nested", table(vec![("inner", rs("profond")), ("more", rs("{x}"))])),
        ],
    );
    let (keys, warnings) = run(vec![en, fr]).unwrap();
    // Exactly one warning: fr lacks `greet`.
    assert_eq!(warnings.len(), 1);
    match &warnings[0] {
        Warning::MissingKey { locale, path } => {
            assert_eq!(locale.as_str(), "fr");
            assert_eq!(path.depth(), 1);
            assert_eq!(path.key_at(0).as_str(), "greet");
        },
        _ => panic!("expected a missing-key warning"),
    }
    // The generation-time fallback equals the default locale's value.
    let BuildersKeys::Locales(ks) = keys else {
        panic!("expected a flat key space");
    };
    let rules = PluralRuleTable::builtin();
    let args = vec![("name".to_string(), "Ada".to_string())];
    let counts: Vec<(String, i64)> = Vec::new();
    let fr_val = ks.locales[1].tree.iter().find(|(k, _)| k.as_str() == "greet").unwrap();
    let en_val = ks.locales[0].tree.iter().find(|(k, _)| k.as_str() == "greet").unwrap();
    assert_eq!(
        render_value(&fr_val.1, &args, &counts, rules.rules_for("fr")),
        render_value(&en_val.1, &args, &counts, rules.rules_for("en")),
    );
}

#[test]
fn surplus_key_warns_and_is_discarded() {
    let en = build_locale("en", vec![("hello", rs("Hello"))]);
    let fr = build_locale("fr", vec![("hello", rs("Bonjour")), ("extra", rs("de trop"))]);
    let (keys, warnings) = run(vec![en, fr]).unwrap();
    assert_eq!(warnings.len(), 1);
    match &warnings[0] {
        Warning::SurplusKey { locale, path } => {
            assert_eq!(locale.as_str(), "fr");
            assert_eq!(path.key_at(0).as_str(), "extra");
        },
        _ => panic!("expected a surplus-key warning"),
    }
    let BuildersKeys::Locales(ks) = keys else {
        panic!("expected a flat key space");
    };
    assert!(ks.locales[1].tree.iter().all(|(k, _)| k.as_str() != "extra"));
}

#[test]
fn shape_mismatch_is_a_hard_error() {
    let en = build_locale("en", vec![("hello", rs("Hello"))]);
    let fr = build_locale("fr", vec![("hello", table(vec![("x", rs("no"))]))]);
    let err = run(vec![en, fr]).unwrap_err();
    assert!(matches!(err, Error::LocaleShapeMismatch { .. }));
}

#[test]
fn unknown_variable_is_a_hard_error() {
    let en = build_locale("en", vec![("greet", rs("Hi {name}!"))]);
    let fr = build_locale("fr", vec![("greet", rs("Salut {prenom}!"))]);
    let err = run(vec![en, fr]).unwrap_err();
    match err {
        Error::UnknownVariable { locale, name, .. } => {
            assert_eq!(locale.as_str(), "fr");
            assert_eq!(name.as_str(), "prenom");
        },
        _ => panic!("expected an unknown variable"),
    }
}

#[test]
fn locale_may_omit_variables_of_the_default() {
    let en = build_locale("en", vec![("greet", rs("Hi {name}!"))]);
    let fr = build_locale("fr", vec![("greet", rs("Salut !"))]);
    let (_, warnings) = run(vec![en, fr]).unwrap();
    assert_eq!(warnings.len(), 0);
}

#[test]
fn count_use_dominates_text_use_of_one_variable() {
    // `n` is plain text in one part of the key and a plural count in
    // another: the count use wins and the argument is a number.
    let en = build_locale(
        "en",
        vec![(
            "mixed_uses",
            rs("{n} and $t(amount)"),
        ), (
            "amount",
            table(vec![("count", rs("n")), ("one", rs("one")), ("other", rs("{n}"))]),
        )],
    );
    let (keys, _) = run(vec![en]).unwrap();
    let BuildersKeys::Locales(ks) = keys else {
        panic!("expected a flat key space");
    };
    match &ks.keys.keys[0].1 {
        LocaleValue::Interpolation(args) => {
            let n = args.iter().find(|(name, _)| name.as_str() == "n").unwrap();
            assert_eq!(n.1, ArgType::Number);
        },
        _ => panic!("expected an interpolation shape"),
    }
}

#[test]
fn inferred_argument_types_are_text_and_number() {
    let en = build_locale(
        "en",
        vec![(
            "mixed",
            table(vec![
                ("count", rs("total")),
                ("one", rs("{who} has one")),
                ("other", rs("{who} has {total}")),
            ]),
        )],
    );
    let (keys, _) = run(vec![en]).unwrap();
    let BuildersKeys::Locales(ks) = keys else {
        panic!("expected a flat key space");
    };
    match &ks.keys.keys[0].1 {
        LocaleValue::Interpolation(args) => {
            let total = args.iter().find(|(n, _)| n.as_str() == "total").unwrap();
            assert_eq!(total.1, ArgType::Number);
            let who = args.iter().find(|(n, _)| n.as_str() == "who").unwrap();
            assert_eq!(who.1, ArgType::Text);
        },
        _ => panic!("expected an interpolation shape"),
    }
}

#[test]
fn empty_trees_merge_to_an_empty_schema() {
    let en = build_locale("en", vec![]);
    let fr = build_locale("fr", vec![]);
    let (keys, warnings) = run(vec![en, fr]).unwrap();
    let BuildersKeys::Locales(ks) = keys else {
        panic!("expected a flat key space");
    };
    assert_eq!(ks.keys.keys.len(), 0);
    assert_eq!(ks.locales.len(), 2);
    assert_eq!(warnings.len(), 0);
}
