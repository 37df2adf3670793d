use i18n_schema::error::{Error, Warnings};
use i18n_schema::key::{Key, KeyPath};
use i18n_schema::parse::parse_value;
use i18n_schema::parsed_value::ParsedValue;
use i18n_schema::pipeline::{load_locales, Locale, LocalesOrNamespaces};
use i18n_schema::plurals::PluralRuleTable;
use i18n_schema::raw::RawValue;

fn rs(text: &str) -> RawValue {
    RawValue::Str(text.to_string())
}

fn build_locale(name: &str, entries: Vec<(&str, RawValue)>) -> Locale {
    let mut tree: Vec<(Key, ParsedValue)> = Vec::new();
    let mut path = KeyPath::new(None);
    for (k, raw) in entries {
        let key = Key::try_new(k.to_string()).unwrap();
        let parsed = parse_value(name, &mut path, &raw).unwrap();
        tree.push((key, parsed));
    }
    Locale { name: Key::try_new(name.to_string()).unwrap(), tree }
}

fn run(locales: Vec<Locale>) -> Result<(), Error> {
    let input = LocalesOrNamespaces::Locales(locales);
    let default = Key::try_new("en".to_string()).unwrap();
    let rules = PluralRuleTable::builtin();
    let mut warnings = Warnings::new();
    load_locales(&input, &default, &rules, &mut warnings).map(|_| ())
}

#[test]
fn three_key_reference_chain_reports_the_whole_cycle() {
    let en = build_locale(
        "en",
        vec![("a", rs("$t(b)")), ("b", rs("$t(c)")), ("c", rs("$t(a)"))],
    );
    let err = run(vec![en]).unwrap_err();
    match err {
        Error::CyclicReference { cycle, .. } => {
            assert_eq!(cycle.len(), 3);
            let mut names: Vec<String> = cycle
                .iter()
                .map(|p| {
                    assert_eq!(p.depth(), 1);
                    p.key_at(0).as_str().to_string()
                })
                .collect();
            names.sort();
            assert_eq!(names, vec!["a".to_string(), "b".to_string(), "c".to_string()]);
        },
        _ => panic!("expected a cyclic reference"),
    }
}

#[test]
fn self_reference_is_a_cycle() {
    let en = build_locale("en", vec![("a", rs("$t(a)"))]);
    let err = run(vec![en]).unwrap_err();
    match err {
        Error::CyclicReference { cycle, .. } => {
            assert_eq!(cycle.len(), 1);
            assert_eq!(cycle[0].key_at(0).as_str(), "a");
        },
        _ => panic!("expected a cyclic reference"),
    }
}

#[test]
fn reference_to_a_missing_key_is_unknown() {
    let en = build_locale("en", vec![("a", rs("$t(nowhere)"))]);
    let err = run(vec![en]).unwrap_err();
    match err {
        Error::UnknownForeignKey { target, .. } => {
            assert_eq!(target.key_at(0).as_str(), "nowhere");
        },
        _ => panic!("expected an unknown foreign key"),
    }
}

#[test]
fn dead_override_is_reported_as_a_warning() {
    let en = build_locale(
        "en",
        vec![("plain", rs("no variables here")), ("user", rs("$t(plain, unused = 1)"))],
    );
    let input = LocalesOrNamespaces::Locales(vec![en]);
    let default = Key::try_new("en".to_string()).unwrap();
    let rules = PluralRuleTable::builtin();
    let mut warnings = Warnings::new();
    load_locales(&input, &default, &rules, &mut warnings).unwrap();
    let flushed = warnings.take_all();
    assert_eq!(flushed.len(), 1);
    match &flushed[0] {
        i18n_schema::error::Warning::DeadOverride { name, .. } => {
            assert_eq!(name.as_str(), "unused");
        },
        _ => panic!("expected a dead-override warning"),
    }
}

#[test]
fn cross_namespace_references_resolve() {
    let common_en = build_locale("en", vec![("ok", rs("OK"))]);
    let ui_en = build_locale("en", vec![("confirm", rs("Press $t(common:ok) now"))]);
    let input = LocalesOrNamespaces::NameSpaces(vec![
        i18n_schema::pipeline::Namespace {
            name: Key::try_new("common".to_string()).unwrap(),
            locales: vec![common_en],
        },
        i18n_schema::pipeline::Namespace {
            name: Key::try_new("ui".to_string()).unwrap(),
            locales: vec![ui_en],
        },
    ]);
    let default = Key::try_new("en".to_string()).unwrap();
    let rules = PluralRuleTable::builtin();
    let mut warnings = Warnings::new();
    let keys = load_locales(&input, &default, &rules, &mut warnings).unwrap();
    let i18n_schema::pipeline::BuildersKeys::NameSpaces(spaces) = keys else {
        panic!("expected namespaces");
    };
    let ui = spaces.iter().find(|(n, _)| n.as_str() == "ui").unwrap();
    let value = &ui.1.locales[0].tree[0].1;
    let args: Vec<(String, String)> = Vec::new();
    let counts: Vec<(String, i64)> = Vec::new();
    let text = i18n_schema::render::render_value(value, &args, &counts, rules.rules_for("en"));
    assert_eq!(text, "Press OK now");
}
