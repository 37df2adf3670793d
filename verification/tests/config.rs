use i18n_schema::cfg_file::ConfigFile;
use i18n_schema::error::Error;
use i18n_schema::key::Key;

fn names(list: &[&str]) -> Vec<String> {
    list.iter().map(|s| s.to_string()).collect()
}

fn keys(list: &[&str]) -> Vec<Key> {
    list.iter().map(|s| Key::try_new(s.to_string()).unwrap()).collect()
}

fn locale_names(cfg: &ConfigFile) -> Vec<String> {
    cfg.locales.iter().map(|k| k.as_str().to_string()).collect()
}

#[test]
fn contain_duplicates_reports_each_name_once() {
    let dup = ConfigFile::contain_duplicates(&keys(&["en", "fr", "en", "de", "fr", "en"]));
    let mut found = dup.unwrap();
    found.sort();
    assert_eq!(found, vec!["en".to_string(), "fr".to_string()]);
    assert!(ConfigFile::contain_duplicates(&keys(&["en", "fr", "de"])).is_none());
    assert!(ConfigFile::contain_duplicates(&keys(&[])).is_none());
}

#[test]
fn default_listed_elsewhere_is_swapped_to_the_front() {
    let cfg = ConfigFile::new_from_parts(
        "fr".to_string(),
        names(&["en", "fr", "de"]),
        None,
        "./locales".to_string(),
    )
    .unwrap();
    assert_eq!(cfg.default.as_str(), "fr");
    assert_eq!(locale_names(&cfg), vec!["fr", "en", "de"]);
    assert_eq!(cfg.locales_dir, "./locales");
}

#[test]
fn default_absent_from_the_list_is_added_first() {
    let cfg = ConfigFile::new_from_parts(
        "it".to_string(),
        names(&["en", "fr"]),
        None,
        "./locales".to_string(),
    )
    .unwrap();
    assert_eq!(locale_names(&cfg), vec!["it", "fr", "en"]);

    let cfg = ConfigFile::new_from_parts(
        "it".to_string(),
        names(&[]),
        None,
        "./locales".to_string(),
    )
    .unwrap();
    assert_eq!(locale_names(&cfg), vec!["it"]);
}

#[test]
fn duplicate_locales_are_rejected_with_the_offenders() {
    let err = ConfigFile::new_from_parts(
        "en".to_string(),
        names(&["en", "fr", "fr"]),
        None,
        "./locales".to_string(),
    )
    .unwrap_err();
    match err {
        Error::DuplicateLocalesInConfig(d) => {
            assert_eq!(d, vec!["fr".to_string()]);
        },
        _ => panic!("expected duplicate locales"),
    }
}

#[test]
fn duplicate_namespaces_are_rejected() {
    let err = ConfigFile::new_from_parts(
        "en".to_string(),
        names(&["en"]),
        Some(names(&["common", "ui", "common"])),
        "./locales".to_string(),
    )
    .unwrap_err();
    match err {
        Error::DuplicateNamespacesInConfig(d) => {
            assert_eq!(d, vec!["common".to_string()]);
        },
        _ => panic!("expected duplicate namespaces"),
    }
}

#[test]
fn invalid_names_are_rejected() {
    let err = ConfigFile::new_from_parts(
        "en".to_string(),
        names(&["en", "fr FR"]),
        None,
        "./locales".to_string(),
    )
    .unwrap_err();
    match err {
        Error::InvalidLocaleName(n) => assert_eq!(n, "fr FR"),
        _ => panic!("expected an invalid locale name"),
    }
    let err = ConfigFile::new_from_parts(
        "en".to_string(),
        names(&["en"]),
        Some(names(&["0ui"])),
        "./locales".to_string(),
    )
    .unwrap_err();
    assert!(matches!(err, Error::InvalidNameSpaceName(_)));
    let err = ConfigFile::new_from_parts(
        "".to_string(),
        names(&["en"]),
        None,
        "./locales".to_string(),
    )
    .unwrap_err();
    assert!(matches!(err, Error::InvalidLocaleName(_)));
}

#[test]
fn namespaces_are_kept_in_declaration_order() {
    let cfg = ConfigFile::new_from_parts(
        "en".to_string(),
        names(&["en"]),
        Some(names(&["common", "ui"])),
        "./locales".to_string(),
    )
    .unwrap();
    let ns = cfg.name_spaces.unwrap();
    let ns_names: Vec<&str> = ns.iter().map(|k| k.as_str()).collect();
    assert_eq!(ns_names, vec!["common", "ui"]);
}

#[test]
fn region_qualified_locale_names_are_accepted() {
    // A hyphen only has to be convertible to an identifier, so names like
    // `fr-FR` pass validation and reorder like any other locale.
    let cfg = ConfigFile::new_from_parts(
        "fr-FR".to_string(),
        names(&["en", "fr-FR", "en-GB"]),
        None,
        "./locales".to_string(),
    )
    .unwrap();
    assert_eq!(locale_names(&cfg), vec!["fr-FR", "en", "en-GB"]);
    assert!(Key::try_new("-leading".to_string()).is_none());
}

#[test]
fn duplicate_error_reports_every_duplicated_input_name() {
    let err = ConfigFile::new_from_parts(
        "de".to_string(),
        names(&["en", "fr", "en", "fr"]),
        None,
        "./locales".to_string(),
    )
    .unwrap_err();
    match err {
        Error::DuplicateLocalesInConfig(mut d) => {
            d.sort();
            assert_eq!(d, vec!["en".to_string(), "fr".to_string()]);
        },
        _ => panic!("expected duplicate locales"),
    }
}
