use pdx_explorer::database::localization::{LocalizationDatabase, LocalizationKeyMap, LocalizationMap};
use pdx_explorer::database::models::{FileIdAndPath, LocalizationKey};
use pdx_explorer::database::Language;
use pdx_explorer::error::ErrorKind;

fn row(key: &str, value: &str, file_id: u32, language: &str) -> LocalizationKey {
    LocalizationKey {
        key: key.to_string(),
        value: value.to_string(),
        file_id,
        language: language.to_string(),
    }
}

fn source(id: u32, path: &str, content: &str) -> (FileIdAndPath, String) {
    (FileIdAndPath { id, full_path: path.to_string() }, content.to_string())
}

#[test]
fn a_key_map_keeps_one_row_for_a_key() {
    let mut map = LocalizationKeyMap::new();
    assert!(map.rows().is_empty());
    assert_eq!(map.get("k"), None);
    map.insert(row("k", "first", 1, "English"));
    map.insert(row("a", "other", 1, "English"));
    map.insert(row("k", "second", 2, "English"));
    assert_eq!(*map.rows(), vec![row("k", "second", 2, "English"), row("a", "other", 1, "English")]);
    assert_eq!(map.get("k"), Some(&row("k", "second", 2, "English")));
    assert_eq!(map.get("a"), Some(&row("a", "other", 1, "English")));
    assert_eq!(map.get("b"), None);
    map.insert(row("k", "second", 2, "English"));
    assert_eq!(map.rows().len(), 2);
}

#[test]
fn a_localization_map_keeps_the_languages_apart() {
    let mut map = LocalizationMap::new();
    for language in Language::values() {
        assert!(map.localization_key_map(*language).rows().is_empty());
    }
    map.get_localization_key_map(Language::German).insert(row("k", "Wert", 0, "German"));
    map.get_localization_key_map(Language::French).insert(row("k", "valeur", 1, "French"));
    map.get_localization_key_map(Language::German).insert(row("j", "noch", 0, "German"));
    assert_eq!(map.localization_key_map(Language::German).rows().len(), 2);
    assert_eq!(map.localization_key_map(Language::French).rows().len(), 1);
    assert_eq!(map.localization_key_map(Language::German).get("k").unwrap().value, "Wert");
    assert_eq!(map.localization_key_map(Language::French).get("k").unwrap().value, "valeur");
    for language in Language::values() {
        if *language != Language::German && *language != Language::French {
            assert!(map.localization_key_map(*language).rows().is_empty());
        }
    }
}

#[test]
fn keys_are_collected_by_language() {
    let sources = vec![
        source(0, "loc/a_l_english.yml", "\u{feff}l_english:\n k:0 \"value\"\n j:0 \"other\"\n"),
        source(1, "loc/a_l_german.yml", "\u{feff}l_german:\n k:0 \"Wert\"\n"),
        source(2, "loc/b_l_english.yml", "\u{feff}l_english:\n k:0 \"newer value\"\n"),
        source(3, "loc/empty.yml", ""),
        source(4, "loc/unmarked.yml", "l_english:\n k:0 \"without marker\"\n"),
    ];
    let database = LocalizationDatabase::new(&sources).unwrap();
    assert_eq!(database.get(Language::English, "k"), Some("newer value"));
    assert_eq!(database.get(Language::English, "j"), Some("other"));
    assert_eq!(database.get(Language::German, "k"), Some("Wert"));
    assert_eq!(database.get(Language::German, "j"), None);
    assert_eq!(database.get(Language::French, "k"), None);
    let english = database.localization_map().localization_key_map(Language::English);
    assert_eq!(
        *english.rows(),
        vec![row("k", "newer value", 2, "English"), row("j", "other", 0, "English")]
    );
}

#[test]
fn no_sources_give_no_keys() {
    let database = LocalizationDatabase::new(&Vec::new()).unwrap();
    for language in Language::values() {
        assert!(database.localization_map().localization_key_map(*language).rows().is_empty());
        assert_eq!(database.get(*language, "k"), None);
    }
}

#[test]
fn a_source_that_does_not_parse_fails_the_collection() {
    let sources = vec![
        source(0, "loc/a.yml", "\u{feff}l_english:\n k:0 \"value\"\n"),
        source(1, "loc/b.yml", "\u{feff}l_english:\n k:0 value\n"),
        source(2, "loc/c.yml", "\u{feff}l_nowhere:\n"),
    ];
    let error = LocalizationDatabase::new(&sources).unwrap_err();
    assert_eq!(error.kind(), ErrorKind::MalformedKeyLine);
    assert_eq!(error.line_number(), Some(2));
    assert_eq!(
        error.description(),
        "loc/b.yml:2: Failed to parse localization key in line `k:0 value`"
    );
}

#[test]
fn the_defaults_are_empty() {
    assert!(LocalizationKeyMap::default().rows().is_empty());
    let map = LocalizationMap::default();
    let database = LocalizationDatabase::default();
    for language in Language::values() {
        assert!(map.localization_key_map(*language).rows().is_empty());
        assert_eq!(database.get(*language, "k"), None);
    }
}
