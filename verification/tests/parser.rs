use pdx_explorer::database::parser::Parser;
use pdx_explorer::database::Language;
use pdx_explorer::error::ErrorKind;

fn pair(key: &str, value: &str) -> (String, String) {
    (key.to_string(), value.to_string())
}

#[test]
fn parses_a_well_formed_file() {
    let content = "\u{feff}l_english:\n canal_suez:0 \"Suez Canal\"\n";
    let (language, keys) = Parser::parse_localization_file("loc.yml", content).unwrap();
    assert_eq!(language, Language::English);
    assert_eq!(keys, vec![pair("canal_suez", "Suez Canal")]);
}

#[test]
fn parses_several_keys_in_file_order() {
    let content = "\u{feff}l_french:\n canal_suez:0 \"Canal de Suez\"\n canal_panama:1 \"Canal de Panama\"\n";
    let (language, keys) = Parser::parse_localization_file("loc.yml", content).unwrap();
    assert_eq!(language, Language::French);
    assert_eq!(
        keys,
        vec![pair("canal_suez", "Canal de Suez"), pair("canal_panama", "Canal de Panama")]
    );
}

#[test]
fn marker_alone_is_an_empty_file() {
    let (language, keys) = Parser::parse_localization_file("loc.yml", "\u{feff}").unwrap();
    assert_eq!(language, Language::English);
    assert_eq!(keys, Vec::<(String, String)>::new());
}

#[test]
fn empty_content_is_an_empty_file() {
    let (language, keys) = Parser::parse_localization_file("loc.yml", "").unwrap();
    assert_eq!(language, Language::default());
    assert!(keys.is_empty());
}

#[test]
fn content_shorter_than_the_marker_is_an_empty_file() {
    let (language, keys) = Parser::parse_localization_file("loc.yml", "ab").unwrap();
    assert_eq!(language, Language::English);
    assert!(keys.is_empty());
}

#[test]
fn a_character_across_the_third_byte_makes_an_empty_file() {
    // two characters of two bytes each: the third byte ends no character
    let content = "\u{e9}\u{e9}l_english:\n k:0 \"v\"\n";
    let (language, keys) = Parser::parse_localization_file("loc.yml", content).unwrap();
    assert_eq!(language, Language::English);
    assert!(keys.is_empty());
}

#[test]
fn other_bytes_are_no_marker() {
    // three bytes that end a character, but not the marker
    let content = "a\u{e9}l_german:\n k:0 \"v\"\n";
    let (language, keys) = Parser::parse_localization_file("loc.yml", content).unwrap();
    assert_eq!(language, Language::English);
    assert!(keys.is_empty());
    // a character of three bytes that is not the marker
    let content = "\u{4e2d}l_german:\n k:0 \"v\"\n";
    let (language, keys) = Parser::parse_localization_file("loc.yml", content).unwrap();
    assert_eq!(language, Language::English);
    assert!(keys.is_empty());
    // the marker's first two bytes with another third: U+FEFE
    let content = "\u{fefe}l_german:\n k:0 \"v\"\n";
    let (language, keys) = Parser::parse_localization_file("loc.yml", content).unwrap();
    assert_eq!(language, Language::English);
    assert!(keys.is_empty());
}

#[test]
fn a_file_without_marker_is_an_empty_file() {
    let (language, keys) =
        Parser::parse_localization_file("loc.yml", "l_english:\n k:0 \"v\"\n").unwrap();
    assert_eq!(language, Language::English);
    assert!(keys.is_empty());
}

#[test]
fn a_malformed_file_without_marker_is_no_error() {
    let (language, keys) =
        Parser::parse_localization_file("loc.yml", "no language here\n and no key\n").unwrap();
    assert_eq!(language, Language::English);
    assert!(keys.is_empty());
}

#[test]
fn the_marker_is_stripped_once() {
    // a second marker is a character of the first line
    let content = "\u{feff}\u{feff}l_english:\n";
    let error = Parser::parse_localization_file("loc.yml", content).unwrap_err();
    assert_eq!(error.kind(), ErrorKind::UnrecognizedLanguageSpecifier);
    assert_eq!(
        error.description().as_str(),
        "loc.yml:1: Unrecognized language specifier: `\u{feff}l_english`"
    );
}

#[test]
fn only_comments_and_blank_lines_is_an_empty_file() {
    let content = "\u{feff}# a comment\n\n   \n\t# another\n";
    let (language, keys) = Parser::parse_localization_file("loc.yml", content).unwrap();
    assert_eq!(language, Language::English);
    assert!(keys.is_empty());
}

#[test]
fn key_line_without_colon_fails_with_its_line_number() {
    let content = "\u{feff}l_english:\n canal_suez \"Suez Canal\"\n";
    let error = Parser::parse_localization_file("loc.yml", content).unwrap_err();
    assert_eq!(error.kind(), ErrorKind::MalformedKeyLine);
    assert_eq!(error.line_number(), Some(2));
    assert_eq!(
        error.description().as_str(),
        "loc.yml:2: Failed to parse localization key in line `canal_suez \"Suez Canal\"`"
    );
}

#[test]
fn value_without_closing_quote_fails() {
    let content = "\u{feff}l_english:\n canal_suez:0 \"Suez Canal\n";
    let error = Parser::parse_localization_file("loc.yml", content).unwrap_err();
    assert_eq!(error.kind(), ErrorKind::MalformedKeyLine);
    assert_eq!(error.line_number(), Some(2));
    assert_eq!(
        error.description().as_str(),
        "loc.yml:2: Failed to parse localization key in line `canal_suez:0 \"Suez Canal`"
    );
}

#[test]
fn value_without_opening_quote_fails() {
    let content = "\u{feff}l_english:\n canal_suez:0 Suez Canal\"\n";
    let error = Parser::parse_localization_file("loc.yml", content).unwrap_err();
    assert_eq!(error.kind(), ErrorKind::MalformedKeyLine);
}

#[test]
fn a_single_quote_is_no_value() {
    let content = "\u{feff}l_english:\n k:0 \"\n";
    let error = Parser::parse_localization_file("loc.yml", content).unwrap_err();
    assert_eq!(error.kind(), ErrorKind::MalformedKeyLine);
}

#[test]
fn nothing_behind_the_colon_is_no_value() {
    let content = "\u{feff}l_english:\n k:\n";
    let error = Parser::parse_localization_file("loc.yml", content).unwrap_err();
    assert_eq!(error.kind(), ErrorKind::MalformedKeyLine);
}

#[test]
fn an_empty_value_is_a_value() {
    let content = "\u{feff}l_english:\n k:0 \"\"\n";
    let (_, keys) = Parser::parse_localization_file("loc.yml", content).unwrap();
    assert_eq!(keys, vec![pair("k", "")]);
}

#[test]
fn the_line_number_counts_comments_and_blank_lines() {
    let content = "\u{feff}# head\n\nl_english: # the language\n\n key:1 \"v\" # why\n bad\n";
    let error = Parser::parse_localization_file("some/dir/loc.yml", content).unwrap_err();
    assert_eq!(error.kind(), ErrorKind::MalformedKeyLine);
    assert_eq!(error.line_number(), Some(6));
    assert_eq!(
        error.description().as_str(),
        "some/dir/loc.yml:6: Failed to parse localization key in line `bad`"
    );
}

#[test]
fn the_first_malformed_line_is_reported() {
    let content = "\u{feff}l_english:\n a:0 \"1\"\n b\n c\n";
    let error = Parser::parse_localization_file("loc.yml", content).unwrap_err();
    assert_eq!(error.line_number(), Some(3));
    assert_eq!(
        error.description().as_str(),
        "loc.yml:3: Failed to parse localization key in line `b`"
    );
}

#[test]
fn comments_are_cut_off_key_lines() {
    let content = "\u{feff}l_english: # language\n k:0 \"v\" # remark\n";
    let (language, keys) = Parser::parse_localization_file("loc.yml", content).unwrap();
    assert_eq!(language, Language::English);
    assert_eq!(keys, vec![pair("k", "v")]);
}

#[test]
fn a_comment_sign_inside_a_value_cuts_the_line() {
    let content = "\u{feff}l_english:\n k:0 \"a#b\"\n";
    let error = Parser::parse_localization_file("loc.yml", content).unwrap_err();
    assert_eq!(error.kind(), ErrorKind::MalformedKeyLine);
    assert_eq!(
        error.description().as_str(),
        "loc.yml:2: Failed to parse localization key in line `k:0 \"a`"
    );
}

#[test]
fn language_line_without_colon_fails() {
    let content = "\u{feff}l_english\n k:0 \"v\"\n";
    let error = Parser::parse_localization_file("loc.yml", content).unwrap_err();
    assert_eq!(error.kind(), ErrorKind::MalformedLanguageSpecifier);
    assert_eq!(error.line_number(), Some(1));
    assert_eq!(
        error.description().as_str(),
        "loc.yml:1: Failed to find the language specifier in line `l_english`"
    );
}

#[test]
fn unknown_language_fails() {
    let content = "\u{feff}\n\nl_klingon:\n k:0 \"v\"\n";
    let error = Parser::parse_localization_file("loc.yml", content).unwrap_err();
    assert_eq!(error.kind(), ErrorKind::UnrecognizedLanguageSpecifier);
    assert_eq!(error.line_number(), Some(3));
    assert_eq!(
        error.description().as_str(),
        "loc.yml:3: Unrecognized language specifier: `l_klingon`"
    );
}

#[test]
fn the_language_specifier_is_matched_exactly() {
    let content = "\u{feff}L_English:\n";
    let error = Parser::parse_localization_file("loc.yml", content).unwrap_err();
    assert_eq!(error.kind(), ErrorKind::UnrecognizedLanguageSpecifier);
    let content = "\u{feff}l_english :\n";
    let error = Parser::parse_localization_file("loc.yml", content).unwrap_err();
    assert_eq!(error.kind(), ErrorKind::UnrecognizedLanguageSpecifier);
    assert_eq!(
        error.description().as_str(),
        "loc.yml:1: Unrecognized language specifier: `l_english `"
    );
}

#[test]
fn a_colon_alone_names_no_language() {
    let error = Parser::parse_localization_file("loc.yml", "\u{feff}:\n").unwrap_err();
    assert_eq!(error.kind(), ErrorKind::UnrecognizedLanguageSpecifier);
    assert_eq!(error.description().as_str(), "loc.yml:1: Unrecognized language specifier: ``");
}

#[test]
fn the_key_keeps_what_stands_before_the_colon() {
    let content = "\u{feff}l_english:\n  key with space :0 \"v\"\n";
    let (_, keys) = Parser::parse_localization_file("loc.yml", content).unwrap();
    assert_eq!(keys, vec![pair("key with space ", "v")]);
}

#[test]
fn the_revision_number_is_optional() {
    let content = "\u{feff}l_english:\n a: \"1\"\n b:\"2\"\n c:12 \"3\"\n d:0 1\t2\"4\"\n";
    let (_, keys) = Parser::parse_localization_file("loc.yml", content).unwrap();
    assert_eq!(keys, vec![pair("a", "1"), pair("b", "2"), pair("c", "3"), pair("d", "4")]);
}

#[test]
fn quotes_and_colons_inside_a_value_are_kept() {
    let content = "\u{feff}l_english:\n k:0 \"say \"hello\": now\"\n";
    let (_, keys) = Parser::parse_localization_file("loc.yml", content).unwrap();
    assert_eq!(keys, vec![pair("k", "say \"hello\": now")]);
}

#[test]
fn escapes_are_not_processed() {
    let content = "\u{feff}l_english:\n k:0 \"line\\nbreak\"\n";
    let (_, keys) = Parser::parse_localization_file("loc.yml", content).unwrap();
    assert_eq!(keys, vec![pair("k", "line\\nbreak")]);
}

#[test]
fn carriage_returns_end_lines_too() {
    let content = "\u{feff}l_english:\r\n k:0 \"v\"\r\n j:0 \"w\"\r\n";
    let (language, keys) = Parser::parse_localization_file("loc.yml", content).unwrap();
    assert_eq!(language, Language::English);
    assert_eq!(keys, vec![pair("k", "v"), pair("j", "w")]);
}

#[test]
fn the_last_line_needs_no_line_end() {
    let content = "\u{feff}l_english:\n k:0 \"v\"";
    let (_, keys) = Parser::parse_localization_file("loc.yml", content).unwrap();
    assert_eq!(keys, vec![pair("k", "v")]);
}

#[test]
fn unicode_whitespace_is_trimmed() {
    let content = "\u{feff}\u{3000}l_japanese:\u{a0}\n\u{2003}k:0\u{3000}\"v\"\u{2028}\n";
    let (language, keys) = Parser::parse_localization_file("loc.yml", content).unwrap();
    assert_eq!(language, Language::Japanese);
    assert_eq!(keys, vec![pair("k", "v")]);
}

#[test]
fn values_keep_their_characters() {
    let content = "\u{feff}l_simp_chinese:\n canal_suez:0 \"\u{82cf}\u{4f0a}\u{58eb}\u{8fd0}\u{6cb3}\"\n";
    let (language, keys) = Parser::parse_localization_file("loc.yml", content).unwrap();
    assert_eq!(language, Language::SimplifiedChinese);
    assert_eq!(keys, vec![pair("canal_suez", "\u{82cf}\u{4f0a}\u{58eb}\u{8fd0}\u{6cb3}")]);
}

#[test]
fn duplicate_keys_are_both_returned() {
    let content = "\u{feff}l_english:\n k:0 \"first\"\n k:1 \"second\"\n";
    let (_, keys) = Parser::parse_localization_file("loc.yml", content).unwrap();
    assert_eq!(keys, vec![pair("k", "first"), pair("k", "second")]);
}

#[test]
fn every_language_is_recognized_in_a_file() {
    let specifiers = [
        ("l_english", Language::English),
        ("l_braz_por", Language::BrazilianPortuguese),
        ("l_french", Language::French),
        ("l_german", Language::German),
        ("l_polish", Language::Polish),
        ("l_russian", Language::Russian),
        ("l_spanish", Language::Spanish),
        ("l_japanese", Language::Japanese),
        ("l_simp_chinese", Language::SimplifiedChinese),
        ("l_korean", Language::Korean),
        ("l_turkish", Language::Turkish),
    ];
    for (specifier, expected) in specifiers {
        let content = format!("\u{feff}{}:\n k:0 \"v\"\n", specifier);
        let (language, keys) = Parser::parse_localization_file("loc.yml", &content).unwrap();
        assert_eq!(language, expected);
        assert_eq!(keys, vec![pair("k", "v")]);
    }
}

#[test]
fn parsing_twice_gives_the_same() {
    let good = "\u{feff}l_english:\n a:0 \"1\"\n b:0 \"2\"\n";
    let first = Parser::parse_localization_file("loc.yml", good).unwrap();
    let second = Parser::parse_localization_file("loc.yml", good).unwrap();
    assert_eq!(first, second);
    let bad = "\u{feff}l_english:\n a:0 \"1\"\n b:0 2\"\n";
    let first = Parser::parse_localization_file("loc.yml", bad).unwrap_err();
    let second = Parser::parse_localization_file("loc.yml", bad).unwrap_err();
    assert_eq!(first.kind(), second.kind());
    assert_eq!(first.description(), second.description());
    assert_eq!(first.line_number(), second.line_number());
}

#[test]
fn a_key_line_parses_alone() {
    let (key, value) =
        Parser::parse_localization_file_line(4, "canal_suez:0 \"Suez Canal\"", "loc.yml").unwrap();
    assert_eq!(key, "canal_suez");
    assert_eq!(value, "Suez Canal");
}

#[test]
fn a_key_line_alone_is_not_cleaned() {
    let (key, value) =
        Parser::parse_localization_file_line(0, " canal_suez:0 \"Suez Canal\"", "loc.yml").unwrap();
    assert_eq!(key, " canal_suez");
    assert_eq!(value, "Suez Canal");
}

#[test]
fn a_malformed_key_line_alone_reports_the_next_number() {
    let error = Parser::parse_localization_file_line(41, "canal_suez", "loc.yml").unwrap_err();
    assert_eq!(error.kind(), ErrorKind::MalformedKeyLine);
    assert_eq!(error.line_number(), Some(42));
    assert_eq!(
        error.description().as_str(),
        "loc.yml:42: Failed to parse localization key in line `canal_suez`"
    );
}

#[test]
fn a_long_file_reports_a_late_line() {
    let mut content = String::from("\u{feff}l_english:\n");
    for i in 0..1500 {
        content.push_str(&format!(" key_{}:0 \"value {}\"\n", i, i));
    }
    content.push_str(" broken line\n");
    let error = Parser::parse_localization_file("big.yml", &content).unwrap_err();
    assert_eq!(error.line_number(), Some(1502));
    assert_eq!(
        error.description().as_str(),
        "big.yml:1502: Failed to parse localization key in line `broken line`"
    );
}
