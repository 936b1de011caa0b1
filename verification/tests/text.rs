use pdx_explorer::text::{
    chars_of, decimal_string, find_char, is_ascii_digit, is_whitespace,
    skip_digits_and_whitespace_from, str_equal, str_less, string_of, trim_range,
};

#[test]
fn whitespace_is_what_the_standard_library_calls_whitespace() {
    for code in 0..=0x10FFFFu32 {
        if let Some(c) = char::from_u32(code) {
            assert_eq!(is_whitespace(c), c.is_whitespace(), "U+{:04X}", code);
        }
    }
}

#[test]
fn digits_are_the_ascii_digits() {
    for code in 0..=0x10FFFFu32 {
        if let Some(c) = char::from_u32(code) {
            assert_eq!(is_ascii_digit(c), c.is_ascii_digit(), "U+{:04X}", code);
        }
    }
}

#[test]
fn decimal_string_writes_numbers() {
    assert_eq!(decimal_string(0), "0");
    assert_eq!(decimal_string(7), "7");
    assert_eq!(decimal_string(10), "10");
    assert_eq!(decimal_string(1234567890), "1234567890");
    assert_eq!(decimal_string(usize::MAX), usize::MAX.to_string());
    for n in 0..2000usize {
        assert_eq!(decimal_string(n), n.to_string());
    }
}

#[test]
fn chars_and_strings_convert_both_ways() {
    let text = "a\u{e9}\u{4e2d}\u{1f600}z";
    let chars = chars_of(text);
    assert_eq!(chars, vec!['a', '\u{e9}', '\u{4e2d}', '\u{1f600}', 'z']);
    assert_eq!(string_of(&chars, 0, 5), text);
    assert_eq!(string_of(&chars, 1, 3), "\u{e9}\u{4e2d}");
    assert_eq!(string_of(&chars, 2, 2), "");
}

#[test]
fn find_char_finds_the_first() {
    let chars = chars_of("a:b:c");
    assert_eq!(find_char(&chars, 0, 5, ':'), 1);
    assert_eq!(find_char(&chars, 2, 5, ':'), 3);
    assert_eq!(find_char(&chars, 4, 5, ':'), 5);
    assert_eq!(find_char(&chars, 0, 1, ':'), 1);
    assert_eq!(find_char(&chars, 0, 5, '#'), 5);
}

#[test]
fn trim_range_cuts_both_ends() {
    let chars = chars_of(" \t ab c \r\n");
    assert_eq!(trim_range(&chars, 0, chars.len()), (3, 7));
    let blank = chars_of(" \t ");
    let (start, end) = trim_range(&blank, 0, blank.len());
    assert_eq!(start, end);
    let tight = chars_of("ab");
    assert_eq!(trim_range(&tight, 0, 2), (0, 2));
}

#[test]
fn skipping_digits_and_whitespace_stops_at_other_characters() {
    let chars = chars_of("0 12\t\"v\"");
    assert_eq!(skip_digits_and_whitespace_from(&chars, 0, chars.len()), 5);
    let all = chars_of("0 1 2");
    assert_eq!(skip_digits_and_whitespace_from(&all, 0, all.len()), all.len());
    let none = chars_of("x1");
    assert_eq!(skip_digits_and_whitespace_from(&none, 0, 2), 0);
}

#[test]
fn str_equal_compares_characters() {
    assert!(str_equal("", ""));
    assert!(str_equal("localization", "localization"));
    assert!(!str_equal("localization", "localisation"));
    assert!(!str_equal("abc", "ab"));
    assert!(!str_equal("ab", "abc"));
    assert!(str_equal("\u{4e2d}\u{6587}", "\u{4e2d}\u{6587}"));
}

#[test]
fn str_less_is_the_order_of_strings() {
    let samples = [
        "", "0", "00_a", "a", "A", "a_overrides.yml", "ab", "abc", "b", "z_base.yml", "zz",
        "\u{e9}", "\u{4e2d}", "\u{1f600}", "a\u{e9}", "a\u{4e2d}", "~",
    ];
    for x in samples {
        for y in samples {
            assert_eq!(str_less(x, y), x < y, "{:?} < {:?}", x, y);
        }
    }
}
