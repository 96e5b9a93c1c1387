use sensitive_filter::dictionary::{is_blank, parse_dictionary};

fn by_std(text: &str) -> Vec<String> {
    text.lines()
        .filter(|line| !line.trim().is_empty())
        .map(|line| line.trim().to_string())
        .collect()
}

#[test]
fn lines_are_trimmed_and_blank_lines_dropped() {
    assert_eq!(
        parse_dictionary(" foo \n\nbar\r\n  \t \n baz"),
        vec!["foo".to_string(), "bar".to_string(), "baz".to_string()]
    );
}

#[test]
fn a_dictionary_of_blank_lines_holds_no_word() {
    assert!(parse_dictionary("").is_empty());
    assert!(parse_dictionary("\n").is_empty());
    assert!(parse_dictionary("  \n\t\n\r\n \u{3000} \n").is_empty());
}

#[test]
fn white_space_inside_a_word_stays() {
    assert_eq!(parse_dictionary("  a b  \n"), vec!["a b".to_string()]);
    assert_eq!(parse_dictionary("a\rb\n"), vec!["a\rb".to_string()]);
    assert_eq!(parse_dictionary("\u{3000}敏感 词\u{a0}\n"), vec!["敏感 词".to_string()]);
}

#[test]
fn the_last_line_needs_no_line_feed() {
    assert_eq!(parse_dictionary("one\ntwo"), vec!["one".to_string(), "two".to_string()]);
    assert_eq!(parse_dictionary("one\ntwo\n"), vec!["one".to_string(), "two".to_string()]);
    assert_eq!(parse_dictionary("one"), vec!["one".to_string()]);
}

#[test]
fn duplicate_lines_stay_in_order() {
    assert_eq!(
        parse_dictionary("b\na\nb\n"),
        vec!["b".to_string(), "a".to_string(), "b".to_string()]
    );
}

#[test]
fn white_space_is_what_the_standard_library_calls_white_space() {
    for code in 0..=0x10ffff_u32 {
        if let Some(c) = char::from_u32(code) {
            assert_eq!(is_blank(c), c.is_whitespace(), "U+{:04X}", code);
        }
    }
}

#[test]
fn parsing_agrees_with_lines_and_trim() {
    for text in [
        "",
        "\n\n",
        "a",
        " a \n b \r\n\r\nc\r",
        "\r\n\r\n x y \u{2003}\n\u{85}z\u{2028}\n",
        "tab\there\n  lead\ntrail  \n\n\n",
        "敏感\n 词 \n\u{feff}bom\n",
        "a\n\rb\n",
        "one\u{b}two\n\u{c}\nthree\u{1680}",
    ] {
        assert_eq!(parse_dictionary(text), by_std(text), "{:?}", text);
    }
}
