use arp_scan::text::{
    chars_of, is_whitespace, join_lines, pad_to, scan_from, split_lines, string_of, trimmed,
    CharClass,
};

fn chars(s: &str) -> Vec<char> {
    s.chars().collect()
}

fn lines_of(s: &str) -> Vec<String> {
    split_lines(&chars(s)).into_iter().map(|l| l.into_iter().collect()).collect()
}

#[test]
fn white_space_is_that_of_unicode() {
    for c in '\0'..='\u{3100}' {
        assert_eq!(is_whitespace(c), c.is_whitespace(), "U+{:04X}", c as u32);
    }
    assert!(!is_whitespace('\u{feff}'));
    assert!(!is_whitespace('\u{200b}'));
    assert!(!is_whitespace('\u{10ffff}'));
}

#[test]
fn lines_end_at_line_feeds() {
    assert_eq!(lines_of(""), Vec::<String>::new());
    assert_eq!(lines_of("a"), vec!["a"]);
    assert_eq!(lines_of("a\n"), vec!["a"]);
    assert_eq!(lines_of("a\nb"), vec!["a", "b"]);
    assert_eq!(lines_of("a\n\nb\n"), vec!["a", "", "b"]);
    assert_eq!(lines_of("\n"), vec![""]);
    assert_eq!(lines_of("\n\n"), vec!["", ""]);
}

#[test]
fn a_carriage_return_before_a_line_feed_belongs_to_the_line_end() {
    assert_eq!(lines_of("a\r\nb\r\n"), vec!["a", "b"]);
    assert_eq!(lines_of("a\r\r\nb"), vec!["a\r", "b"]);
    assert_eq!(lines_of("a\rb\n"), vec!["a\rb"]);
    assert_eq!(lines_of("a\r"), vec!["a\r"]);
    assert_eq!(lines_of("\r\n"), vec![""]);
}

#[test]
fn lines_are_those_of_the_standard_library() {
    for text in ["", "a", "a\n", "\n", "a\r\n\r\nb", "x\r", "x\r\n", "\r", "\n\r\n", "a\n\rb\r\r\n\n"] {
        let expected: Vec<String> = text.lines().map(|l| l.to_string()).collect();
        assert_eq!(lines_of(text), expected, "{:?}", text);
    }
}

#[test]
fn joined_lines_are_each_ended() {
    assert_eq!(join_lines(&vec![]), chars(""));
    assert_eq!(join_lines(&vec![chars("a")]), chars("a\n"));
    assert_eq!(join_lines(&vec![chars("a"), chars(""), chars("b c")]), chars("a\n\nb c\n"));
    assert_eq!(lines_of("a\n\nb c\n"), vec!["a", "", "b c"]);
}

#[test]
fn trimming_takes_white_space_from_both_ends() {
    let text = chars(" \t a b \u{a0}\r\n");
    assert_eq!(trimmed(&text, 0, text.len()), chars("a b"));
    assert_eq!(trimmed(&text, 3, 6), chars("a b"));
    assert_eq!(trimmed(&text, 0, 3), chars(""));
    assert_eq!(trimmed(&text, 4, 4), chars(""));
    assert_eq!(trimmed(&chars("abc"), 0, 3), chars("abc"));
    let expected: Vec<char> = " \t a b \u{a0}\r\n".trim().chars().collect();
    assert_eq!(trimmed(&text, 0, text.len()), expected);
}

#[test]
fn a_scan_stops_at_the_first_character_of_the_class() {
    let text = chars("ab = cd=");
    assert_eq!(scan_from(&text, 0, CharClass::Exactly('=')), 3);
    assert_eq!(scan_from(&text, 3, CharClass::Exactly('=')), 3);
    assert_eq!(scan_from(&text, 4, CharClass::Exactly('=')), 7);
    assert_eq!(scan_from(&text, 8, CharClass::Exactly('=')), 8);
    assert_eq!(scan_from(&text, 0, CharClass::Exactly('x')), 8);
    assert_eq!(scan_from(&text, 0, CharClass::Space), 2);
    assert_eq!(scan_from(&text, 2, CharClass::Solid), 3);
    assert_eq!(scan_from(&text, 0, CharClass::Solid), 0);
    assert!(CharClass::Space.contains(' '));
    assert!(!CharClass::Solid.contains(' '));
    assert!(CharClass::Exactly('q').contains('q'));
    assert!(!CharClass::Exactly('q').contains('Q'));
}

#[test]
fn padding_fills_up_with_blanks() {
    let mut v = chars("abc");
    pad_to(&mut v, 6);
    assert_eq!(v, chars("abc   "));
    pad_to(&mut v, 6);
    assert_eq!(v, chars("abc   "));
    pad_to(&mut v, 2);
    assert_eq!(v, chars("abc   "));
    let mut empty = chars("");
    pad_to(&mut empty, 0);
    assert_eq!(empty, chars(""));
    pad_to(&mut empty, 2);
    assert_eq!(empty, chars("  "));
}

#[test]
fn strings_and_characters_convert() {
    assert_eq!(chars_of("a\u{df}\u{1f600}"), vec!['a', '\u{df}', '\u{1f600}']);
    assert_eq!(string_of(&chars("hello"), 1, 4), "ell");
    assert_eq!(string_of(&chars("hello"), 2, 2), "");
}
