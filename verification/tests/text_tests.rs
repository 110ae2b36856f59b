use soletra::text::{chars_of, lines_of, parse_usize, replace_char, split_once_chars, string_of, trim_chars, white_space};

fn cs(s: &str) -> Vec<char> {
    s.chars().collect()
}

#[test]
fn chars_and_string_round_trip() {
    assert_eq!(chars_of("açaí"), vec!['a', 'ç', 'a', 'í']);
    assert_eq!(string_of(&['o', 'l', 'á']), "olá".to_string());
    assert_eq!(string_of(&[]), String::new());
}

#[test]
fn white_space_follows_unicode() {
    assert!(white_space(' '));
    assert!(white_space('\t'));
    assert!(white_space('\n'));
    assert!(white_space('\u{a0}'));
    assert!(white_space('\u{3000}'));
    assert!(!white_space('a'));
    assert!(!white_space('\u{200b}'));
}

#[test]
fn trim_drops_surrounding_white_space() {
    assert_eq!(trim_chars(&cs("  word \t\n")), cs("word"));
    assert_eq!(trim_chars(&cs("a b")), cs("a b"));
    assert_eq!(trim_chars(&cs("   ")), cs(""));
}

#[test]
fn lines_split_like_str_lines() {
    let text = "one\r\ntwo\n\nthree\n";
    let expected: Vec<Vec<char>> = text.lines().map(|l| l.chars().collect()).collect();
    assert_eq!(lines_of(&cs(text)), expected);
    assert_eq!(lines_of(&cs("")), Vec::<Vec<char>>::new());
    assert_eq!(lines_of(&cs("\n")), vec![cs("")]);
}

#[test]
fn split_once_at_first_separator() {
    assert_eq!(split_once_chars(&cs("a,b,c"), ','), Some((cs("a"), cs("b,c"))));
    assert_eq!(split_once_chars(&cs("abc"), ','), None);
    assert_eq!(split_once_chars(&cs(",x"), ','), Some((cs(""), cs("x"))));
}

#[test]
fn parse_usize_like_str_parse() {
    assert_eq!(parse_usize(&cs("70000")), Some(70000));
    assert_eq!(parse_usize(&cs("+12")), Some(12));
    assert_eq!(parse_usize(&cs("007")), Some(7));
    assert_eq!(parse_usize(&cs("")), None);
    assert_eq!(parse_usize(&cs("+")), None);
    assert_eq!(parse_usize(&cs("-1")), None);
    assert_eq!(parse_usize(&cs("1 2")), None);
    assert_eq!(parse_usize(&cs("99999999999999999999999999")), None);
    assert_eq!(parse_usize(&cs(&usize::MAX.to_string())), Some(usize::MAX));
}

#[test]
fn replace_char_replaces_every_occurrence() {
    assert_eq!(replace_char(&cs("açúçar"), 'ç', 'c'), cs("acúcar"));
    assert_eq!(replace_char(&cs("abc"), 'x', 'y'), cs("abc"));
}
