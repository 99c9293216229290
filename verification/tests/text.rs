use lib::names::Name;
use lib::text::{is_whitespace, substring, utf8_width};
use lib::wrap::each_split_within;

fn words(v: &[&str]) -> Vec<String> {
    v.iter().map(|s| s.to_string()).collect()
}

#[test]
fn widths_of_characters() {
    assert_eq!(utf8_width('a'), 1);
    assert_eq!(utf8_width('é'), 2);
    assert_eq!(utf8_width('€'), 3);
    assert_eq!(utf8_width('😀'), 4);
}

#[test]
fn whitespace_set() {
    assert!(is_whitespace(' '));
    assert!(is_whitespace('\t'));
    assert!(is_whitespace('\n'));
    assert!(is_whitespace('\u{3000}'));
    assert!(!is_whitespace('a'));
    assert!(!is_whitespace('\u{200B}'));
    for c in ['\u{85}', '\u{a0}', '\u{1680}', '\u{2007}', '\u{2028}', '\u{202f}', 'x', '-'] {
        assert_eq!(is_whitespace(c), c.is_whitespace());
    }
}

#[test]
fn string_builders() {
    assert_eq!(substring("héllo", 1, 3), "él");
}

#[test]
fn names_from_strings() {
    assert_eq!(Name::from_str("h"), Name::Short('h'));
    assert_eq!(Name::from_str("help"), Name::Long("help".to_string()));
    assert_eq!(Name::from_str("é"), Name::Long("é".to_string()));
    assert_eq!(Name::Short('x').to_string(), "x");
    assert_eq!(Name::Long("xy".to_string()).to_string(), "xy");
}

#[test]
fn split_within_limit() {
    assert_eq!(each_split_within("hello world foo", 11), words(&["hello world", "foo"]));
    assert_eq!(each_split_within("  a b  ", 100), words(&["a b"]));
    assert_eq!(each_split_within("", 10), Vec::<String>::new());
    assert_eq!(each_split_within("averylongword x", 4), words(&["averylongword", "x"]));
}
