use sqlrite::text::{first_char, split_ascii_prefix, split_str, str_eq};

#[test]
fn first_char_of_a_string() {
    assert_eq!(first_char("abc"), Some('a'));
    assert_eq!(first_char("éa"), Some('é'));
    assert_eq!(first_char(""), None);
}

#[test]
fn split_between_characters() {
    assert_eq!(split_str("héllo", 3), ("hé", "llo"));
    assert_eq!(split_str("héllo", 0), ("", "héllo"));
    assert_eq!(split_str("héllo", 6), ("héllo", ""));
    assert_eq!(split_ascii_prefix("abc é", 4), ("abc ", "é"));
    assert_eq!(split_ascii_prefix("abc", 0), ("", "abc"));
}

#[test]
fn strings_are_equal_when_their_characters_are() {
    assert!(str_eq("select", "select"));
    assert!(str_eq("", ""));
    assert!(str_eq("é", "\u{e9}"));
    assert!(!str_eq("select", "selec"));
    assert!(!str_eq("select", "selecT"));
    assert!(!str_eq("a", ""));
}
