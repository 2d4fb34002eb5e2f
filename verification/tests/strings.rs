use working_memory::strings::{
    chars_of, collapse_whitespace, is_whitespace, join, same_text, truncate, utf8_len,
};

#[test]
fn white_space_agrees_with_the_standard_library() {
    for code in 0..=0x10ffffu32 {
        if let Some(c) = char::from_u32(code) {
            assert_eq!(is_whitespace(c), c.is_whitespace(), "{code:#x}");
        }
    }
}

#[test]
fn truncation_counts_characters() {
    assert_eq!(truncate("hello", 3), "hel");
    assert_eq!(truncate("hello", 5), "hello");
    assert_eq!(truncate("hello", 80), "hello");
    assert_eq!(truncate("hello", 0), "");
    assert_eq!(truncate("äöü€", 3), "äöü");
    assert_eq!(truncate("", 3), "");
}

#[test]
fn truncating_twice_changes_nothing() {
    let once = truncate("abcdefgh", 5);
    assert_eq!(truncate(&once, 5), once);
}

#[test]
fn collapsing_agrees_with_split_and_join() {
    for text in [
        "",
        " ",
        "\t\n",
        "one",
        " one ",
        "one two",
        "  one \n\t two\u{3000}three  ",
        "a\u{a0}b\u{2028}c",
        "a  b",
    ] {
        let expected = text.split_whitespace().collect::<Vec<_>>().join(" ");
        assert_eq!(collapse_whitespace(text), expected, "{text:?}");
        assert_eq!(collapse_whitespace(&expected), expected);
    }
}

#[test]
fn joining_puts_the_separator_between() {
    let parts = vec!["a".to_string(), "".to_string(), "bc".to_string()];
    assert_eq!(join(&parts, ", "), "a, , bc");
    assert_eq!(join(&parts[..1], ", "), "a");
    assert_eq!(join(&[], ", "), "");
}

#[test]
fn texts_are_compared_by_character() {
    assert!(same_text("", ""));
    assert!(same_text("user", "user"));
    assert!(!same_text("user", "users"));
    assert!(!same_text("user", "User"));
}

#[test]
fn bytes_and_characters_differ() {
    assert_eq!(utf8_len("aé€😀"), 10);
    assert_eq!(chars_of("aé€😀"), vec!['a', 'é', '€', '😀']);
}
