use htgs::text::{copy_strings, same_text, to_text};

#[test]
fn text_of_utf8_is_its_decoding() {
    assert_eq!(to_text(b"plain"), "plain");
    assert_eq!(to_text(b""), "");
    assert_eq!(to_text("h\u{e9}llo \u{4e16}\u{1f600}".as_bytes()), "h\u{e9}llo \u{4e16}\u{1f600}");
}

#[test]
fn text_of_other_bytes_has_replacements() {
    assert_eq!(to_text(b"\xff"), "\u{fffd}");
    assert_eq!(to_text(b"a\xc3"), "a\u{fffd}");
    assert_eq!(to_text(b"a\xe4\xb8b"), "a\u{fffd}b");
    assert_eq!(to_text(b"\xed\xa0\x80"), "\u{fffd}\u{fffd}\u{fffd}");
}

#[test]
fn same_text_compares_characters() {
    assert!(same_text("", ""));
    assert!(same_text("abc", "abc"));
    assert!(same_text("h\u{e9}", "h\u{e9}"));
    assert!(!same_text("abc", "abd"));
    assert!(!same_text("abc", "ab"));
    assert!(!same_text("", "a"));
    assert!(!same_text("e", "\u{e9}"));
    assert!(!same_text("\u{e9}", "\u{e8}"));
}

#[test]
fn copy_strings_copies_each_string() {
    let list = vec!["a".to_string(), String::new(), "b c".to_string()];
    assert_eq!(copy_strings(&list), list);
    assert_eq!(copy_strings(&Vec::new()), Vec::<String>::new());
}
