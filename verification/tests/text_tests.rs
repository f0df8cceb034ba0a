use school_desk::text::{chars_of, file_extension, like_pattern, spells, to_slash};

#[test]
fn backslashes_become_slashes() {
    assert_eq!(to_slash("2026\\School_A\\images\\a.jpg"), "2026/School_A/images/a.jpg");
    assert_eq!(to_slash("already/fine"), "already/fine");
    assert_eq!(to_slash(""), "");
}

#[test]
fn like_pattern_wraps_text_in_wildcards() {
    assert_eq!(like_pattern("abc"), "%abc%");
    assert_eq!(like_pattern(""), "%%");
    assert_eq!(like_pattern("ครู"), "%ครู%");
}

#[test]
fn extension_is_last_dot_piece() {
    assert_eq!(file_extension("a.b.JPG"), "JPG");
    assert_eq!(file_extension("noext"), "noext");
    assert_eq!(file_extension("trailing."), "");
    assert_eq!(file_extension(".hidden"), "hidden");
    assert_eq!(file_extension(""), "");
}

#[test]
fn chars_and_spelling() {
    assert_eq!(chars_of("ab"), vec!['a', 'b']);
    assert!(spells("png", &vec!['p', 'n', 'g']));
    assert!(!spells("pn", &vec!['p', 'n', 'g']));
    assert!(!spells("pnx", &vec!['p', 'n', 'g']));
}
