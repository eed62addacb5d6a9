use hank::text::{is_alphabetic, is_alphanumeric, is_whitespace, path_file_stem, replace, text_contains, text_eq, trim};

#[test]
fn file_stem_of_paths() {
    assert_eq!(path_file_stem("lib/utils.hank").as_deref(), Some("utils"));
    assert_eq!(path_file_stem("a/b").as_deref(), Some("b"));
    assert_eq!(path_file_stem("a.tar.gz").as_deref(), Some("a.tar"));
    assert_eq!(path_file_stem(".hidden").as_deref(), Some(".hidden"));
    assert_eq!(path_file_stem("dir/").as_deref(), Some("dir"));
    assert_eq!(path_file_stem("./x.y").as_deref(), Some("x"));
    assert_eq!(path_file_stem("a/.").as_deref(), Some("a"));
    assert_eq!(path_file_stem(".."), None);
    assert_eq!(path_file_stem(""), None);
    assert_eq!(path_file_stem("/"), None);
}

#[test]
fn replace_scans_from_the_left() {
    assert_eq!(replace("aaa", "a", "b"), "bbb");
    assert_eq!(replace("abab", "ab", "x"), "xx");
    assert_eq!(replace("aaa", "aa", "b"), "ba");
    assert_eq!(replace("xyz", "q", "r"), "xyz");
}

#[test]
fn trim_removes_outer_whitespace() {
    assert_eq!(trim("  a b \n"), "a b");
    assert_eq!(trim("\t\r\n"), "");
    assert_eq!(trim("x"), "x");
}

#[test]
fn contains_and_equality() {
    assert!(text_contains("hello", "ll"));
    assert!(text_contains("hello", ""));
    assert!(!text_contains("", "a"));
    assert!(!text_contains("hello", "lo!"));
    assert!(text_eq("abc", "abc"));
    assert!(!text_eq("abc", "abd"));
    assert!(!text_eq("abc", "ab"));
}

#[test]
fn trim_twice_is_trim_once() {
    for s in ["  a b \n", "", " \t ", "x", "\u{2003}y\u{2003}"] {
        let once = trim(s);
        assert_eq!(trim(&once), once);
    }
    assert_eq!(trim("\u{2003}y\u{2003}"), "y");
}

#[test]
fn whitespace_class_agrees_with_std_on_every_char() {
    for code in 0u32..=0x10FFFF {
        if let Some(c) = char::from_u32(code) {
            assert_eq!(is_whitespace(c), c.is_whitespace(), "U+{:04X}", code);
        }
    }
}

#[test]
fn ascii_letters_and_digits_are_classified() {
    for b in 0u8..128 {
        let c = b as char;
        assert_eq!(is_alphabetic(c), c.is_ascii_alphabetic());
        assert_eq!(is_alphanumeric(c), c.is_ascii_alphanumeric());
    }
    assert!(is_alphabetic('é'));
    assert!(!is_alphanumeric('€'));
}
