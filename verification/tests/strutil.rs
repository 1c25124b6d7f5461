use i18n_app::strutil::{is_blank, join_prefix, remove_all, split_dots, str_eq, str_starts_with,
    trim_both_char, trim_end_char};

#[test]
fn test_split_dots() {
    assert_eq!(split_dots("a.b.c"), vec!["a", "b", "c"]);
    assert_eq!(split_dots("plain"), vec!["plain"]);
    assert_eq!(split_dots(""), vec![""]);
    assert_eq!(split_dots("a..b"), vec!["a", "", "b"]);
}

#[test]
fn test_join_prefix() {
    assert_eq!(join_prefix("", "key"), "key");
    assert_eq!(join_prefix("parent", "child"), "parent.child");
    assert_eq!(join_prefix("a.b", "c"), "a.b.c");
}

#[test]
fn test_is_blank() {
    assert!(is_blank(""));
    assert!(is_blank(" \t\r\n"));
    assert!(is_blank("\u{000B}\u{000C}\u{0085}\u{00A0}\u{2003}\u{202F}\u{3000}"));
    assert!(!is_blank(" x "));
    // blank means exactly what str::trim removes
    assert_eq!(is_blank("\u{200B}"), "\u{200B}".trim().is_empty());
}

#[test]
fn test_str_eq_and_starts_with() {
    assert!(str_eq("abc", "abc"));
    assert!(!str_eq("abc", "abd"));
    assert!(!str_eq("abc", "ab"));
    assert!(str_starts_with("fixtures/en.json", "fixtures/"));
    assert!(!str_starts_with("fix", "fixtures/"));
}

#[test]
fn test_remove_all() {
    assert_eq!(remove_all("fixtures/locales/*.json", "fixtures/"), "locales/*.json");
    assert_eq!(remove_all("a/fixtures/b", "fixtures/"), "a/b");
    assert_eq!(remove_all("nothing", "fixtures/"), "nothing");
}

#[test]
fn test_trim_chars() {
    assert_eq!(trim_end_char("path///", '/'), "path");
    assert_eq!(trim_both_char("//mid//", '/'), "mid");
    assert_eq!(trim_both_char("////", '/'), "");
}
