use chat_core::text::check_all_alnum;
use chat_core::text::find_char;
use chat_core::text::starts_with_str;
use chat_core::text::str_eq;
use chat_core::text::strip_prefix_repeated;
use chat_core::text::to_lower;
use chat_core::text::trim;

#[test]
fn trim_removes_surrounding_whitespace() {
    assert_eq!(trim("  hello world \t"), "hello world");
    assert_eq!(trim("\r\n x \r\n"), "x");
    assert_eq!(trim("plain"), "plain");
}

#[test]
fn trim_of_all_whitespace_is_empty() {
    assert_eq!(trim("   "), "");
    assert_eq!(trim(""), "");
}

#[test]
fn to_lower_folds_ascii_only() {
    assert_eq!(to_lower("AbC1"), "abc1");
    assert_eq!(to_lower("YES"), "yes");
    assert_eq!(to_lower("déjà"), "déjà");
}

#[test]
fn str_eq_compares_contents() {
    assert!(str_eq("abc", "abc"));
    assert!(!str_eq("abc", "abd"));
    assert!(!str_eq("abc", "ab"));
    assert!(str_eq("", ""));
}

#[test]
fn find_char_reports_first_occurrence() {
    assert_eq!(find_char("a:b:c", ':'), Some(1));
    assert_eq!(find_char("abc", ':'), None);
    assert_eq!(find_char(":x", ':'), Some(0));
}

#[test]
fn alphanumeric_check_admits_letters_and_digits_only() {
    assert!(check_all_alnum("carol"));
    assert!(check_all_alnum("c4r0l"));
    assert!(!check_all_alnum("ca rol"));
    assert!(!check_all_alnum("ca-rol"));
    assert!(check_all_alnum(""));
}

#[test]
fn prefix_tests_and_stripping() {
    assert!(starts_with_str("file:bob", "file:"));
    assert!(!starts_with_str("fil", "file:"));
    assert_eq!(strip_prefix_repeated("file:bob", "file:"), "bob");
    assert_eq!(strip_prefix_repeated("file:file:bob", "file:"), "bob");
    assert_eq!(strip_prefix_repeated("bob", "file:"), "bob");
}
