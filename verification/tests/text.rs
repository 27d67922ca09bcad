use rust_fetch::text::{contains_comma_space, push_decimal, replace_all, strip_newlines, trim};

#[test]
fn decimal_notation() {
    let mut s = String::from("n=");
    push_decimal(&mut s, 0);
    assert_eq!(s, "n=0");
    let mut s = String::new();
    push_decimal(&mut s, 1234567890);
    assert_eq!(s, "1234567890");
    let mut s = String::new();
    push_decimal(&mut s, u64::MAX);
    assert_eq!(s, u64::MAX.to_string());
}

#[test]
fn replace_every_occurrence() {
    assert_eq!(replace_all("a\nb\n", '\n', ", "), "a, b, ");
    assert_eq!(replace_all("abc", '\n', ", "), "abc");
    assert_eq!(replace_all("", '\n', ", "), "");
}

#[test]
fn strip_line_breaks() {
    assert_eq!(strip_newlines("Adwaita-dark\n"), "Adwaita-dark");
    assert_eq!(strip_newlines("a\nb\n\n"), "ab");
}

#[test]
fn trim_white_space() {
    assert_eq!(trim("  87%\n"), "87%");
    assert_eq!(trim("\t\u{3000}a b\u{a0}"), "a b");
    assert_eq!(trim("   "), "");
    assert_eq!(trim(""), "");
    assert_eq!(trim("x"), "x");
}

#[test]
fn comma_space_search() {
    assert!(contains_comma_space("Intel, AMD"));
    assert!(!contains_comma_space("Intel,AMD"));
    assert!(!contains_comma_space(","));
    assert!(!contains_comma_space(""));
}
