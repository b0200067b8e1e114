//! Tests for the character-level text helpers.

use jetbrains_search_provider::text::replace_token_str;
use jetbrains_search_provider::text::str_contains;
use jetbrains_search_provider::text::str_eq;
use jetbrains_search_provider::text::trim_str;

#[test]
fn contains_finds_substrings() {
    assert!(str_contains("hello world", "lo wo"));
    assert!(str_contains("hello", ""));
    assert!(!str_contains("hello", "world"));
    assert!(!str_contains("lo", "hello"));
}

#[test]
fn string_equality_is_by_characters() {
    assert!(str_eq("mdcat", "mdcat"));
    assert!(!str_eq("mdcat", "mdCat"));
    assert!(!str_eq("mdcat", "mdcats"));
}

#[test]
fn replace_substitutes_every_occurrence() {
    assert_eq!(replace_token_str("$H$/a/$H$/b", "$H$", "/home"), "/home/a//home/b");
    assert_eq!(replace_token_str("no placeholder", "$H$", "/home"), "no placeholder");
    assert_eq!(replace_token_str("aaa", "aa", "b"), "ba");
    assert_eq!(replace_token_str("anything", "", "x"), "anything");
}

#[test]
fn trim_removes_surrounding_whitespace() {
    assert_eq!(trim_str("  a name \n"), "a name");
    assert_eq!(trim_str("plain"), "plain");
    assert_eq!(trim_str(" \t\n"), "");
    assert_eq!(trim_str("inner  space"), "inner  space");
}
