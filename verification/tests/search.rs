//! Tests for the item-matching engine.

use jetbrains_search_provider::find_matching_projects;
use jetbrains_search_provider::RecentItem;

fn do_match(projects: &[(&str, &str, &str)], terms: &[&str]) -> Vec<String> {
    let pairs: Vec<(String, RecentItem)> = projects
        .iter()
        .map(|(id, name, path)| {
            (
                id.to_string(),
                RecentItem {
                    name: name.to_string(),
                    path: path.to_string(),
                },
            )
        })
        .collect();
    let terms: Vec<String> = terms.iter().map(|t| t.to_string()).collect();
    find_matching_projects(&pairs, &terms)
}

#[test]
fn matches_something() {
    let projects = [("foo", "mdcat", "/home/foo/dev/mdcat")];
    assert_eq!(do_match(&projects, &["mdcat"]), ["foo"]);
}

#[test]
fn do_not_find_undesired_projects() {
    let projects = [
        (
            "foo-1",
            "ui-pattern-library",
            "/home/foo/dev/something/ui-pattern-library",
        ),
        ("foo-2", "dauntless-builder", "/home/foo/dev/dauntless-builder"),
        ("foo-3", "typo3-ssr", "/home/foo/dev/something/typo3-ssr"),
    ];
    assert!(do_match(&projects, &["flutter_test_app"]).is_empty());
}

#[test]
fn ignore_case_of_name() {
    let projects = [("foo", "mdCat", "/home/foo/dev/foo")];
    assert_eq!(do_match(&projects, &["Mdcat"]), ["foo"]);
}

#[test]
fn ignore_case_of_path() {
    let projects = [("foo", "bar", "/home/foo/dev/mdcaT")];
    assert_eq!(do_match(&projects, &["Mdcat"]), ["foo"]);
}

#[test]
fn empty_terms_match_everything() {
    let projects = [
        ("a", "one", "/p/one"),
        ("b", "two", "/p/two"),
    ];
    assert_eq!(do_match(&projects, &[]), ["a", "b"]);
}

#[test]
fn term_may_hit_either_field() {
    // One term hits only the name, the other only the path.
    let projects = [("a", "frontend", "/work/website/app")];
    assert_eq!(do_match(&projects, &["front", "website"]), ["a"]);
    // A term that hits neither field rules the item out.
    assert!(do_match(&projects, &["front", "backend"]).is_empty());
}

#[test]
fn order_is_input_order() {
    let projects = [
        ("late", "zeta", "/dev/zeta"),
        ("early", "alpha", "/dev/alpha"),
        ("mid", "zeta-two", "/dev/zeta-two"),
    ];
    assert_eq!(do_match(&projects, &["zeta"]), ["late", "mid"]);
}
