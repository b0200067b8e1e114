//! Tests for the provider state machine behind the search protocol.

use jetbrains_search_provider::provider::get_project_name;
use jetbrains_search_provider::provider::LoadOutcome;
use jetbrains_search_provider::provider::ProjectEntry;
use jetbrains_search_provider::provider::ProviderError;
use jetbrains_search_provider::provider::SearchProvider;
use jetbrains_search_provider::record::read_recent_jetbrains_projects;

fn entry(path: &str, marker: Option<&str>) -> ProjectEntry {
    ProjectEntry {
        path: path.to_string(),
        marker: marker.map(|m| m.to_string()),
    }
}

fn terms(list: &[&str]) -> Vec<String> {
    list.iter().map(|t| t.to_string()).collect()
}

fn loaded_provider() -> SearchProvider {
    let mut provider = SearchProvider::new("idea".to_string(), "idea-icon".to_string());
    let outcome = LoadOutcome::Loaded(vec![
        entry("/home/u/Code/mdcat", None),
        entry("/home/u/Code/site", Some(" ui-pattern-library \n")),
        entry("/home/u/Code/builder", Some("dauntless-builder")),
    ]);
    provider
        .get_initial_result_set(outcome, &terms(&[]))
        .unwrap();
    provider
}

#[test]
fn initial_search_returns_matching_ids() {
    let mut provider = SearchProvider::new("idea".to_string(), "icon".to_string());
    let outcome = LoadOutcome::Loaded(vec![
        entry("/home/u/Code/mdcat", None),
        entry("/home/u/Code/other", Some("notes")),
    ]);
    let ids = provider
        .get_initial_result_set(outcome, &terms(&["mdcat"]))
        .unwrap();
    assert_eq!(ids, ["jetbrains-search-provider-idea-/home/u/Code/mdcat"]);
}

#[test]
fn failed_refresh_leaves_index_empty_and_errors() {
    let mut provider = loaded_provider();
    assert!(!provider
        .get_result_metas(&vec![
            "jetbrains-search-provider-idea-/home/u/Code/mdcat".to_string()
        ])
        .is_empty());

    // A malformed record makes the record reader fail; the refresh then
    // surfaces an operation-failed error and must not serve stale results.
    let parse_error = read_recent_jetbrains_projects(b"<oops", "/home/u").unwrap_err();
    let result = provider.get_initial_result_set(LoadOutcome::Failed(parse_error), &terms(&["md"]));
    match result {
        Err(ProviderError::OperationFailed(message)) => {
            assert!(message.starts_with("Failed to update recent projects for idea: "));
        }
        other => panic!("expected an operation-failed error, got {:?}", other.is_ok()),
    }
    assert!(provider
        .get_result_metas(&vec![
            "jetbrains-search-provider-idea-/home/u/Code/mdcat".to_string()
        ])
        .is_empty());
}

#[test]
fn missing_record_yields_no_results() {
    let mut provider = loaded_provider();
    let ids = provider
        .get_initial_result_set(LoadOutcome::Missing, &terms(&[]))
        .unwrap();
    assert!(ids.is_empty());
}

#[test]
fn subsearch_refines_previous_results() {
    let mut provider = loaded_provider();
    let all = provider
        .get_initial_result_set(
            LoadOutcome::Loaded(vec![
                entry("/home/u/Code/mdcat", None),
                entry("/home/u/Code/builder", Some("dauntless-builder")),
            ]),
            &terms(&[]),
        )
        .unwrap();
    assert_eq!(all.len(), 2);
    let narrowed = provider.get_subsearch_result_set(&all, &terms(&["builder"]));
    assert_eq!(
        narrowed,
        ["jetbrains-search-provider-idea-/home/u/Code/builder"]
    );
    // Refining the refined set with the same terms changes nothing.
    let again = provider.get_subsearch_result_set(&narrowed, &terms(&["builder"]));
    assert_eq!(again, narrowed);
}

#[test]
fn subsearch_drops_stale_ids_silently() {
    let provider = loaded_provider();
    let previous = vec![
        "jetbrains-search-provider-idea-/home/u/Code/mdcat".to_string(),
        "jetbrains-search-provider-idea-/gone".to_string(),
    ];
    let ids = provider.get_subsearch_result_set(&previous, &terms(&[]));
    assert_eq!(ids, ["jetbrains-search-provider-idea-/home/u/Code/mdcat"]);
}

#[test]
fn result_metas_keep_only_valid_ids_in_order() {
    let provider = loaded_provider();
    let request = vec![
        "jetbrains-search-provider-idea-/home/u/Code/site".to_string(),
        "jetbrains-search-provider-idea-/stale".to_string(),
        "jetbrains-search-provider-idea-/home/u/Code/mdcat".to_string(),
    ];
    let metas = provider.get_result_metas(&request);
    assert_eq!(metas.len(), 2);
    assert_eq!(metas[0].id, request[0]);
    assert_eq!(metas[0].name, "ui-pattern-library");
    assert_eq!(metas[0].gicon, "idea-icon");
    assert_eq!(metas[0].description, "/home/u/Code/site");
    assert_eq!(metas[1].id, request[2]);
    assert_eq!(metas[1].name, "mdcat");
    assert_eq!(metas[1].description, "/home/u/Code/mdcat");
}

#[test]
fn activate_result_hands_back_the_path() {
    let provider = loaded_provider();
    let path = provider
        .activate_result("jetbrains-search-provider-idea-/home/u/Code/builder")
        .unwrap();
    assert_eq!(path, "/home/u/Code/builder");
}

#[test]
fn activate_result_unknown_id_is_not_found() {
    let provider = loaded_provider();
    match provider.activate_result("jetbrains-search-provider-idea-/gone") {
        Err(ProviderError::NotFound(message)) => {
            assert_eq!(
                message,
                "Result jetbrains-search-provider-idea-/gone not found"
            );
        }
        _ => panic!("expected a not-found error"),
    }
}

#[test]
fn duplicate_paths_overwrite_in_place() {
    let mut provider = SearchProvider::new("idea".to_string(), "icon".to_string());
    let outcome = LoadOutcome::Loaded(vec![
        entry("/home/u/Code/p", Some("first")),
        entry("/home/u/Code/q", None),
        entry("/home/u/Code/p", Some("second")),
    ]);
    let ids = provider.get_initial_result_set(outcome, &terms(&[])).unwrap();
    assert_eq!(
        ids,
        [
            "jetbrains-search-provider-idea-/home/u/Code/p",
            "jetbrains-search-provider-idea-/home/u/Code/q",
        ]
    );
    let item = provider
        .lookup("jetbrains-search-provider-idea-/home/u/Code/p")
        .unwrap();
    assert_eq!(item.name, "second");
}

#[test]
fn project_name_prefers_trimmed_marker() {
    assert_eq!(
        get_project_name("/home/u/Code/x", Some(&"  My Project \n".to_string())),
        Some("My Project".to_string())
    );
    assert_eq!(get_project_name("/home/u/Code/x", None), Some("x".to_string()));
    assert_eq!(get_project_name("///", None), None);
}
