//! Tests for the provider table.

use std::collections::HashSet;

use jetbrains_search_provider::registry::busname;
use jetbrains_search_provider::registry::providers;

#[test]
fn desktop_ids_are_unique() {
    let table = providers();
    let mut ids = HashSet::new();
    for provider in &table {
        ids.insert(provider.desktop_id.clone());
    }
    assert_eq!(table.len(), ids.len());
}

#[test]
fn dbus_paths_are_unique() {
    let table = providers();
    let mut paths = HashSet::new();
    for provider in &table {
        paths.insert(provider.objpath());
    }
    assert_eq!(table.len(), paths.len());
}

#[test]
fn objpath_has_the_service_prefix() {
    let table = providers();
    assert_eq!(
        table[0].objpath(),
        "/de/swsnr/searchprovider/jetbrains/toolbox/clion"
    );
    for provider in &table {
        assert!(provider
            .objpath()
            .starts_with("/de/swsnr/searchprovider/jetbrains/"));
    }
}

#[test]
fn busname_is_the_service_name() {
    assert_eq!(busname(), "de.swsnr.searchprovider.Jetbrains");
}

#[test]
fn rider_reads_recent_solutions() {
    let table = providers();
    let rider = table
        .iter()
        .find(|p| p.desktop_id == "jetbrains-rider.desktop")
        .unwrap();
    assert_eq!(rider.config.projects_filename, "recentSolutions.xml");
    for provider in &table {
        if provider.desktop_id != "jetbrains-rider.desktop" {
            assert_eq!(provider.config.projects_filename, "recentProjects.xml");
        }
    }
}
