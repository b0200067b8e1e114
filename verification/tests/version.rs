//! Tests for the versioned-configuration resolver.

use jetbrains_search_provider::version::ConfigLocation;
use jetbrains_search_provider::version::VersionedPath;

fn location() -> ConfigLocation {
    ConfigLocation {
        vendor_dir: "JetBrains".to_string(),
        config_glob: "IdeaIC*".to_string(),
        projects_filename: "recentProjects.xml".to_string(),
    }
}

#[test]
fn versioned_path_extract() {
    let path = dirs::home_dir()
        .expect("Must have homedir for test")
        .join(".config")
        .join("JetBrains")
        .join("IdeaIC2021.1");
    let path = path.to_str().unwrap().to_string();
    let versioned_path = VersionedPath::extract_version(path).unwrap();
    assert_eq!(versioned_path.version, (2021, 1))
}

#[test]
fn no_version_in_name() {
    assert!(VersionedPath::extract_version("/etc/JetBrains/Rider".to_string()).is_none());
    assert!(VersionedPath::extract_version("".to_string()).is_none());
    assert!(VersionedPath::extract_version("/a/b/".to_string()).is_none());
}

#[test]
fn version_is_read_from_final_segment() {
    // The version-bearing parent directory does not count, only the final
    // segment does.
    let vp = VersionedPath::extract_version("/opt/Tool9.9/Foo10.1".to_string()).unwrap();
    assert_eq!(vp.version, (10, 1));
    assert_eq!(vp.path, "/opt/Tool9.9/Foo10.1");
}

#[test]
fn resolver_picks_greatest_version() {
    let entries = vec![
        "/cfg/Foo9.0".to_string(),
        "/cfg/Foo10.1".to_string(),
        "/cfg/Foo2.3".to_string(),
    ];
    let best = location().find_config_dir_of_latest_version(&entries).unwrap();
    assert_eq!(best.path, "/cfg/Foo10.1");
    assert_eq!(best.version, (10, 1));
}

#[test]
fn resolver_tie_takes_later_entry() {
    let entries = vec!["/cfg/A2021.1".to_string(), "/cfg/B2021.1".to_string()];
    let best = location().find_config_dir_of_latest_version(&entries).unwrap();
    assert_eq!(best.path, "/cfg/B2021.1");
}

#[test]
fn resolver_ignores_unversioned_entries() {
    let entries = vec!["/cfg/new".to_string(), "/cfg/backup".to_string()];
    assert!(location().find_config_dir_of_latest_version(&entries).is_none());
    assert!(location().find_latest_recent_projects_file(&entries).is_none());
}

#[test]
fn projects_file_is_under_options() {
    let entries = vec!["/cfg/IdeaIC2020.3".to_string(), "/cfg/IdeaIC2021.1".to_string()];
    let file = location().find_latest_recent_projects_file(&entries).unwrap();
    assert_eq!(file, "/cfg/IdeaIC2021.1/options/recentProjects.xml");
}

#[test]
fn into_path_returns_the_path() {
    let vp = VersionedPath::extract_version("/cfg/IdeaIC2021.1".to_string()).unwrap();
    assert_eq!(vp.into_path(), "/cfg/IdeaIC2021.1");
}
