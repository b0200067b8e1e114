//! Tests for the recent projects record reader.

use jetbrains_search_provider::record::read_recent_jetbrains_projects;

fn record_with_keys(keys: &[&str]) -> String {
    let mut doc = String::from("<application>\n  <component name=\"RecentProjectsManager\">\n");
    doc.push_str("    <option name=\"additionalInfo\">\n      <map>\n");
    for key in keys {
        doc.push_str("        <entry key=\"");
        doc.push_str(key);
        doc.push_str("\">\n          <value/>\n        </entry>\n");
    }
    doc.push_str("      </map>\n    </option>\n  </component>\n</application>\n");
    doc
}

#[test]
fn read_recent_projects() {
    let data = record_with_keys(&[
        "$USER_HOME$/Code/gh/mdcat",
        "$USER_HOME$/Code/gh/gnome-search-providers-jetbrains",
    ]);
    let home = dirs::home_dir().unwrap();
    let home = home.to_str().unwrap();
    let projects = read_recent_jetbrains_projects(data.as_bytes(), home).unwrap();

    assert_eq!(
        projects,
        vec![
            format!("{}/Code/gh/mdcat", home),
            format!("{}/Code/gh/gnome-search-providers-jetbrains", home),
        ]
    )
}

#[test]
fn home_placeholder_is_substituted_in_order() {
    let data = record_with_keys(&["$USER_HOME$/Code/a", "$USER_HOME$/Code/b"]);
    let projects = read_recent_jetbrains_projects(data.as_bytes(), "/home/u").unwrap();
    assert_eq!(projects, vec!["/home/u/Code/a", "/home/u/Code/b"]);
}

#[test]
fn malformed_record_is_an_error() {
    let data = b"<application><component name=";
    assert!(read_recent_jetbrains_projects(data, "/home/u").is_err());
}

#[test]
fn record_without_component_has_no_items() {
    let data = b"<application><component name=\"Other\"/></application>";
    let projects = read_recent_jetbrains_projects(data, "/home/u").unwrap();
    assert!(projects.is_empty());
}

#[test]
fn entry_without_key_is_passed_over() {
    let data = "<application><component name=\"RecentProjectsManager\">\
                <option name=\"additionalInfo\"><map>\
                <entry other=\"x\"/>\
                <entry key=\"/srv/kept\"/>\
                </map></option></component></application>";
    let projects = read_recent_jetbrains_projects(data.as_bytes(), "/home/u").unwrap();
    assert_eq!(projects, vec!["/srv/kept"]);
}
