use rdp_anchor::config::{default_language, AppConfig, DisplayProfile, HostEntry, MonitorDef};
use rdp_anchor::hosts::find_host;
use rdp_anchor::table::Table;
use std::path::PathBuf;

fn host(id: &str, name: &str) -> HostEntry {
    HostEntry {
        id: id.to_string(),
        name: name.to_string(),
        rdp_file: "f.rdp".to_string(),
        default_profile: "p".to_string(),
        color: String::new(),
    }
}

fn names(config: &AppConfig) -> Vec<String> {
    config.hosts.iter().map(|h| h.name.clone()).collect()
}

#[test]
fn defaults() {
    let config = AppConfig::default();
    assert_eq!(config.language, "ja");
    assert_eq!(default_language(), "ja");
    assert!(config.hosts.is_empty());
    assert!(config.monitors.entries().is_empty());
    assert!(config.profiles.entries().is_empty());
}

#[test]
fn where_the_configuration_lies() {
    let base = Some(PathBuf::from("/home/me/.config"));
    let dir = AppConfig::config_dir_in(base.clone());
    assert_eq!(dir.base, base);
    assert_eq!(dir.segments, vec!["rdp-anchor"]);
    let path = AppConfig::config_path_in(base.clone());
    assert_eq!(path.base, base);
    assert_eq!(path.segments, vec!["rdp-anchor", "config.json"]);
    assert_eq!(AppConfig::config_dir_in(None).base, None);
}

#[test]
fn the_user_configuration_directory_is_the_base() {
    assert_eq!(AppConfig::config_dir().base, dirs::config_dir());
    assert_eq!(AppConfig::config_dir().segments, vec!["rdp-anchor"]);
    assert_eq!(AppConfig::config_path().base, dirs::config_dir());
    assert_eq!(AppConfig::config_path().segments, vec!["rdp-anchor", "config.json"]);
}

#[test]
fn loading() {
    let mut stored = AppConfig::default();
    stored.language = "en".to_string();
    assert_eq!(AppConfig::load(Some(stored)).language, "en");
    assert_eq!(AppConfig::load(None).language, "ja");
}

#[test]
fn tables_hold_one_value_for_a_key() {
    let mut table: Table<u32> = Table::new();
    assert_eq!(table.get("a"), None);
    table.insert("a".to_string(), 1);
    table.insert("b".to_string(), 2);
    table.insert("a".to_string(), 3);
    assert_eq!(table.get("a"), Some(&3));
    assert_eq!(table.get("b"), Some(&2));
    assert_eq!(table.entries().len(), 2);
    let copy = table.clone();
    table.remove("a");
    table.remove("z");
    assert_eq!(table.get("a"), None);
    assert_eq!(table.get("b"), Some(&2));
    assert_eq!(copy.get("a"), Some(&3));
}

#[test]
fn saving_hosts_keeps_their_order() {
    let mut config = AppConfig::default();
    config.save_host(host("a", "A"));
    config.save_host(host("b", "B"));
    config.save_host(host("c", "C"));
    config.save_host(host("b", "B2"));
    assert_eq!(names(&config), vec!["A", "B2", "C"]);
    assert_eq!(find_host(&config.hosts, "b"), Some(1));
    assert_eq!(find_host(&config.hosts, "d"), None);
}

#[test]
fn deleting_hosts_keeps_the_others() {
    let mut config = AppConfig::default();
    config.hosts = vec![host("a", "A"), host("b", "B"), host("a", "A2"), host("c", "C")];
    config.delete_host("a");
    assert_eq!(names(&config), vec!["B", "C"]);
    config.delete_host("x");
    assert_eq!(names(&config), vec!["B", "C"]);
}

#[test]
fn only_the_first_host_with_an_identifier_is_replaced() {
    let mut config = AppConfig::default();
    config.hosts = vec![host("a", "A"), host("a", "A2")];
    config.save_host(host("a", "A3"));
    assert_eq!(names(&config), vec!["A3", "A2"]);
}

#[test]
fn profiles_and_monitors() {
    let mut config = AppConfig::default();
    let profile = |name: &str| DisplayProfile {
        name: name.to_string(),
        monitor_ids: vec!["m".to_string()],
        primary: "m".to_string(),
    };
    config.save_profile("p".to_string(), profile("one"));
    config.save_profile("p".to_string(), profile("two"));
    assert_eq!(config.profiles.get("p").unwrap().name, "two");
    config.delete_profile("p");
    assert!(config.profiles.get("p").is_none());

    let mut monitors = Table::new();
    monitors.insert(
        "m".to_string(),
        MonitorDef { name: "n".to_string(), left: 1, top: 2, width: 3, height: 4 },
    );
    config.save_monitors(monitors);
    assert_eq!(config.monitors.get("m").unwrap().height, 4);
    assert_eq!(config.auto_detect_monitors(Err("none".to_string())), Err("none".to_string()));
    assert_eq!(config.monitors.get("m").unwrap().height, 4);

    let mut other = AppConfig::default();
    other.language = "en".to_string();
    config.save_config(other);
    assert_eq!(config.language, "en");
    assert!(config.monitors.get("m").is_none());
}
