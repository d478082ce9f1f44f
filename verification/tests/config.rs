use suppa::config::{
    create_default_config, load_config, resolve_config_path, ConfigError, ConfigPathChoice,
    ProbedPath, RawConfig, RawEntry,
};
use suppa::create_config;
use suppa::model::SerdeConfig;

fn probed(path: &str, exists: bool) -> ProbedPath {
    ProbedPath { path: path.to_string(), exists }
}

fn settings(mark: Option<&str>, enabled: bool, checkbox: bool, alias: &[&str]) -> SerdeConfig {
    SerdeConfig {
        mark: mark.map(|m| m.to_string()),
        enabled,
        update: true,
        checkbox,
        alias: alias.iter().map(|a| a.to_string()).collect(),
    }
}

fn label_entry(key: &str, cfg: SerdeConfig) -> RawEntry {
    RawEntry { key: key.to_string(), strings: None, label: Some(cfg) }
}

fn list_entry(key: &str, items: &[Option<&str>]) -> RawEntry {
    RawEntry {
        key: key.to_string(),
        strings: Some(items.iter().map(|i| i.map(|s| s.to_string())).collect()),
        label: None,
    }
}

#[test]
fn given_config_path_must_exist() {
    let chosen = resolve_config_path(Some(probed("my.toml", true)), probed("suppa.toml", true), probed("/h/c.toml", true));
    assert!(matches!(chosen, Ok(ConfigPathChoice::Use(p)) if p == "my.toml"));
    let missing = resolve_config_path(Some(probed("my.toml", false)), probed("suppa.toml", true), probed("/h/c.toml", true));
    assert!(matches!(missing, Err(ConfigError::NotFound(p)) if p == "my.toml"));
}

#[test]
fn local_config_comes_before_home_config() {
    let local = resolve_config_path(None, probed("suppa.toml", true), probed("/h/c.toml", true));
    assert!(matches!(local, Ok(ConfigPathChoice::Use(p)) if p == "suppa.toml"));
    let home = resolve_config_path(None, probed("suppa.toml", false), probed("/h/c.toml", true));
    assert!(matches!(home, Ok(ConfigPathChoice::Use(p)) if p == "/h/c.toml"));
    let create = resolve_config_path(None, probed("suppa.toml", false), probed("/h/c.toml", false));
    assert!(matches!(create, Ok(ConfigPathChoice::CreateDefault(p)) if p == "/h/c.toml"));
}

#[test]
fn earlier_loader_uses_home_config_only() {
    let home = create_config::resolve_config_path(None, probed("/h/c.toml", true));
    assert!(matches!(home, Ok(ConfigPathChoice::Use(p)) if p == "/h/c.toml"));
    let create = create_config::resolve_config_path(None, probed("/h/c.toml", false));
    assert!(matches!(create, Ok(ConfigPathChoice::CreateDefault(p)) if p == "/h/c.toml"));
    let missing = create_config::resolve_config_path(Some(probed("x.toml", false)), probed("/h/c.toml", true));
    assert!(matches!(missing, Err(ConfigError::NotFound(p)) if p == "x.toml"));
}

#[test]
fn default_config_is_not_written_over_an_existing_file() {
    assert!(matches!(create_default_config(probed("suppa.toml", true)), Err(ConfigError::AlreadyExists(p)) if p == "suppa.toml"));
    assert!(matches!(create_default_config(probed("suppa.toml", false)), Ok(p) if p == "suppa.toml"));
}

#[test]
fn load_config_reads_labels_in_file_order() {
    let raw = RawConfig {
        entries: vec![
            list_entry("comment", &[Some("//"), None, Some(";")]),
            label_entry("TODO", settings(Some("✅"), true, true, &[])),
            list_entry("exclude", &[Some("md"), Some("txt")]),
            label_entry("FIX", settings(None, false, false, &["BUG", "ISSUE"])),
        ],
    };
    let config = load_config(&raw).expect("valid configuration");
    assert_eq!(config.comments, vec!["//".to_string(), ";".to_string()]);
    assert_eq!(config.exclude, vec!["md".to_string(), "txt".to_string()]);
    assert_eq!(config.labels.len(), 2);
    assert_eq!(config.labels[0].label, "TODO");
    assert_eq!(config.labels[0].mark, Some("✅".to_string()));
    assert!(config.labels[0].checkbox);
    assert_eq!(config.labels[0].alias, vec!["TODO".to_string()]);
    assert_eq!(config.labels[1].label, "FIX");
    assert!(!config.labels[1].enabled);
    assert_eq!(config.labels[1].alias, vec!["FIX".to_string(), "BUG".to_string(), "ISSUE".to_string()]);
}

#[test]
fn load_config_uses_default_comments_and_exclude() {
    let raw = RawConfig { entries: vec![label_entry("TODO", settings(None, true, false, &[]))] };
    let config = load_config(&raw).expect("valid configuration");
    assert_eq!(config.comments, vec!["//".to_string(), "#".to_string(), "--".to_string()]);
    assert_eq!(config.exclude, vec!["md".to_string()]);
}

#[test]
fn load_config_refuses_unreadable_label_table() {
    let raw = RawConfig {
        entries: vec![
            label_entry("TODO", settings(None, true, false, &[])),
            RawEntry { key: "BROKEN".to_string(), strings: None, label: None },
        ],
    };
    assert!(matches!(load_config(&raw), Err(ConfigError::InvalidLabel(k)) if k == "BROKEN"));
}

#[test]
fn load_config_needs_a_label() {
    let raw = RawConfig { entries: vec![list_entry("comment", &[Some("#")])] };
    assert!(matches!(load_config(&raw), Err(ConfigError::NoLabels)));
}
