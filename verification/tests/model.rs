use suppa::model::{OutputFormat, DEFAULT_CONFIG};

#[test]
fn format_names_ignore_ascii_case() {
    assert_eq!(OutputFormat::parse(None), Ok(OutputFormat::Markdown));
    assert_eq!(OutputFormat::parse(Some("Markdown")), Ok(OutputFormat::Markdown));
    assert_eq!(OutputFormat::parse(Some("MD")), Ok(OutputFormat::Markdown));
    assert_eq!(OutputFormat::parse(Some("JSON")), Ok(OutputFormat::Json));
    assert_eq!(OutputFormat::parse(Some("json")), Ok(OutputFormat::Json));
}

#[test]
fn unknown_format_name_is_returned() {
    assert_eq!(OutputFormat::parse(Some("yaml")), Err("yaml".to_string()));
    assert_eq!(OutputFormat::parse(Some("")), Err(String::new()));
    assert_eq!(OutputFormat::parse(Some("jsonx")), Err("jsonx".to_string()));
}

#[test]
fn default_config_defines_the_usual_labels() {
    assert!(DEFAULT_CONFIG.starts_with("comment = [\"//\", \"#\", \"--\"]\n"));
    for table in ["[TODO]", "[INFO]", "[FIX]", "[WARNING]", "[XXX]", "[HACK]", "[PERF]"] {
        assert!(DEFAULT_CONFIG.contains(table), "{table}");
    }
}
