use suppa::function::summary_lines;
use suppa::model::{Annotation, Config, LabelDefinition};

fn label(name: &str, mark: Option<&str>, alias: &[&str]) -> LabelDefinition {
    LabelDefinition {
        label: name.to_string(),
        enabled: true,
        update: true,
        mark: mark.map(|m| m.to_string()),
        checkbox: false,
        alias: alias.iter().map(|a| a.to_string()).collect(),
    }
}

fn annotation(line: u64, label: &str) -> Annotation {
    Annotation { file: "a.rs".to_string(), line, label: label.to_string(), content: "x".to_string() }
}

#[test]
fn summary_counts_configured_labels_then_others() {
    let config = Config {
        comments: vec![],
        exclude: vec![],
        labels: vec![label("TODO", Some("✅"), &["TODO", "TASK"]), label("INFO", None, &["INFO"]), label("FIX", None, &["FIX"])],
    };
    let anns = vec![annotation(1, "TASK"), annotation(2, "TODO"), annotation(3, "XYZ"), annotation(4, "INFO"), annotation(5, "XYZ")];
    assert_eq!(
        summary_lines(&config, &anns),
        vec!["Annotation Summary:", "  ✅ TODO: 2", "  INFO: 1", "  XYZ: 2"]
    );
}

#[test]
fn summary_of_nothing_is_the_title() {
    let config = Config { comments: vec![], exclude: vec![], labels: vec![label("TODO", None, &["TODO"])] };
    assert_eq!(summary_lines(&config, &[]), vec!["Annotation Summary:"]);
}
