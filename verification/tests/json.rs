use suppa::format::json::build_json;
use suppa::model::{Annotation, Config, LabelDefinition};

fn label(name: &str, enabled: bool, mark: Option<&str>, checkbox: bool, alias: &[&str]) -> LabelDefinition {
    LabelDefinition {
        label: name.to_string(),
        enabled,
        update: true,
        mark: mark.map(|m| m.to_string()),
        checkbox,
        alias: alias.iter().map(|a| a.to_string()).collect(),
    }
}

fn annotation(file: &str, line: u64, label: &str, content: &str) -> Annotation {
    Annotation {
        file: file.to_string(),
        line,
        label: label.to_string(),
        content: content.to_string(),
    }
}

#[test]
fn build_json_outputs_enabled_labels_with_annotations() {
    let config = Config {
        comments: vec!["//".to_string()],
        exclude: Vec::new(),
        labels: vec![
            label("TODO", true, Some("!"), true, &["TASK"]),
            label("HACK", false, None, false, &[]),
        ],
    };
    let annotations = vec![annotation("src/main.rs", 12, "TASK", "write tests")];

    let output = build_json("suppa", &config, &annotations);

    assert_eq!(output.project, "suppa");
    assert_eq!(output.labels.len(), 1);
    assert_eq!(output.labels[0].label, "TODO");
    assert_eq!(output.labels[0].annotations[0].content, "write tests");
}

#[test]
fn json_label_keeps_mark_checkbox_and_item_fields() {
    let config = Config {
        comments: vec!["//".to_string()],
        exclude: Vec::new(),
        labels: vec![label("TODO", true, Some("!"), true, &["TASK"])],
    };
    let annotations = vec![
        annotation("src/main.rs", 12, "TASK", "write tests"),
        annotation("src/lib.rs", 3, "TODO", "second"),
    ];

    let output = build_json("/home/me/suppa", &config, &annotations);

    assert_eq!(output.project, "suppa");
    let todo = &output.labels[0];
    assert_eq!(todo.mark, Some("!".to_string()));
    assert!(todo.checkbox);
    assert_eq!(todo.annotations.len(), 2);
    assert_eq!(todo.annotations[0].file, "src/main.rs");
    assert_eq!(todo.annotations[0].line, 12);
    assert_eq!(todo.annotations[1].file, "src/lib.rs");
    assert_eq!(todo.annotations[1].line, 3);
    assert_eq!(todo.annotations[1].content, "second");
}

#[test]
fn json_enabled_label_without_annotations_is_listed_empty() {
    let config = Config {
        comments: vec!["#".to_string()],
        exclude: Vec::new(),
        labels: vec![label("FIXME", true, None, false, &[])],
    };

    let output = build_json("/", &config, &[]);

    assert_eq!(output.project, "Project");
    assert_eq!(output.labels.len(), 1);
    assert_eq!(output.labels[0].label, "FIXME");
    assert_eq!(output.labels[0].mark, None);
    assert!(output.labels[0].annotations.is_empty());
}
