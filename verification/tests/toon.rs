use suppa::format::toon::{build_toon, format_label, ToonRows};
use suppa::model::{Annotation, Config, LabelDefinition};

fn label(name: &str, enabled: bool, mark: Option<&str>, checkbox: bool, alias: &[&str]) -> LabelDefinition {
    LabelDefinition {
        label: name.to_string(),
        enabled,
        update: true,
        mark: mark.map(|m| m.to_string()),
        checkbox,
        alias: alias.iter().map(|a| a.to_string()).collect(),
    }
}

fn annotation(file: &str, line: u64, label: &str, content: &str) -> Annotation {
    Annotation {
        file: file.to_string(),
        line,
        label: label.to_string(),
        content: content.to_string(),
    }
}

#[test]
fn build_toon_encodes_annotations() {
    let config = Config {
        comments: vec!["//".to_string()],
        exclude: vec![],
        labels: vec![
            label("TODO", true, Some("✅"), true, &["TASK"]),
            label("INFO", true, None, false, &[]),
        ],
    };
    let annotations = vec![
        annotation("src/main.rs", 3, "TASK", "first todo"),
        annotation("src/lib.rs", 10, "INFO", "note here"),
    ];

    let doc = build_toon("suppa", &config, &annotations);

    assert_eq!(doc.project, "suppa");
    let todo = doc.sections.iter().find(|s| s.name == "✅ TODO").expect("section ✅ TODO");
    match &todo.rows {
        ToonRows::Checkbox(rows) => {
            assert_eq!(rows[0].path, "src/main.rs");
            assert!(!rows[0].check);
            assert_eq!(rows[0].line, 3);
            assert_eq!(rows[0].context, "first todo");
        }
        ToonRows::Plain(_) => panic!("checkbox rows expected"),
    }
    let info = doc.sections.iter().find(|s| s.name == "INFO").expect("section INFO");
    match &info.rows {
        ToonRows::Plain(rows) => {
            assert_eq!(rows[0].path, "src/lib.rs");
            assert_eq!(rows[0].line, 10);
            assert_eq!(rows[0].context, "note here");
        }
        ToonRows::Checkbox(_) => panic!("plain rows expected"),
    }
}

#[test]
fn toon_skips_disabled_labels_and_keeps_config_order() {
    let config = Config {
        comments: vec!["//".to_string()],
        exclude: vec![],
        labels: vec![
            label("NOTE", true, None, false, &[]),
            label("HACK", false, None, false, &[]),
            label("TODO", true, Some("  "), true, &[]),
        ],
    };

    let doc = build_toon("proj", &config, &[]);

    assert_eq!(doc.sections.len(), 2);
    assert_eq!(doc.sections[0].name, "NOTE");
    assert_eq!(doc.sections[1].name, "TODO");
    match &doc.sections[1].rows {
        ToonRows::Checkbox(rows) => assert!(rows.is_empty()),
        ToonRows::Plain(_) => panic!("checkbox rows expected"),
    }
}

#[test]
fn format_label_trims_the_mark() {
    assert_eq!(format_label(Some(" ✅ "), "TODO"), "✅ TODO");
    assert_eq!(format_label(Some("   "), "TODO"), "TODO");
    assert_eq!(format_label(None, "TODO"), "TODO");
}
