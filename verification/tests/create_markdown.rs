use suppa::create_markdown::{
    build_markdown, checkbox_content_key, checkbox_lines_for_label, plain_lines_for_label,
    sorted_annotations_for_label, update_markdown,
};
use suppa::model::{Annotation, Config, LabelDefinition};

fn label(name: &str, mark: Option<&str>, checkbox: bool) -> LabelDefinition {
    LabelDefinition {
        label: name.to_string(),
        enabled: true,
        update: true,
        mark: mark.map(|m| m.to_string()),
        checkbox,
        alias: vec![name.to_string()],
    }
}

fn annotation(file: &str, line: u64, label: &str, content: &str) -> Annotation {
    Annotation { file: file.to_string(), line, label: label.to_string(), content: content.to_string() }
}

fn config() -> Config {
    Config {
        comments: vec!["//".to_string()],
        exclude: vec![],
        labels: vec![label("TODO", Some("✅"), true), label("NOTE", None, false)],
    }
}

fn annotations() -> Vec<Annotation> {
    vec![
        annotation("/p/src/b.rs", 2, "TODO", "second"),
        annotation("/p/src/a.rs", 9, "TODO", "first"),
        annotation("/p/src/a.rs", 1, "NOTE", "note"),
        annotation("/p/src/a.rs", 9, "TASK", "other word"),
    ]
}

#[test]
fn items_are_sorted_by_file_line_and_text() {
    let anns = vec![
        annotation("src/b.rs", 1, "TODO", "z"),
        annotation("src/a.rs", 10, "TODO", "y"),
        annotation("src/a.rs", 2, "TODO", "b"),
        annotation("src/a.rs", 2, "TODO", "a"),
        annotation("src/a.rs", 2, "NOTE", "skipped"),
    ];
    let sorted = sorted_annotations_for_label(&anns, "TODO");
    let keys: Vec<(String, u64, String)> =
        sorted.iter().map(|a| (a.file.clone(), a.line, a.content.clone())).collect();
    assert_eq!(
        keys,
        vec![
            ("src/a.rs".to_string(), 2, "a".to_string()),
            ("src/a.rs".to_string(), 2, "b".to_string()),
            ("src/a.rs".to_string(), 10, "y".to_string()),
            ("src/b.rs".to_string(), 1, "z".to_string()),
        ]
    );
}

#[test]
fn lines_show_files_relative_to_the_root() {
    let anns = annotations();
    assert_eq!(
        checkbox_lines_for_label("/p", &anns, "TODO"),
        vec!["- [ ] first (src/a.rs:9)", "- [ ] second (src/b.rs:2)"]
    );
    assert_eq!(plain_lines_for_label("/p", &anns, "NOTE"), vec!["- note (src/a.rs:1)"]);
    assert_eq!(plain_lines_for_label("/q", &anns, "NOTE"), vec!["- note (/p/src/a.rs:1)"]);
}

#[test]
fn earlier_layout_lists_every_label() {
    let markdown = build_markdown("/p", &config(), &annotations());
    assert_eq!(
        markdown,
        "# p\n\n## ✅ TODO\n- [ ] first (src/a.rs:9)\n- [ ] second (src/b.rs:2)\n\n## NOTE\n- note (src/a.rs:1)\n"
    );
    let empty = build_markdown("/p", &config(), &[]);
    assert_eq!(empty, "# p\n\n## ✅ TODO\n\n## NOTE\n");
}

#[test]
fn earlier_update_keeps_checked_items_and_drops_repeated_text() {
    let existing = "# p\n\n## ✅ TODO\n- [x] first (src/a.rs:9)\n- [ ] second (src/b.rs:2)\n\n## NOTE\n- note (src/a.rs:1)\n";
    let mut anns = annotations();
    anns.push(annotation("/p/src/a.rs", 20, "TODO", "first"));
    let markdown = update_markdown(existing, "/p", &config(), &anns);
    assert_eq!(
        markdown,
        "# p\n\n## ✅ TODO\n- [x] first (src/a.rs:9)\n- [ ] second (src/b.rs:2)\n\n## NOTE\n- note (src/a.rs:1)\n"
    );
}

#[test]
fn earlier_update_of_an_empty_document_equals_a_new_one() {
    let anns = annotations();
    assert_eq!(update_markdown("", "/p", &config(), &anns), build_markdown("/p", &config(), &anns));
}

#[test]
fn ok_test_checkbox_content_key() {
    let line = "- [x] Refactor this function (src/main.rs:11)";
    let key = checkbox_content_key(line);
    assert_eq!(key, Some("Refactor this function".into()));
}

#[test]
fn none_test_checkbox_content_key() {
    let line = "- Refactor this function (src/main.rs:11)";
    let key = checkbox_content_key(line);
    assert_eq!(key, None);
}
