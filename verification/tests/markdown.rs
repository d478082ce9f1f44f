use suppa::format::markdown::{
    archive_header_for_label, build_markdown, build_updated_markdown, checkbox_is_checked,
    collect_existing_checkbox_data, header_for_label,
};
use suppa::model::{Annotation, Config, LabelDefinition};

fn test_config() -> Config {
    Config {
        comments: vec!["//".to_string()],
        exclude: Vec::new(),
        labels: vec![LabelDefinition {
            label: "TODO".to_string(),
            enabled: true,
            update: true,
            mark: Some("✅".to_string()),
            checkbox: true,
            alias: Vec::new(),
        }],
    }
}

fn annotation(content: &str, line: u64) -> Annotation {
    Annotation {
        file: "src/main.rs".to_string(),
        line,
        label: "TODO".to_string(),
        content: content.to_string(),
    }
}

#[test]
fn update_moves_checked_items_to_archive() {
    let existing = "# suppa\n\n## ✅ TODO\n- [ ] AAA (src/main.rs:1)\n- [x] BBB (src/main.rs:2)\n## Archive:TODO\n- [x] CCC (src/old.rs:9)\n";
    let annotations = vec![annotation("AAA", 1), annotation("BBB", 20)];

    let markdown = build_updated_markdown(existing, "suppa", &test_config(), &annotations);

    let expected = format!(
        "# suppa\n\n## ✅ TODO\n- [ ] AAA (src/main.rs:1)\n{}\n- [x] BBB (src/main.rs:20)\n- [x] CCC (src/old.rs:9)\n",
        archive_header_for_label("TODO")
    );
    assert_eq!(markdown, expected);
}

#[test]
fn update_preserves_archived_items_without_source_annotations() {
    let existing = "# suppa\n\n## ✅ TODO\n- [x] BBB (src/main.rs:2)\n";

    let markdown = build_updated_markdown(existing, "suppa", &test_config(), &[]);

    let expected = format!(
        "# suppa\n\n## ✅ TODO\n{}\n- [x] BBB (src/main.rs:2)\n",
        archive_header_for_label("TODO")
    );
    assert_eq!(markdown, expected);
}

#[test]
fn header_uses_mark_only_when_it_has_text() {
    assert_eq!(header_for_label(Some("✅"), "TODO"), "## ✅ TODO");
    assert_eq!(header_for_label(Some("  "), "TODO"), "## TODO");
    assert_eq!(header_for_label(None, "TODO"), "## TODO");
}

#[test]
fn checked_lines_are_recognised() {
    assert!(checkbox_is_checked("  - [x] done (a.rs:1)"));
    assert!(checkbox_is_checked("- [X] done"));
    assert!(!checkbox_is_checked("- [ ] open"));
    assert!(!checkbox_is_checked("- x done"));
}

#[test]
fn build_markdown_writes_all_items_unchecked() {
    let annotations = vec![annotation("AAA", 1), annotation("BBB", 20)];
    let markdown = build_markdown("suppa", &test_config(), &annotations);
    assert_eq!(
        markdown,
        "# suppa\n\n## ✅ TODO\n- [ ] AAA (src/main.rs:1)\n- [ ] BBB (src/main.rs:20)\n"
    );
}

#[test]
fn checked_item_moves_to_the_archive_section() {
    let existing = "# example\n\n## ✅ TODO\n- [x] Annotation for 1 (example\\Rust.rs:1)\n- [ ] Annotation for 2 (example\\Rust.rs:2)\n";
    let annotations = vec![
        Annotation {
            file: "example\\Rust.rs".to_string(),
            line: 1,
            label: "TODO".to_string(),
            content: "Annotation for 1".to_string(),
        },
        Annotation {
            file: "example\\Rust.rs".to_string(),
            line: 2,
            label: "TODO".to_string(),
            content: "Annotation for 2".to_string(),
        },
    ];
    let markdown = build_updated_markdown(existing, "example", &test_config(), &annotations);
    assert_eq!(
        markdown,
        "# example\n\n## ✅ TODO\n- [ ] Annotation for 2 (example\\Rust.rs:2)\n### Archive:TODO\n- [x] Annotation for 1 (example\\Rust.rs:1)\n"
    );
}

#[test]
fn archived_item_stays_when_its_comment_is_gone() {
    let existing = "# p\n\n## ✅ TODO\n- [ ] open (a.rs:1)\n### Archive:TODO\n- [x] done (a.rs:2)\n";
    let markdown = build_updated_markdown(existing, "p", &test_config(), &[annotation("open", 1)]);
    assert_eq!(
        markdown,
        "# p\n\n## ✅ TODO\n- [ ] open (src/main.rs:1)\n### Archive:TODO\n- [x] done (a.rs:2)\n"
    );
}

#[test]
fn section_without_update_keeps_its_text() {
    let config = Config {
        comments: vec!["//".to_string()],
        exclude: Vec::new(),
        labels: vec![
            LabelDefinition {
                label: "TODO".to_string(),
                enabled: true,
                update: true,
                mark: Some("✅".to_string()),
                checkbox: true,
                alias: vec!["TODO".to_string()],
            },
            LabelDefinition {
                label: "MEMO".to_string(),
                enabled: true,
                update: false,
                mark: None,
                checkbox: false,
                alias: vec!["MEMO".to_string()],
            },
            LabelDefinition {
                label: "HACK".to_string(),
                enabled: false,
                update: true,
                mark: None,
                checkbox: false,
                alias: vec!["HACK".to_string()],
            },
        ],
    };
    let existing = "# p\n\n## ✅ TODO\n- [ ] a (x.rs:1)\n\n## MEMO\nhand written\nsecond line\n";
    let anns = vec![
        Annotation { file: "x.rs".to_string(), line: 1, label: "TODO".to_string(), content: "a".to_string() },
        Annotation { file: "x.rs".to_string(), line: 2, label: "HACK".to_string(), content: "h".to_string() },
        Annotation { file: "x.rs".to_string(), line: 3, label: "MEMO".to_string(), content: "m".to_string() },
    ];
    let expected = "# p\n\n## ✅ TODO\n- [ ] a (x.rs:1)\n\n## MEMO\nhand written\nsecond line\n";
    assert_eq!(build_updated_markdown(existing, "p", &config, &anns), expected);
    assert_eq!(
        build_markdown("p", &config, &anns),
        "# p\n\n## ✅ TODO\n- [ ] a (x.rs:1)\n\n## MEMO\n"
    );
}

#[test]
fn plain_label_lists_items_in_found_order() {
    let config = Config {
        comments: vec!["//".to_string()],
        exclude: Vec::new(),
        labels: vec![LabelDefinition {
            label: "INFO".to_string(),
            enabled: true,
            update: true,
            mark: Some("📒".to_string()),
            checkbox: false,
            alias: vec!["INFO".to_string(), "NOTE".to_string()],
        }],
    };
    let anns = vec![
        Annotation { file: "b.rs".to_string(), line: 9, label: "NOTE".to_string(), content: "later".to_string() },
        Annotation { file: "a.rs".to_string(), line: 1, label: "INFO".to_string(), content: "first".to_string() },
    ];
    assert_eq!(
        build_markdown("p", &config, &anns),
        "# p\n\n## 📒 INFO\n- later (b.rs:9)\n- first (a.rs:1)\n"
    );
}

#[test]
fn new_document_reads_back_unchecked() {
    let annotations = vec![annotation("AAA", 1), annotation("BBB", 2), annotation("[x] CCC", 3)];
    let markdown = build_markdown("suppa", &test_config(), &annotations);
    let data = collect_existing_checkbox_data(&markdown, &test_config());
    assert!(data.archived.is_empty());
    let keys: Vec<String> = data.states.iter().map(|s| s.key.iter().collect()).collect();
    assert_eq!(keys, vec!["AAA", "BBB", "[x] CCC"]);
    assert!(data.states.iter().all(|s| !s.checked));
    let labels: Vec<String> = data.states.iter().map(|s| s.label.iter().collect()).collect();
    assert_eq!(labels, vec!["TODO", "TODO", "TODO"]);
    assert_eq!(build_updated_markdown(&markdown, "suppa", &test_config(), &annotations), markdown);
}

#[test]
fn key_keeps_parentheses_of_the_text() {
    assert_eq!(suppa::format::markdown::checkbox_content_key("- [x] f (x) (p:1)"), Some("f (x)".to_string()));
    assert_eq!(suppa::format::markdown::checkbox_content_key("- [ ] call g (a, b)"), Some("call g (a, b)".to_string()));
    assert_eq!(suppa::format::markdown::checkbox_content_key("- [x] done (src/a (1).rs:12)"), Some("done".to_string()));
    assert_eq!(suppa::format::markdown::checkbox_content_key("- [x] c (x (y:3)"), Some("c".to_string()));
    assert_eq!(
        suppa::format::markdown::checkbox_content_key("- [x] go (C:\\Program Files (x86)\\a.rs:7)"),
        Some("go".to_string())
    );
    assert_eq!(suppa::format::markdown::checkbox_content_key("- [ ] a (b) c (p:1)"), Some("a (b) c".to_string()));
    assert_eq!(suppa::format::markdown::checkbox_content_key("- [ ]  (p:3)"), None);
}

#[test]
fn checked_item_with_parentheses_moves_to_the_archive() {
    let config = Config {
        comments: vec!["//".to_string()],
        exclude: Vec::new(),
        labels: vec![LabelDefinition {
            label: "T".to_string(),
            enabled: true,
            update: true,
            mark: None,
            checkbox: true,
            alias: vec!["T".to_string()],
        }],
    };
    let anns = vec![Annotation { file: "p".to_string(), line: 1, label: "T".to_string(), content: "f (x)".to_string() }];
    let existing = "# q\n\n## T\n- [x] f (x) (p:1)\n";
    assert_eq!(
        build_updated_markdown(existing, "q", &config, &anns),
        "# q\n\n## T\n### Archive:T\n- [x] f (x) (p:1)\n"
    );
}

#[test]
fn update_of_an_empty_document_is_a_new_document() {
    let annotations = vec![annotation("AAA", 1), annotation("BBB", 2)];
    assert_eq!(
        build_updated_markdown("", "suppa", &test_config(), &annotations),
        build_markdown("suppa", &test_config(), &annotations)
    );
}

#[test]
fn item_lines_show_files_relative_to_the_root() {
    let anns = vec![Annotation {
        file: "suppa/src/a.rs".to_string(),
        line: 3,
        label: "TODO".to_string(),
        content: "x".to_string(),
    }];
    assert_eq!(
        suppa::format::markdown::checkbox_lines_for_label("suppa", &anns, false),
        "- [ ] x (src/a.rs:3)\n"
    );
    assert_eq!(suppa::format::markdown::plain_lines_for_label("suppa", &anns), "- x (src/a.rs:3)\n");
    assert_eq!(suppa::format::markdown::plain_lines_for_label("other", &anns), "- x (suppa/src/a.rs:3)\n");
    assert_eq!(
        build_markdown("suppa", &test_config(), &anns),
        "# suppa\n\n## ✅ TODO\n- [ ] x (src/a.rs:3)\n"
    );
    let existing = "# suppa\n\n## ✅ TODO\n- [x] x (src/a.rs:3)\n";
    assert_eq!(
        build_updated_markdown(existing, "suppa", &test_config(), &anns),
        "# suppa\n\n## ✅ TODO\n### Archive:TODO\n- [x] x (src/a.rs:3)\n"
    );
}

#[test]
fn second_update_changes_nothing() {
    let existing = "# old\n\n## ✅ TODO\n- [x] BBB (src/main.rs:2)\n- [ ] DDD (src/gone.rs:4)\nnotes\n### Archive:TODO\n- [x] CCC (src/old.rs:9)\n- [x]   EEE  \n";
    let annotations = vec![annotation("AAA", 1), annotation("BBB", 20), annotation("AAA", 3)];

    let first = build_updated_markdown(existing, "suppa", &test_config(), &annotations);
    let second = build_updated_markdown(&first, "suppa", &test_config(), &annotations);

    assert_eq!(second, first);
    assert!(first.contains("- [x] BBB (src/main.rs:20)\n"));
    assert!(first.contains("- [x] CCC (src/old.rs:9)\n"));
    assert!(first.contains("- [x]   EEE\n"));
}
