use suppa::model::{Config, LabelDefinition};
use suppa::search::{
    collect_annotations, deterministic_color, rg_arguments, rg_build_pattern, text_pattern,
    LabelColor,
};

fn label(name: &str, enabled: bool, alias: &[&str]) -> LabelDefinition {
    LabelDefinition {
        label: name.to_string(),
        enabled,
        update: true,
        mark: None,
        checkbox: false,
        alias: alias.iter().map(|a| a.to_string()).collect(),
    }
}

fn config() -> Config {
    Config {
        comments: vec!["//".to_string(), "#".to_string()],
        exclude: vec!["md".to_string()],
        labels: vec![label("TODO", true, &["TODO", "TASK"]), label("HACK", false, &["HACK"])],
    }
}

fn comments() -> Vec<String> {
    vec!["//".to_string(), "#".to_string()]
}

#[test]
fn match_line_is_split_into_file_line_label_and_text() {
    let m = text_pattern("./src/main.rs:12:    // TODO: write tests ", &comments()).expect("a match");
    assert_eq!(m.file, "src/main.rs");
    assert_eq!(m.line, 12);
    assert_eq!(m.label, "TODO");
    assert_eq!(m.text, "write tests");
}

#[test]
fn windows_prefix_and_hash_comment_are_removed() {
    let m = text_pattern(".\\src\\a.py:3:# FIX: x: y", &comments()).expect("a match");
    assert_eq!(m.file, "src\\a.py");
    assert_eq!(m.line, 3);
    assert_eq!(m.label, "FIX");
    assert_eq!(m.text, "x: y");
}

#[test]
fn match_without_text_is_dropped_and_bad_line_number_reads_zero() {
    assert!(text_pattern("src/a.rs:5:// TODO:   ", &comments()).is_none());
    assert!(text_pattern("no colon here", &comments()).is_none());
    let m = text_pattern("a.rs:abc:// TODO: x", &comments()).expect("a match");
    assert_eq!(m.line, 0);
}

#[test]
fn collect_annotations_reads_every_match_line() {
    let stdout = b"./src/main.rs:1:// TODO: first\nnoise\nsrc/lib.rs:7:# TASK: second\r\n";
    let anns = collect_annotations(stdout, &config());
    assert_eq!(anns.len(), 2);
    assert_eq!(anns[0].file, "src/main.rs");
    assert_eq!(anns[0].line, 1);
    assert_eq!(anns[0].label, "TODO");
    assert_eq!(anns[0].content, "first");
    assert_eq!(anns[1].file, "src/lib.rs");
    assert_eq!(anns[1].label, "TASK");
    assert_eq!(anns[1].content, "second");
}

#[test]
fn invalid_utf8_does_not_stop_the_reading() {
    let mut stdout = b"a.rs:2:// TODO: caf".to_vec();
    stdout.push(0xff);
    stdout.extend_from_slice(b"\n");
    let anns = collect_annotations(&stdout, &config());
    assert_eq!(anns.len(), 1);
    assert_eq!(anns[0].content, "caf\u{fffd}");
}

#[test]
fn pattern_joins_comments_and_enabled_words() {
    let pattern = rg_build_pattern(&config().comments, &config().labels).expect("valid pattern");
    assert_eq!(pattern, r"(//|#)\s*(TODO|TASK)\s*:\s*(.+)");
}

#[test]
fn refused_pattern_is_reported() {
    let comments = vec!["(".to_string()];
    let err = rg_build_pattern(&comments, &config().labels).expect_err("unbalanced pattern");
    assert_eq!(err.pattern, r"(()\s*(TODO|TASK)\s*:\s*(.+)");
}

#[test]
fn ripgrep_arguments_exclude_types_then_search_root() {
    let args = rg_arguments(".", &config()).expect("valid pattern");
    assert_eq!(
        args,
        vec![
            "-T",
            "md",
            "--line-number",
            "--no-heading",
            "--with-filename",
            "--regexp",
            r"(//|#)\s*(TODO|TASK)\s*:\s*(.+)",
            ".",
        ]
    );
}

#[test]
fn label_colour_follows_the_byte_sum() {
    assert_eq!(deterministic_color("TODO"), LabelColor::Blue);
    assert_eq!(deterministic_color("FIX"), LabelColor::Green);
    assert_eq!(deterministic_color(""), LabelColor::Yellow);
    assert_eq!(deterministic_color("TODO"), deterministic_color("TODO"));
}
