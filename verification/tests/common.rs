use suppa::common::{canonical_label_of, get_group, hashmap_annotations, project_name_from_root};
use suppa::model::{Annotation, Config, LabelDefinition};

fn label(name: &str, alias: &[&str]) -> LabelDefinition {
    LabelDefinition {
        label: name.to_string(),
        enabled: true,
        update: true,
        mark: None,
        checkbox: false,
        alias: alias.iter().map(|a| a.to_string()).collect(),
    }
}

fn annotation(line: u64, label: &str) -> Annotation {
    Annotation { file: "a.rs".to_string(), line, label: label.to_string(), content: format!("c{line}") }
}

fn config() -> Config {
    Config {
        comments: vec!["//".to_string()],
        exclude: vec![],
        labels: vec![label("TODO", &["TODO", "TASK"]), label("FIX", &["FIX", "BUG"])],
    }
}

#[test]
fn aliases_are_grouped_under_their_label() {
    let anns = vec![annotation(1, "XYZ"), annotation(2, "TASK"), annotation(3, "BUG"), annotation(4, "TODO")];
    let groups = hashmap_annotations(&config(), &anns);
    assert_eq!(groups.len(), 3);
    assert_eq!(groups[0].label, "XYZ");
    assert_eq!(groups[1].label, "TODO");
    assert_eq!(groups[1].annotations.iter().map(|a| a.line).collect::<Vec<_>>(), vec![2, 4]);
    assert_eq!(groups[2].label, "FIX");
    assert_eq!(groups[2].annotations[0].line, 3);
}

#[test]
fn group_lookup_finds_a_label_or_nothing() {
    let anns = vec![annotation(1, "TASK")];
    let groups = hashmap_annotations(&config(), &anns);
    assert_eq!(get_group(&groups, &"TODO".to_string()).map(|v| v.len()), Some(1));
    assert!(get_group(&groups, &"FIX".to_string()).is_none());
}

#[test]
fn canonical_label_prefers_the_last_label_listing_the_word() {
    let labels = vec![label("A", &["X"]), label("B", &["X"])];
    assert_eq!(canonical_label_of(&labels, &"X".to_string()), "B");
    assert_eq!(canonical_label_of(&labels, &"Y".to_string()), "Y");
}

#[test]
fn project_name_is_last_path_component() {
    assert_eq!(project_name_from_root("/home/me/suppa"), "suppa");
    assert_eq!(project_name_from_root("suppa/"), "suppa");
    assert_eq!(project_name_from_root("/"), "Project");
    assert_eq!(project_name_from_root(".."), "Project");
}
