//! The JSON document: which labels and annotations it holds, in which order.
//! Turning the document into JSON text is serialisation, done by the caller.

use vstd::prelude::*;

use crate::common::{
    get_group, group_annotations, group_members, groups_view, hashmap_annotations,
    lemma_group_annotations, lookup_group, project_name, project_name_from_root,
};
use crate::model::{
    annotations_view, copy_opt_string, enabled_labels, lemma_enabled_labels_last, opt_view,
    Annotation, AnnotationView, Config, LabelView,
};

verus! {

/// One annotation of the JSON document.
#[derive(Debug)]
pub struct JsonAnnotation {
    pub file: String,
    pub line: u64,
    pub content: String,
}

/// One label of the JSON document.
#[derive(Debug)]
pub struct JsonLabel {
    pub label: String,
    pub mark: Option<String>,
    pub checkbox: bool,
    pub annotations: Vec<JsonAnnotation>,
}

/// The JSON document.
#[derive(Debug)]
pub struct JsonOutput {
    pub project: String,
    pub labels: Vec<JsonLabel>,
}

/// The mathematical value of a [`JsonAnnotation`].
pub struct JsonAnnotationView {
    pub file: Seq<char>,
    pub line: u64,
    pub content: Seq<char>,
}

/// The mathematical value of a [`JsonLabel`].
pub struct JsonLabelView {
    pub label: Seq<char>,
    pub mark: Option<Seq<char>>,
    pub checkbox: bool,
    pub annotations: Seq<JsonAnnotationView>,
}

/// The mathematical value of a [`JsonOutput`].
pub struct JsonOutputView {
    pub project: Seq<char>,
    pub labels: Seq<JsonLabelView>,
}

impl View for JsonAnnotation {
    type V = JsonAnnotationView;

    open spec fn view(&self) -> JsonAnnotationView {
        JsonAnnotationView { file: self.file@, line: self.line, content: self.content@ }
    }
}

/// The views of JSON annotations.
pub open spec fn json_annotations_view(v: Seq<JsonAnnotation>) -> Seq<JsonAnnotationView> {
    v.map_values(|a: JsonAnnotation| a@)
}

impl View for JsonLabel {
    type V = JsonLabelView;

    open spec fn view(&self) -> JsonLabelView {
        JsonLabelView {
            label: self.label@,
            mark: opt_view(self.mark),
            checkbox: self.checkbox,
            annotations: json_annotations_view(self.annotations@),
        }
    }
}

/// The views of JSON labels.
pub open spec fn json_labels_view(v: Seq<JsonLabel>) -> Seq<JsonLabelView> {
    v.map_values(|l: JsonLabel| l@)
}

impl View for JsonOutput {
    type V = JsonOutputView;

    open spec fn view(&self) -> JsonOutputView {
        JsonOutputView { project: self.project@, labels: json_labels_view(self.labels@) }
    }
}

/// The JSON entry of an annotation: its file, line and content.
pub open spec fn json_annotation_of(a: AnnotationView) -> JsonAnnotationView {
    JsonAnnotationView { file: a.file, line: a.line, content: a.content }
}

/// The JSON entry of one label: its name, mark, checkbox flag and the
/// annotations that stand for it (none when there are none).
pub open spec fn json_label_of(
    label: LabelView,
    groups: Seq<(Seq<char>, Seq<AnnotationView>)>,
) -> JsonLabelView {
    JsonLabelView {
        label: label.label,
        mark: label.mark,
        checkbox: label.checkbox,
        annotations: match lookup_group(groups, label.label) {
            Some(es) => es.map_values(|a: AnnotationView| json_annotation_of(a)),
            None => Seq::empty(),
        },
    }
}

/// The JSON entries of the enabled labels, in order.
pub open spec fn json_labels_spec(
    labels: Seq<LabelView>,
    groups: Seq<(Seq<char>, Seq<AnnotationView>)>,
) -> Seq<JsonLabelView>
    decreases labels.len(),
{
    if labels.len() == 0 {
        Seq::empty()
    } else {
        let rest = json_labels_spec(labels.drop_last(), groups);
        if labels.last().enabled {
            rest.push(json_label_of(labels.last(), groups))
        } else {
            rest
        }
    }
}

/// The JSON document: the project's name and an entry for each enabled label
/// in the order of the configuration.
pub open spec fn json_spec(
    root: Seq<char>,
    labels: Seq<LabelView>,
    anns: Seq<AnnotationView>,
) -> JsonOutputView {
    JsonOutputView {
        project: project_name(root),
        labels: json_labels_spec(labels, group_annotations(labels, anns)),
    }
}

/// The JSON entries of some annotations.
fn json_annotations(items: &Vec<Annotation>) -> (res: Vec<JsonAnnotation>)
    ensures
        json_annotations_view(res@) == annotations_view(items@).map_values(
            |a: AnnotationView| json_annotation_of(a),
        ),
{
    let ghost av = annotations_view(items@);
    let mut res: Vec<JsonAnnotation> = Vec::new();
    for i in 0..items.len()
        invariant
            av == annotations_view(items@),
            json_annotations_view(res@) == av.take(i as int).map_values(
                |a: AnnotationView| json_annotation_of(a),
            ),
    {
        let ghost prev = res@;
        let item = &items[i];
        let j = JsonAnnotation { file: item.file.clone(), line: item.line, content: item.content.clone() };
        res.push(j);
        proof {
            assert(json_annotations_view(res@) =~= json_annotations_view(prev).push(j@));
            assert(av.take(i + 1) =~= av.take(i as int).push(item@));
            assert(av.take(i + 1).map_values(|a: AnnotationView| json_annotation_of(a)) =~= av.take(
                i as int,
            ).map_values(|a: AnnotationView| json_annotation_of(a)).push(json_annotation_of(item@)));
        }
    }
    assert(av.take(items.len() as int) =~= av);
    res
}

/// Builds the JSON document: the project's name, then each enabled label with
/// its mark, checkbox flag and the annotations that stand for it.
pub fn build_json(root: &str, config: &Config, annotations: &[Annotation]) -> (res: JsonOutput)
    ensures
        res@ == json_spec(root@, config@.labels, annotations_view(annotations@)),
{
    let grouped = hashmap_annotations(config, annotations);
    let ghost gv = groups_view(grouped@);
    let ghost lv = config@.labels;
    let mut labels: Vec<JsonLabel> = Vec::new();
    assert(lv.take(0) =~= Seq::<LabelView>::empty());
    assert(json_labels_view(labels@) =~= Seq::<JsonLabelView>::empty());
    for i in 0..config.labels.len()
        invariant
            gv == groups_view(grouped@),
            lv == config@.labels,
            json_labels_view(labels@) == json_labels_spec(lv.take(i as int), gv),
    {
        let label = &config.labels[i];
        proof {
            assert(lv.take(i + 1).drop_last() =~= lv.take(i as int));
            assert(lv.take(i + 1).last() == label@);
        }
        if label.enabled {
            let entries = match get_group(&grouped, &label.label) {
                Some(items) => json_annotations(items),
                None => {
                    let e: Vec<JsonAnnotation> = Vec::new();
                    assert(json_annotations_view(e@) =~= Seq::<JsonAnnotationView>::empty());
                    e
                },
            };
            assert(json_annotations_view(entries@) == json_label_of(label@, gv).annotations);
            let j = JsonLabel {
                label: label.label.clone(),
                mark: copy_opt_string(&label.mark),
                checkbox: label.checkbox,
                annotations: entries,
            };
            let ghost prev = labels@;
            assert(j@ == json_label_of(label@, gv));
            labels.push(j);
            proof {
                assert(json_labels_view(labels@) =~= json_labels_view(prev).push(j@));
            }
        }
    }
    assert(lv.take(config.labels.len() as int) =~= lv);
    JsonOutput { project: project_name_from_root(root), labels }
}

/// The JSON entries are those of the enabled labels, one each, in order.
proof fn lemma_json_labels_enabled(
    labels: Seq<LabelView>,
    groups: Seq<(Seq<char>, Seq<AnnotationView>)>,
)
    ensures
        json_labels_spec(labels, groups).len() == enabled_labels(labels).len(),
        forall|k: int|
            0 <= k < enabled_labels(labels).len() ==> #[trigger] json_labels_spec(labels, groups)[k]
                == json_label_of(enabled_labels(labels)[k], groups),
    decreases labels.len(),
{
    lemma_enabled_labels_last(labels);
    if labels.len() > 0 {
        lemma_json_labels_enabled(labels.drop_last(), groups);
        let e0 = enabled_labels(labels.drop_last());
        if labels.last().enabled {
            assert forall|k: int| 0 <= k < enabled_labels(labels).len() implies #[trigger] json_labels_spec(
                labels,
                groups,
            )[k] == json_label_of(enabled_labels(labels)[k], groups) by {
                if k < e0.len() {
                    assert(json_labels_spec(labels.drop_last(), groups)[k] == json_label_of(e0[k], groups));
                }
            }
        }
    }
}

/// The JSON document lists every enabled label of the configuration, and
/// only those, in the order of the configuration, whatever disabled labels
/// stand between them: each entry has its label's name, mark and checkbox
/// flag, and lists the annotations that stand for the label, in the order
/// in which they were found, by file, line and content.
pub proof fn lemma_json_lists_enabled_labels(
    root: Seq<char>,
    labels: Seq<LabelView>,
    anns: Seq<AnnotationView>,
)
    ensures
        json_spec(root, labels, anns).project == project_name(root),
        json_spec(root, labels, anns).labels.len() == enabled_labels(labels).len(),
        forall|k: int|
            0 <= k < enabled_labels(labels).len() ==> {
                let e = #[trigger] json_spec(root, labels, anns).labels[k];
                let l = enabled_labels(labels)[k];
                &&& e.label == l.label
                &&& e.mark == l.mark
                &&& e.checkbox == l.checkbox
                &&& e.annotations.len() == group_members(labels, anns, l.label).len()
                &&& forall|j: int|
                    0 <= j < e.annotations.len() ==> (#[trigger] e.annotations[j]).file
                        == group_members(labels, anns, l.label)[j].file && e.annotations[j].line
                        == group_members(labels, anns, l.label)[j].line
                        && e.annotations[j].content == group_members(labels, anns, l.label)[j].content
            },
{
    let groups = group_annotations(labels, anns);
    lemma_group_annotations(labels, anns);
    lemma_json_labels_enabled(labels, groups);
    assert forall|k: int| 0 <= k < enabled_labels(labels).len() implies {
        let e = #[trigger] json_spec(root, labels, anns).labels[k];
        let l = enabled_labels(labels)[k];
        &&& e.label == l.label
        &&& e.mark == l.mark
        &&& e.checkbox == l.checkbox
        &&& e.annotations.len() == group_members(labels, anns, l.label).len()
        &&& forall|j: int|
            0 <= j < e.annotations.len() ==> (#[trigger] e.annotations[j]).file
                == group_members(labels, anns, l.label)[j].file && e.annotations[j].line
                == group_members(labels, anns, l.label)[j].line
                && e.annotations[j].content == group_members(labels, anns, l.label)[j].content
    } by {
        let l = enabled_labels(labels)[k];
        assert(json_labels_spec(labels, groups)[k] == json_label_of(l, groups));
        let g = lookup_group(groups, l.label);
        assert(g == lookup_group(group_annotations(labels, anns), l.label));
    }
}

} // verus!
