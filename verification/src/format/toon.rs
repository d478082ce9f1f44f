//! The TOON document: for each enabled label a table of its annotations,
//! keyed by the label's display name under the project's name. Encoding the
//! document as TOON text is done by the caller with the `toon-format` crate.

use vstd::prelude::*;

use crate::common::{
    get_group, group_annotations, group_members, groups_view, hashmap_annotations,
    lemma_group_annotations, lookup_group, project_name, project_name_from_root,
};
use crate::format::markdown::opt_as_str;
use crate::model::opt_str_view;
use crate::model::{
    annotations_view, enabled_labels, lemma_enabled_labels_last, Annotation, AnnotationView, Config,
    LabelView,
};
use crate::text::{chars_to_string, push_all, to_chars, trim, trim_chars};

verus! {

/// A row of a checkbox label: unchecked, with path, line and text.
#[derive(Debug)]
pub struct CheckboxRow {
    pub check: bool,
    pub path: String,
    pub line: u64,
    pub context: String,
}

/// A row of a plain label: path, line and text.
#[derive(Debug)]
pub struct PlainRow {
    pub path: String,
    pub line: u64,
    pub context: String,
}

/// The rows of one label.
#[derive(Debug)]
pub enum ToonRows {
    Checkbox(Vec<CheckboxRow>),
    Plain(Vec<PlainRow>),
}

/// One label's table, under its display name.
#[derive(Debug)]
pub struct ToonSection {
    pub name: String,
    pub rows: ToonRows,
}

/// The TOON document: the project's name and the tables of the enabled
/// labels, in the order of the configuration.
#[derive(Debug)]
pub struct ToonDocument {
    pub project: String,
    pub sections: Vec<ToonSection>,
}

/// The mathematical value of a row: check flag (absent for plain rows), path,
/// line, text.
pub struct RowView {
    pub check: Option<bool>,
    pub path: Seq<char>,
    pub line: u64,
    pub context: Seq<char>,
}

/// The mathematical value of a table.
pub struct SectionView {
    pub name: Seq<char>,
    pub checkbox: bool,
    pub rows: Seq<RowView>,
}

/// The mathematical value of the document.
pub struct ToonView {
    pub project: Seq<char>,
    pub sections: Seq<SectionView>,
}

/// The view of a label's rows: whether they are checkbox rows, and the rows.
pub open spec fn rows_view(r: ToonRows) -> (bool, Seq<RowView>) {
    match r {
        ToonRows::Checkbox(v) => (
            true,
            v@.map_values(
                |r: CheckboxRow| RowView { check: Some(r.check), path: r.path@, line: r.line, context: r.context@ },
            ),
        ),
        ToonRows::Plain(v) => (
            false,
            v@.map_values(
                |r: PlainRow| RowView { check: None, path: r.path@, line: r.line, context: r.context@ },
            ),
        ),
    }
}

/// The view of a table.
pub open spec fn section_view(s: ToonSection) -> SectionView {
    SectionView { name: s.name@, checkbox: rows_view(s.rows).0, rows: rows_view(s.rows).1 }
}

/// The views of tables.
pub open spec fn sections_view(v: Seq<ToonSection>) -> Seq<SectionView> {
    v.map_values(|s: ToonSection| section_view(s))
}

impl View for ToonDocument {
    type V = ToonView;

    open spec fn view(&self) -> ToonView {
        ToonView { project: self.project@, sections: sections_view(self.sections@) }
    }
}

/// The display name of a label: `{mark} {label}` with the mark trimmed, when
/// the mark holds more than whitespace; the label alone otherwise.
pub open spec fn format_label_spec(mark: Option<Seq<char>>, label: Seq<char>) -> Seq<char> {
    match mark {
        Some(m) => if trim(m).len() > 0 {
            trim(m) + seq![' '] + label
        } else {
            label
        },
        None => label,
    }
}

/// The row of an annotation in a table.
pub open spec fn row_of(a: AnnotationView, checkbox: bool) -> RowView {
    RowView {
        check: if checkbox { Some(false) } else { None },
        path: a.file,
        line: a.line,
        context: a.content,
    }
}

/// The table of one label.
pub open spec fn section_of(label: LabelView, groups: Seq<(Seq<char>, Seq<AnnotationView>)>) -> SectionView {
    SectionView {
        name: format_label_spec(label.mark, label.label),
        checkbox: label.checkbox,
        rows: match lookup_group(groups, label.label) {
            Some(es) => es.map_values(|a: AnnotationView| row_of(a, label.checkbox)),
            None => Seq::empty(),
        },
    }
}

/// The tables of the enabled labels, in order.
pub open spec fn toon_sections_spec(
    labels: Seq<LabelView>,
    groups: Seq<(Seq<char>, Seq<AnnotationView>)>,
) -> Seq<SectionView>
    decreases labels.len(),
{
    if labels.len() == 0 {
        Seq::empty()
    } else {
        let rest = toon_sections_spec(labels.drop_last(), groups);
        if labels.last().enabled {
            rest.push(section_of(labels.last(), groups))
        } else {
            rest
        }
    }
}

/// The TOON document of the annotations.
pub open spec fn toon_spec(root: Seq<char>, labels: Seq<LabelView>, anns: Seq<AnnotationView>) -> ToonView {
    ToonView {
        project: project_name(root),
        sections: toon_sections_spec(labels, group_annotations(labels, anns)),
    }
}

/// The display name of a label.
pub fn format_label(mark: Option<&str>, label: &str) -> (res: String)
    ensures
        res@ == format_label_spec(opt_str_view(mark), label@),
{
    let l = to_chars(label);
    let mut out: Vec<char> = Vec::new();
    match mark {
        Some(m) => {
            let mc = to_chars(m);
            let t = trim_chars(mc.as_slice());
            if t.len() > 0 {
                push_all(&mut out, t.as_slice());
                out.push(' ');
            }
        },
        None => {},
    }
    push_all(&mut out, l.as_slice());
    assert(out@ =~= format_label_spec(opt_str_view(mark), label@));
    chars_to_string(out.as_slice())
}

/// The rows of some annotations.
fn rows_of(items: &Vec<Annotation>, checkbox: bool) -> (res: ToonRows)
    ensures
        rows_view(res).0 == checkbox,
        rows_view(res).1 == annotations_view(
            items@,
        ).map_values(|a: AnnotationView| row_of(a, checkbox)),
{
    let ghost av = annotations_view(items@);
    if checkbox {
        let mut rows: Vec<CheckboxRow> = Vec::new();
        for i in 0..items.len()
            invariant
                av == annotations_view(items@),
                rows@.len() == i,
                forall|j: int| 0 <= j < i ==> (RowView {
                    check: Some(#[trigger] rows@[j].check),
                    path: rows@[j].path@,
                    line: rows@[j].line,
                    context: rows@[j].context@,
                }) == row_of(av[j], true),
        {
            let item = &items[i];
            rows.push(CheckboxRow {
                check: false,
                path: item.file.clone(),
                line: item.line,
                context: item.content.clone(),
            });
        }
        let res = ToonRows::Checkbox(rows);
        assert(rows_view(res).1 =~= av.map_values(
            |a: AnnotationView| row_of(a, checkbox),
        ));
        res
    } else {
        let mut rows: Vec<PlainRow> = Vec::new();
        for i in 0..items.len()
            invariant
                av == annotations_view(items@),
                rows@.len() == i,
                forall|j: int| 0 <= j < i ==> (RowView {
                    check: None,
                    path: (#[trigger] rows@[j]).path@,
                    line: rows@[j].line,
                    context: rows@[j].context@,
                }) == row_of(av[j], false),
        {
            let item = &items[i];
            rows.push(PlainRow { path: item.file.clone(), line: item.line, context: item.content.clone() });
        }
        let res = ToonRows::Plain(rows);
        assert(rows_view(res).1 =~= av.map_values(
            |a: AnnotationView| row_of(a, checkbox),
        ));
        res
    }
}

/// Builds the TOON document: under the project's name, for each enabled
/// label its display name and the rows of the annotations that stand for it
/// (with an unchecked flag for checkbox labels).
pub fn build_toon(root: &str, config: &Config, annotations: &[Annotation]) -> (res: ToonDocument)
    ensures
        res@ == toon_spec(root@, config@.labels, annotations_view(annotations@)),
{
    let grouped = hashmap_annotations(config, annotations);
    let ghost gv = groups_view(grouped@);
    let ghost lv = config@.labels;
    let mut sections: Vec<ToonSection> = Vec::new();
    assert(lv.take(0) =~= Seq::<LabelView>::empty());
    assert(sections_view(sections@) =~= Seq::<SectionView>::empty());
    for i in 0..config.labels.len()
        invariant
            gv == groups_view(grouped@),
            lv == config@.labels,
            sections_view(sections@) == toon_sections_spec(lv.take(i as int), gv),
    {
        let label = &config.labels[i];
        proof {
            assert(lv.take(i + 1).drop_last() =~= lv.take(i as int));
            assert(lv.take(i + 1).last() == label@);
        }
        if label.enabled {
            let name = format_label(opt_as_str(&label.mark), label.label.as_str());
            let rows = match get_group(&grouped, &label.label) {
                Some(items) => rows_of(items, label.checkbox),
                None => {
                    let empty: Vec<Annotation> = Vec::new();
                    rows_of(&empty, label.checkbox)
                },
            };
            let sec = ToonSection { name, rows };
            proof {
                assert(section_view(sec).rows =~= section_of(label@, gv).rows);
                assert(section_view(sec) == section_of(label@, gv));
            }
            let ghost prev = sections@;
            sections.push(sec);
            proof {
                assert(sections_view(sections@) =~= sections_view(prev).push(section_view(sec)));
            }
        }
    }
    assert(lv.take(config.labels.len() as int) =~= lv);
    ToonDocument { project: project_name_from_root(root), sections }
}

/// The tables are those of the enabled labels, one each, in order.
proof fn lemma_toon_sections_enabled(
    labels: Seq<LabelView>,
    groups: Seq<(Seq<char>, Seq<AnnotationView>)>,
)
    ensures
        toon_sections_spec(labels, groups).len() == enabled_labels(labels).len(),
        forall|k: int|
            0 <= k < enabled_labels(labels).len() ==> #[trigger] toon_sections_spec(labels, groups)[k]
                == section_of(enabled_labels(labels)[k], groups),
    decreases labels.len(),
{
    lemma_enabled_labels_last(labels);
    if labels.len() > 0 {
        lemma_toon_sections_enabled(labels.drop_last(), groups);
        let e0 = enabled_labels(labels.drop_last());
        if labels.last().enabled {
            assert forall|k: int| 0 <= k < enabled_labels(labels).len() implies #[trigger] toon_sections_spec(
                labels,
                groups,
            )[k] == section_of(enabled_labels(labels)[k], groups) by {
                if k < e0.len() {
                    assert(toon_sections_spec(labels.drop_last(), groups)[k] == section_of(e0[k], groups));
                }
            }
        }
    }
}

/// The TOON document has one table for every enabled label of the
/// configuration, and only those, in its order: each is named by the label
/// (with its mark), and has one row per annotation that stands for the label,
/// in the order in which they were found, row `j` holding the file, line and
/// text of the `j`-th of them, and an unchecked box when the label is a
/// checkbox label.
pub proof fn lemma_toon_rows_per_annotation(
    root: Seq<char>,
    labels: Seq<LabelView>,
    anns: Seq<AnnotationView>,
)
    ensures
        toon_spec(root, labels, anns).project == project_name(root),
        toon_spec(root, labels, anns).sections.len() == enabled_labels(labels).len(),
        forall|k: int|
            0 <= k < enabled_labels(labels).len() ==> {
                let t = #[trigger] toon_spec(root, labels, anns).sections[k];
                let l = enabled_labels(labels)[k];
                &&& t.name == format_label_spec(l.mark, l.label)
                &&& t.checkbox == l.checkbox
                &&& t.rows.len() == group_members(labels, anns, l.label).len()
                &&& forall|j: int|
                    0 <= j < t.rows.len() ==> (#[trigger] t.rows[j]).path == group_members(
                        labels,
                        anns,
                        l.label,
                    )[j].file && t.rows[j].line == group_members(labels, anns, l.label)[j].line
                        && t.rows[j].context == group_members(labels, anns, l.label)[j].content
                        && t.rows[j].check == if l.checkbox {
                        Some(false)
                    } else {
                        None
                    }
            },
{
    let groups = group_annotations(labels, anns);
    lemma_group_annotations(labels, anns);
    lemma_toon_sections_enabled(labels, groups);
    assert forall|k: int| 0 <= k < enabled_labels(labels).len() implies {
        let t = #[trigger] toon_spec(root, labels, anns).sections[k];
        let l = enabled_labels(labels)[k];
        &&& t.name == format_label_spec(l.mark, l.label)
        &&& t.checkbox == l.checkbox
        &&& t.rows.len() == group_members(labels, anns, l.label).len()
        &&& forall|j: int|
            0 <= j < t.rows.len() ==> (#[trigger] t.rows[j]).path == group_members(
                labels,
                anns,
                l.label,
            )[j].file && t.rows[j].line == group_members(labels, anns, l.label)[j].line
                && t.rows[j].context == group_members(labels, anns, l.label)[j].content
                && t.rows[j].check == if l.checkbox {
                Some(false)
            } else {
                None
            }
    } by {
        let l = enabled_labels(labels)[k];
        assert(toon_sections_spec(labels, groups)[k] == section_of(l, groups));
        assert(lookup_group(groups, l.label) == lookup_group(group_annotations(labels, anns), l.label));
    }
}

} // verus!
