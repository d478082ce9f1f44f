//! What the pass over an existing document reads back of a document that the
//! library wrote itself.

use vstd::prelude::*;

use crate::common::{
    canonical_label, group_annotations, group_members, lemma_group_annotations, lookup_group,
    project_name,
};
use crate::format::markdown::{
    archive_header_spec, archive_label, archive_prefix2, archive_prefix3, archived_fold,
    archived_of, archived_step, body_index, body_scan, body_step, box_prefix, check_scan,
    check_step, checkbox_line_spec, checkbox_lines_spec, checkbox_sections_spec,
    closes_then_opens, content_key_spec, entries_fold, header_label, header_spec,
    is_checkbox_label, is_checked_spec, level2, location_spec, markdown_spec, new_section_spec,
    new_sections_spec, newline, opens_archive_of, parens_closed, plain_line_spec,
    plain_lines_spec, section_bodies_spec, section_body, state_of, title_spec,
    updated_markdown_spec, updated_section_spec, updated_sections_spec, BodyScan, CheckScan,
    SectionAcc,
};
use crate::model::{AnnotationView, LabelView};
use crate::paths::{relative_item, relative_items};
use crate::text::{
    decimal, is_ws, lemma_decimal_single_line, lemma_lines_append, lemma_lines_single,
    lemma_trim_end_prefix, lines, starts_with, strip_last, trim, trim_end, trim_start,
};

verus! {

// ---------------------------------------------------------------------------
// The pass, resumed
// ---------------------------------------------------------------------------

/// The pass over `lns`, starting from `st`.
pub open spec fn scan_from(labels: Seq<LabelView>, st: CheckScan, lns: Seq<Seq<char>>) -> CheckScan
    decreases lns.len(),
{
    if lns.len() == 0 {
        st
    } else {
        check_step(labels, scan_from(labels, st, lns.drop_last()), lns.last())
    }
}

/// The state before the first line.
pub open spec fn scan_start() -> CheckScan {
    CheckScan { current: None, in_archive: false, states: Seq::empty(), archived: Seq::empty() }
}

proof fn lemma_scan_from_append(
    labels: Seq<LabelView>,
    st: CheckScan,
    l1: Seq<Seq<char>>,
    l2: Seq<Seq<char>>,
)
    ensures
        scan_from(labels, st, l1 + l2) == scan_from(labels, scan_from(labels, st, l1), l2),
    decreases l2.len(),
{
    if l2.len() == 0 {
        assert(l1 + l2 =~= l1);
    } else {
        lemma_scan_from_append(labels, st, l1, l2.drop_last());
        assert((l1 + l2).drop_last() =~= l1 + l2.drop_last());
        assert((l1 + l2).last() == l2.last());
    }
}

proof fn lemma_scan_one(labels: Seq<LabelView>, st: CheckScan, line: Seq<char>)
    ensures
        scan_from(labels, st, seq![line]) == check_step(labels, st, line),
{
    let l = seq![line];
    assert(l.drop_last() =~= Seq::<Seq<char>>::empty());
    assert(scan_from(labels, st, l.drop_last()) == st);
    assert(l.last() == line);
}

proof fn lemma_check_scan_is_scan_from(labels: Seq<LabelView>, lns: Seq<Seq<char>>)
    ensures
        check_scan(labels, lns) == scan_from(labels, scan_start(), lns),
    decreases lns.len(),
{
    if lns.len() > 0 {
        lemma_check_scan_is_scan_from(labels, lns.drop_last());
    }
}

// ---------------------------------------------------------------------------
// Quiet lines
// ---------------------------------------------------------------------------

/// No archive is open, nothing is archived, and every state read is unchecked.
pub open spec fn nothing_checked(st: CheckScan) -> bool {
    &&& !st.in_archive
    &&& st.archived.len() == 0
    &&& forall|k: int| 0 <= k < st.states.len() ==> !(#[trigger] st.states[k]).2
}

/// A line that does not start with `##`.
spec fn not_hash2(line: Seq<char>) -> bool {
    line.len() < 2 || line[0] != '#' || line[1] != '#'
}

/// A line that does not start with `##` is neither a header, nor opens an
/// archive, nor starts a level-two section.
proof fn lemma_not_hash2(labels: Seq<LabelView>, line: Seq<char>)
    requires
        not_hash2(line),
    ensures
        header_label(labels, line) is None,
        archive_label(labels, line) is None,
        !starts_with(line, level2()),
    decreases labels.len(),
{
    if labels.len() > 0 {
        let l = labels.last();
        let h = header_spec(l.mark, l.label);
        assert(h[0] == '#' && h[1] == '#' && h.len() >= 3);
        if h == line {
            assert(line[0] == '#' && line[1] == '#');
        }
        if opens_archive_of(line, l.label) {
            let a3 = archive_prefix3() + l.label;
            let a2 = archive_prefix2() + l.label;
            assert(a3[0] == '#' && a3[1] == '#');
            assert(a2[0] == '#' && a2[1] == '#');
        }
        lemma_not_hash2(labels.drop_last(), line);
    }
    if starts_with(line, level2()) {
        assert(line[0] == line.take(3)[0] && line[1] == line.take(3)[1]);
    }
}

/// A line that starts with neither `##` nor a checked box keeps the pass
/// quiet, and leaves it in the same section; so does a checked one in a
/// section that is not of a checkbox label.
proof fn lemma_quiet_step(labels: Seq<LabelView>, st: CheckScan, raw: Seq<char>)
    requires
        nothing_checked(st),
        not_hash2(trim_end(raw)),
        !is_checked_spec(trim_end(raw)) || (st.current matches Some(n) ==> !is_checkbox_label(
            labels,
            n,
        )),
    ensures
        nothing_checked(check_step(labels, st, raw)),
        check_step(labels, st, raw).current == st.current,
{
    lemma_not_hash2(labels, trim_end(raw));
    let next = check_step(labels, st, raw);
    assert forall|k: int| 0 <= k < next.states.len() implies !(#[trigger] next.states[k]).2 by {
        if k < st.states.len() {
            assert(next.states[k] == st.states[k]);
        }
    }
}

// ---------------------------------------------------------------------------
// The lines of a new document
// ---------------------------------------------------------------------------

/// A label whose name and mark fit on one line, and whose name ends in a
/// visible character.
pub open spec fn single_line_label(l: LabelView) -> bool {
    &&& !l.label.contains('\n')
    &&& l.label.len() > 0
    &&& !is_ws(l.label.last())
    &&& (l.mark matches Some(m) ==> !m.contains('\n'))
}

/// An annotation whose text and file fit on one line.
pub open spec fn single_line_item(a: AnnotationView) -> bool {
    !a.content.contains('\n') && !a.file.contains('\n')
}

/// Whether the items of the label `name` are written to a new document: it
/// is the name of an enabled label with `update`.
pub open spec fn written_label(labels: Seq<LabelView>, name: Seq<char>) -> bool {
    exists|i: int|
        0 <= i < labels.len() && #[trigger] labels[i].label == name && labels[i].enabled
            && labels[i].update
}

/// Every item of every group that is written fits on one line.
pub open spec fn groups_single_line(
    labels: Seq<LabelView>,
    groups: Seq<(Seq<char>, Seq<AnnotationView>)>,
) -> bool {
    forall|key: Seq<char>|
        written_label(labels, key) && (#[trigger] lookup_group(groups, key)) is Some ==> forall|j: int|
            0 <= j < lookup_group(groups, key)->0.len() ==> single_line_item(
                #[trigger] lookup_group(groups, key)->0[j],
            )
}

/// No two labels share a name or a header.
pub open spec fn distinct_labels(labels: Seq<LabelView>) -> bool {
    forall|i: int, j: int|
        0 <= i < labels.len() && 0 <= j < labels.len() && i != j ==> (#[trigger] labels[i]).label
            != (#[trigger] labels[j]).label && header_spec(labels[i].mark, labels[i].label)
            != header_spec(labels[j].mark, labels[j].label)
}

proof fn lemma_concat_single_line(a: Seq<char>, b: Seq<char>)
    requires
        !a.contains('\n'),
        !b.contains('\n'),
    ensures
        !(a + b).contains('\n'),
{
    if (a + b).contains('\n') {
        let j = choose|j: int| 0 <= j < (a + b).len() && (a + b)[j] == '\n';
        if j < a.len() {
            assert(a[j] == '\n');
        } else {
            assert(b[j - a.len()] == '\n');
        }
    }
}

/// A header is one line that ends in the label's name, and names its label.
proof fn lemma_header_line(labels: Seq<LabelView>, i: int)
    requires
        0 <= i < labels.len(),
        single_line_label(labels[i]),
        distinct_labels(labels),
    ensures
        !header_spec(labels[i].mark, labels[i].label).contains('\n'),
        header_spec(labels[i].mark, labels[i].label).last() == labels[i].label.last(),
        header_label(labels, header_spec(labels[i].mark, labels[i].label)) == Some(labels[i].label),
        is_checkbox_label(labels, labels[i].label) == labels[i].checkbox,
{
    let l = labels[i];
    let h = header_spec(l.mark, l.label);
    assert(!level2().contains('\n'));
    assert(!seq![' '].contains('\n'));
    match l.mark {
        Some(m) => {
            if trim(m).len() > 0 {
                lemma_concat_single_line(level2(), m);
                lemma_concat_single_line(level2() + m, seq![' ']);
                lemma_concat_single_line(level2() + m + seq![' '], l.label);
            } else {
                lemma_concat_single_line(level2(), l.label);
            }
        },
        None => {
            lemma_concat_single_line(level2(), l.label);
        },
    }
    lemma_header_label_unique(labels, i);
    if l.checkbox {
        assert(labels[i].label == l.label);
    } else if is_checkbox_label(labels, l.label) {
        let j = choose|j: int| 0 <= j < labels.len() && #[trigger] labels[j].label == l.label
            && labels[j].checkbox;
        assert(labels[j].label != labels[i].label);
    }
}

proof fn lemma_header_label_unique(labels: Seq<LabelView>, i: int)
    requires
        0 <= i < labels.len(),
        distinct_labels(labels),
    ensures
        header_label(labels, header_spec(labels[i].mark, labels[i].label)) == Some(labels[i].label),
    decreases labels.len(),
{
    if i < labels.len() - 1 {
        let t = labels.drop_last();
        assert(labels[labels.len() - 1] == labels.last());
        assert(header_spec(labels.last().mark, labels.last().label) != header_spec(
            labels[i].mark,
            labels[i].label,
        ));
        assert forall|a: int, b: int|
            0 <= a < t.len() && 0 <= b < t.len() && a != b implies (#[trigger] t[a]).label
            != (#[trigger] t[b]).label && header_spec(t[a].mark, t[a].label) != header_spec(
            t[b].mark,
            t[b].label,
        ) by {
            assert(t[a] == labels[a] && t[b] == labels[b]);
        }
        assert(t[i] == labels[i]);
        lemma_header_label_unique(t, i);
    }
}

/// A line without a line break, ended by one, read back: its `'\r'`-free text
/// and its trimmed end are the line itself when it ends in a visible
/// character.
proof fn lemma_visible_end_line(y: Seq<char>)
    requires
        !y.contains('\n'),
        y.len() > 0,
        !is_ws(y.last()),
    ensures
        lines(y + newline()) == seq![y],
        trim_end(y) == y,
{
    lemma_lines_single(y);
    assert(is_ws('\r'));
    assert(strip_last(y, '\r') == y);
    assert(y + newline() =~= y + seq!['\n']);
}

/// The text of an item line, before its line break.
pub open spec fn item_text(prefix: Seq<char>, a: AnnotationView) -> Seq<char> {
    prefix + a.content + location_spec(a)
}

/// An item line is one line that starts with `-` and ends with `)`.
proof fn lemma_item_text(prefix: Seq<char>, a: AnnotationView)
    requires
        single_line_item(a),
        !prefix.contains('\n'),
        prefix.len() > 0,
        prefix[0] == '-',
    ensures
        !item_text(prefix, a).contains('\n'),
        item_text(prefix, a).last() == ')',
        item_text(prefix, a)[0] == '-',
        trim(item_text(prefix, a)) == item_text(prefix, a),
        trim_end(item_text(prefix, a)) == item_text(prefix, a),
        lines(item_text(prefix, a) + newline()) == seq![item_text(prefix, a)],
        not_hash2(item_text(prefix, a)),
{
    let y = item_text(prefix, a);
    lemma_decimal_single_line(a.line as nat);
    assert(!seq![' ', '('].contains('\n'));
    assert(!seq![':'].contains('\n'));
    assert(!seq![')'].contains('\n'));
    lemma_concat_single_line(seq![' ', '('], a.file);
    lemma_concat_single_line(seq![' ', '('] + a.file, seq![':']);
    lemma_concat_single_line(seq![' ', '('] + a.file + seq![':'], decimal(a.line as nat));
    lemma_concat_single_line(seq![' ', '('] + a.file + seq![':'] + decimal(a.line as nat), seq![')']);
    lemma_concat_single_line(prefix, a.content);
    lemma_concat_single_line(prefix + a.content, location_spec(a));
    assert(y[0] == prefix[0]);
    assert(!is_ws(y[0]));
    assert(trim_start(y) == y);
    lemma_visible_end_line(y);
}

/// The pass over checkbox items written unchecked stays quiet and in its
/// section.
proof fn lemma_scan_checkbox_items(labels: Seq<LabelView>, st: CheckScan, es: Seq<AnnotationView>)
    requires
        nothing_checked(st),
        forall|j: int| 0 <= j < es.len() ==> single_line_item(#[trigger] es[j]),
    ensures
        nothing_checked(scan_from(labels, st, lines(checkbox_lines_spec(es, false)))),
        scan_from(labels, st, lines(checkbox_lines_spec(es, false))).current == st.current,
        checkbox_lines_spec(es, false).len() == 0 || checkbox_lines_spec(es, false).last() == '\n',
    decreases es.len(),
{
    if es.len() == 0 {
        assert(lines(checkbox_lines_spec(es, false)) =~= Seq::<Seq<char>>::empty());
    } else {
        let init = es.drop_last();
        let a = es.last();
        assert forall|j: int| 0 <= j < init.len() implies single_line_item(#[trigger] init[j]) by {
            assert(init[j] == es[j]);
        }
        lemma_scan_checkbox_items(labels, st, init);
        let x = checkbox_lines_spec(init, false);
        let p = box_prefix(' ');
        assert(!p.contains('\n'));
        lemma_item_text(p, a);
        let y = item_text(p, a);
        assert(checkbox_line_spec(a, false) =~= y + newline());
        lemma_lines_append(x, y + newline());
        lemma_scan_from_append(labels, st, lines(x), seq![y]);
        let mid = scan_from(labels, st, lines(x));
        lemma_scan_one(labels, mid, y);
        assert(!is_checked_spec(y)) by {
            assert(y.take(6)[3] == ' ');
            assert(box_prefix('x')[3] == 'x');
            assert(box_prefix('X')[3] == 'X');
        }
        lemma_quiet_step(labels, mid, y);
    }
}

/// The pass over plain items in a section that is not of a checkbox label
/// stays quiet and in its section.
proof fn lemma_scan_plain_items(labels: Seq<LabelView>, st: CheckScan, es: Seq<AnnotationView>)
    requires
        nothing_checked(st),
        st.current matches Some(n) ==> !is_checkbox_label(labels, n),
        forall|j: int| 0 <= j < es.len() ==> single_line_item(#[trigger] es[j]),
    ensures
        nothing_checked(scan_from(labels, st, lines(plain_lines_spec(es)))),
        scan_from(labels, st, lines(plain_lines_spec(es))).current == st.current,
        plain_lines_spec(es).len() == 0 || plain_lines_spec(es).last() == '\n',
    decreases es.len(),
{
    if es.len() == 0 {
        assert(lines(plain_lines_spec(es)) =~= Seq::<Seq<char>>::empty());
    } else {
        let init = es.drop_last();
        let a = es.last();
        assert forall|j: int| 0 <= j < init.len() implies single_line_item(#[trigger] init[j]) by {
            assert(init[j] == es[j]);
        }
        lemma_scan_plain_items(labels, st, init);
        let x = plain_lines_spec(init);
        let p = seq!['-', ' '];
        assert(!p.contains('\n'));
        lemma_item_text(p, a);
        let y = item_text(p, a);
        assert(plain_line_spec(a) =~= y + newline());
        lemma_lines_append(x, y + newline());
        lemma_scan_from_append(labels, st, lines(x), seq![y]);
        let mid = scan_from(labels, st, lines(x));
        lemma_scan_one(labels, mid, y);
        lemma_quiet_step(labels, mid, y);
    }
}

/// The members of a group come from the annotations.
proof fn lemma_members_single_line(
    labels: Seq<LabelView>,
    anns: Seq<AnnotationView>,
    key: Seq<char>,
)
    requires
        forall|k: int|
            0 <= k < anns.len() && canonical_label(labels, (#[trigger] anns[k]).label) == key
                ==> single_line_item(anns[k]),
    ensures
        forall|j: int|
            0 <= j < group_members(labels, anns, key).len() ==> single_line_item(
                #[trigger] group_members(labels, anns, key)[j],
            ),
    decreases anns.len(),
{
    if anns.len() > 0 {
        let init = anns.drop_last();
        assert forall|k: int|
            0 <= k < init.len() && canonical_label(labels, (#[trigger] init[k]).label) == key
                implies single_line_item(init[k]) by {
            assert(init[k] == anns[k]);
        }
        lemma_members_single_line(labels, init, key);
        let r = group_members(labels, init, key);
        assert forall|j: int|
            0 <= j < group_members(labels, anns, key).len() implies single_line_item(
            #[trigger] group_members(labels, anns, key)[j],
        ) by {
            if j < r.len() {
                assert(group_members(labels, anns, key)[j] == r[j]);
            } else {
                assert(group_members(labels, anns, key)[j] == anns.last());
            }
        }
    }
}

/// The pass over the section of `labels[i]` in a new document stays quiet.
proof fn lemma_scan_section(
    labels: Seq<LabelView>,
    i: int,
    groups: Seq<(Seq<char>, Seq<AnnotationView>)>,
    st: CheckScan,
)
    requires
        0 <= i < labels.len(),
        nothing_checked(st),
        labels[i].enabled ==> single_line_label(labels[i]),
        distinct_labels(labels),
        groups_single_line(labels, groups),
    ensures
        nothing_checked(scan_from(labels, st, lines(new_section_spec(labels[i], groups)))),
        new_section_spec(labels[i], groups).len() == 0 || new_section_spec(labels[i], groups).last()
            == '\n',
{
    let l = labels[i];
    let h = header_spec(l.mark, l.label);
    let s = new_section_spec(l, groups);
    if !l.enabled || (l.update && lookup_group(groups, l.label) is None) {
        assert(s =~= Seq::<char>::empty());
        assert(lines(s) =~= Seq::<Seq<char>>::empty());
    } else {
        lemma_header_line(labels, i);
        lemma_visible_end_line(h);
        assert(lines(newline()) == seq![Seq::<char>::empty()]) by {
            lemma_lines_single(Seq::<char>::empty());
            assert(Seq::<char>::empty() + seq!['\n'] =~= newline());
        }
        let blank = Seq::<char>::empty();
        assert(trim_end(blank) == blank);
        assert(not_hash2(blank));
        lemma_quiet_step(labels, st, blank);
        let st1 = check_step(labels, st, blank);
        assert(trim_end(h) == h);
        let st2 = check_step(labels, st1, h);
        assert(st2 == CheckScan { current: Some(l.label), in_archive: false, ..st1 });
        assert(nothing_checked(st2));
        let head = newline() + h + newline();
        lemma_lines_append(newline(), h + newline());
        assert(newline() + (h + newline()) =~= head);
        assert(lines(head) =~= seq![blank, h]);
        lemma_scan_one(labels, st, blank);
        lemma_scan_one(labels, st1, h);
        lemma_scan_from_append(labels, st, seq![blank], seq![h]);
        assert(seq![blank] + seq![h] =~= seq![blank, h]);
        if !l.update {
            assert(s == head);
        } else {
            let es = lookup_group(groups, l.label)->0;
            assert(lookup_group(groups, l.label) is Some);
            assert(labels[i].label == l.label);
            assert(written_label(labels, l.label));
            assert forall|j: int| 0 <= j < es.len() implies single_line_item(#[trigger] es[j]) by {
                assert(es[j] == lookup_group(groups, l.label)->0[j]);
            }
            let body = if l.checkbox {
                checkbox_lines_spec(es, false)
            } else {
                plain_lines_spec(es)
            };
            assert(s == head + body);
            if l.checkbox {
                lemma_scan_checkbox_items(labels, st2, es);
            } else {
                lemma_scan_plain_items(labels, st2, es);
            }
            lemma_lines_append(head, body);
            lemma_scan_from_append(labels, st, lines(head), lines(body));
            if body.len() > 0 {
                assert(s.last() == body.last());
            }
        }
    }
}

/// The pass over the first `k` sections of a new document stays quiet.
proof fn lemma_scan_sections(
    root: Seq<char>,
    labels: Seq<LabelView>,
    groups: Seq<(Seq<char>, Seq<AnnotationView>)>,
    k: int,
)
    requires
        0 <= k <= labels.len(),
        !project_name(root).contains('\n'),
        forall|i: int| 0 <= i < labels.len() && labels[i].enabled ==> single_line_label(#[trigger] labels[i]),
        distinct_labels(labels),
        groups_single_line(labels, groups),
    ensures
        nothing_checked(
            check_scan(labels, lines(title_spec(root) + new_sections_spec(labels.take(k), groups))),
        ),
        (title_spec(root) + new_sections_spec(labels.take(k), groups)).last() == '\n',
    decreases k,
{
    let t = title_spec(root);
    if k == 0 {
        assert(labels.take(0) =~= Seq::<LabelView>::empty());
        assert(t + new_sections_spec(labels.take(0), groups) =~= t);
        let y = seq!['#', ' '] + project_name(root);
        assert(!seq!['#', ' '].contains('\n'));
        lemma_concat_single_line(seq!['#', ' '], project_name(root));
        lemma_lines_single(y);
        assert(t =~= y + seq!['\n']);
        let x = strip_last(y, '\r');
        let line = trim_end(x);
        lemma_trim_end_prefix(x);
        if line.len() >= 2 {
            assert(line[1] == x[1]);
            assert(x[1] == y[1]);
        }
        assert(not_hash2(line));
        lemma_quiet_step(labels, scan_start(), x);
        lemma_check_scan_is_scan_from(labels, seq![x]);
        lemma_scan_one(labels, scan_start(), x);
        assert(lines(t) == seq![x]);
    } else {
        lemma_scan_sections(root, labels, groups, k - 1);
        let prev = t + new_sections_spec(labels.take(k - 1), groups);
        let sec = new_section_spec(labels[k - 1], groups);
        assert(labels.take(k).drop_last() =~= labels.take(k - 1));
        assert(labels.take(k).last() == labels[k - 1]);
        assert(t + new_sections_spec(labels.take(k), groups) =~= prev + sec);
        lemma_lines_append(prev, sec);
        lemma_check_scan_is_scan_from(labels, lines(prev));
        lemma_check_scan_is_scan_from(labels, lines(prev) + lines(sec));
        lemma_scan_from_append(labels, scan_start(), lines(prev), lines(sec));
        lemma_scan_section(labels, k - 1, groups, check_scan(labels, lines(prev)));
        if sec.len() > 0 {
            assert((prev + sec).last() == sec.last());
        }
    }
}

/// Reading back a new document finds nothing checked and nothing archived:
/// the pass over its lines (what the reading of an existing document makes
/// of it) records every checkbox item as unchecked and opens no archive, so
/// an update that follows archives nothing that was not checked by hand.
/// It holds when the document's lines are the ones written: neither the
/// project name nor an enabled label's name or mark, nor the text or file
/// (as shown, relative to the root) of an annotation that is written, holds
/// a line break; enabled labels' names end in a visible character; and no
/// two labels share a name or a header.
pub proof fn lemma_new_document_reads_back_unchecked(
    root: Seq<char>,
    labels: Seq<LabelView>,
    anns: Seq<AnnotationView>,
)
    requires
        !project_name(root).contains('\n'),
        forall|i: int| 0 <= i < labels.len() && labels[i].enabled ==> single_line_label(#[trigger] labels[i]),
        distinct_labels(labels),
        forall|k: int|
            0 <= k < anns.len() && written_label(labels, canonical_label(labels, (#[trigger] anns[k]).label))
                ==> single_line_item(relative_item(root, anns[k])),
    ensures
        !check_scan(labels, lines(markdown_spec(root, labels, anns))).in_archive,
        check_scan(labels, lines(markdown_spec(root, labels, anns))).archived.len() == 0,
        forall|k: int|
            0 <= k < check_scan(labels, lines(markdown_spec(root, labels, anns))).states.len()
                ==> !(#[trigger] check_scan(labels, lines(markdown_spec(root, labels, anns))).states[k]).2,
{
    let ranns = relative_items(root, anns);
    let groups = group_annotations(labels, ranns);
    lemma_group_annotations(labels, ranns);
    assert forall|k: int|
        0 <= k < ranns.len() && written_label(labels, canonical_label(labels, (#[trigger] ranns[k]).label))
            implies single_line_item(ranns[k]) by {
        assert(ranns[k] == relative_item(root, anns[k]));
    }
    assert forall|key: Seq<char>|
        written_label(labels, key) && (#[trigger] lookup_group(groups, key)) is Some implies forall|j: int|
            0 <= j < lookup_group(groups, key)->0.len() ==> single_line_item(
                #[trigger] lookup_group(groups, key)->0[j],
            ) by {
        lemma_members_single_line(labels, ranns, key);
    }
    lemma_scan_sections(root, labels, groups, labels.len() as int);
    assert(labels.take(labels.len() as int) =~= labels);
}

// ---------------------------------------------------------------------------
// Updating a new document
// ---------------------------------------------------------------------------

/// Whether `name` is the name of an enabled checkbox label with `update`,
/// whose items an update rewrites by their trimmed text.
pub open spec fn written_checkbox_label(labels: Seq<LabelView>, name: Seq<char>) -> bool {
    exists|i: int|
        0 <= i < labels.len() && #[trigger] labels[i].label == name && labels[i].enabled
            && labels[i].update && labels[i].checkbox
}

/// The trimmed texts of a list of annotations.
pub open spec fn trimmed_texts(es: Seq<AnnotationView>) -> Seq<Seq<char>> {
    es.map_values(|a: AnnotationView| trim(a.content))
}

/// The items have non-blank, pairwise different trimmed texts.
pub open spec fn distinct_texts(es: Seq<AnnotationView>) -> bool {
    &&& forall|j: int| 0 <= j < es.len() ==> trim((#[trigger] es[j]).content).len() > 0
    &&& forall|j1: int, j2: int|
        0 <= j1 < j2 < es.len() ==> trim((#[trigger] es[j1]).content) != trim(
            (#[trigger] es[j2]).content,
        )
}

proof fn lemma_state_of_unchecked(
    states: Seq<(Seq<char>, Seq<char>, bool)>,
    label: Seq<char>,
    key: Seq<char>,
)
    requires
        forall|k: int| 0 <= k < states.len() ==> !(#[trigger] states[k]).2,
    ensures
        !state_of(states, label, key),
    decreases states.len(),
{
    if states.len() > 0 {
        let init = states.drop_last();
        assert(states.last() == states[states.len() - 1]);
        assert forall|k: int| 0 <= k < init.len() implies !(#[trigger] init[k]).2 by {
            assert(init[k] == states[k]);
        }
        lemma_state_of_unchecked(init, label, key);
    }
}

/// With nothing checked, items with distinct non-blank texts are all written
/// unchecked, in order, and nothing goes to the archive.
proof fn lemma_entries_fold_unchecked(
    states: Seq<(Seq<char>, Seq<char>, bool)>,
    label: Seq<char>,
    es: Seq<AnnotationView>,
)
    requires
        forall|k: int| 0 <= k < states.len() ==> !(#[trigger] states[k]).2,
        distinct_texts(es),
    ensures
        entries_fold(states, label, es) == (SectionAcc {
            seen: trimmed_texts(es),
            archived_keys: Seq::empty(),
            active: checkbox_lines_spec(es, false),
            archive: Seq::empty(),
        }),
    decreases es.len(),
{
    if es.len() == 0 {
        assert(trimmed_texts(es) =~= Seq::<Seq<char>>::empty());
    } else {
        let init = es.drop_last();
        let a = es.last();
        assert(a == es[es.len() - 1]);
        assert forall|j: int| 0 <= j < init.len() implies trim((#[trigger] init[j]).content).len() > 0 by {
            assert(init[j] == es[j]);
        }
        assert forall|j1: int, j2: int|
            0 <= j1 < j2 < init.len() implies trim((#[trigger] init[j1]).content) != trim(
            (#[trigger] init[j2]).content,
        ) by {
            assert(init[j1] == es[j1] && init[j2] == es[j2]);
        }
        lemma_entries_fold_unchecked(states, label, init);
        let key = trim(a.content);
        let seen = trimmed_texts(init);
        if seen.contains(key) {
            let j = choose|j: int| 0 <= j < seen.len() && seen[j] == key;
            assert(seen[j] == trim(es[j].content));
            assert(trim(es[j].content) != trim(es[es.len() - 1].content));
        }
        lemma_state_of_unchecked(states, label, key);
        assert(trimmed_texts(es) =~= seen.push(key));
    }
}

/// With nothing checked or archived, the checkbox section of a label with
/// items of distinct non-blank texts is those items unchecked, and no archive.
proof fn lemma_checkbox_sections_unchecked(
    entries: Option<Seq<AnnotationView>>,
    label: Seq<char>,
    data: CheckScan,
)
    requires
        nothing_checked(data),
        entries matches Some(es) ==> distinct_texts(es),
    ensures
        checkbox_sections_spec(entries, label, data.states, data.archived) == (
            match entries {
                Some(es) => checkbox_lines_spec(es, false),
                None => Seq::empty(),
            },
            Seq::<char>::empty(),
        ),
{
    let es = match entries {
        Some(e) => e,
        None => Seq::empty(),
    };
    if entries is None {
        assert(distinct_texts(es));
    }
    lemma_entries_fold_unchecked(data.states, label, es);
    assert(archived_of(data.archived, label) =~= Seq::<(Seq<char>, Seq<char>)>::empty());
    let acc = entries_fold(data.states, label, es);
    assert(archived_fold(acc, Seq::empty()) == acc);
    if entries is None {
        assert(checkbox_lines_spec(es, false) =~= Seq::<char>::empty());
    }
}

// ---------------------------------------------------------------------------
// Section bodies of a new document
// ---------------------------------------------------------------------------

/// The pass for section bodies over `lns`, starting from `st`.
pub open spec fn body_scan_from(labels: Seq<LabelView>, st: BodyScan, lns: Seq<Seq<char>>) -> BodyScan
    decreases lns.len(),
{
    if lns.len() == 0 {
        st
    } else {
        body_step(labels, body_scan_from(labels, st, lns.drop_last()), lns.last())
    }
}

/// The body pass before the first line.
pub open spec fn body_start() -> BodyScan {
    BodyScan { current: None, bodies: Seq::empty() }
}

proof fn lemma_body_scan_from_append(
    labels: Seq<LabelView>,
    st: BodyScan,
    l1: Seq<Seq<char>>,
    l2: Seq<Seq<char>>,
)
    ensures
        body_scan_from(labels, st, l1 + l2) == body_scan_from(
            labels,
            body_scan_from(labels, st, l1),
            l2,
        ),
    decreases l2.len(),
{
    if l2.len() == 0 {
        assert(l1 + l2 =~= l1);
    } else {
        lemma_body_scan_from_append(labels, st, l1, l2.drop_last());
        assert((l1 + l2).drop_last() =~= l1 + l2.drop_last());
        assert((l1 + l2).last() == l2.last());
    }
}

proof fn lemma_body_scan_is_from(labels: Seq<LabelView>, lns: Seq<Seq<char>>)
    ensures
        body_scan(labels, lns) == body_scan_from(labels, body_start(), lns),
    decreases lns.len(),
{
    if lns.len() > 0 {
        lemma_body_scan_is_from(labels, lns.drop_last());
    }
}

proof fn lemma_body_scan_one(labels: Seq<LabelView>, st: BodyScan, line: Seq<char>)
    ensures
        body_scan_from(labels, st, seq![line]) == body_step(labels, st, line),
{
    let l = seq![line];
    assert(l.drop_last() =~= Seq::<Seq<char>>::empty());
    assert(body_scan_from(labels, st, l.drop_last()) == st);
    assert(l.last() == line);
}

/// `body_index` finds the first body of a name.
proof fn lemma_body_index(bodies: Seq<(Seq<char>, Seq<char>)>, n: Seq<char>)
    ensures
        body_index(bodies, n) matches Some(j) ==> j < bodies.len() && bodies[j as int].0 == n,
        body_index(bodies, n) is None ==> forall|j: int| 0 <= j < bodies.len() ==> bodies[j].0 != n,
    decreases bodies.len(),
{
    if bodies.len() > 0 {
        let t = bodies.drop_first();
        lemma_body_index(t, n);
        assert forall|j: int| 1 <= j < bodies.len() implies #[trigger] bodies[j] == t[j - 1] by {}
    }
}

/// Bodies with the same names in the same order are found at the same index.
proof fn lemma_body_index_same_names(
    a: Seq<(Seq<char>, Seq<char>)>,
    b: Seq<(Seq<char>, Seq<char>)>,
    n: Seq<char>,
)
    requires
        a.len() == b.len(),
        forall|j: int| 0 <= j < a.len() ==> (#[trigger] a[j]).0 == b[j].0,
    ensures
        body_index(a, n) == body_index(b, n),
    decreases a.len(),
{
    if a.len() > 0 {
        let ta = a.drop_first();
        let tb = b.drop_first();
        assert forall|j: int| 0 <= j < ta.len() implies (#[trigger] ta[j]).0 == tb[j].0 by {
            assert(ta[j] == a[j + 1] && tb[j] == b[j + 1]);
        }
        lemma_body_index_same_names(ta, tb, n);
        assert(a[0].0 == b[0].0);
    }
}

/// A new body is found at the end, and the others where they were.
proof fn lemma_body_index_push(
    bodies: Seq<(Seq<char>, Seq<char>)>,
    x: (Seq<char>, Seq<char>),
    m: Seq<char>,
)
    ensures
        body_index(bodies.push(x), m) == (match body_index(bodies, m) {
            Some(j) => Some(j),
            None => if x.0 == m {
                Some(bodies.len())
            } else {
                None::<nat>
            },
        }),
    decreases bodies.len(),
{
    let p = bodies.push(x);
    if bodies.len() == 0 {
        assert(p.drop_first() =~= Seq::<(Seq<char>, Seq<char>)>::empty());
        assert(p[0] == x);
        assert(body_index(p.drop_first(), m) is None);
    } else {
        lemma_body_index_push(bodies.drop_first(), x, m);
        assert(p.drop_first() =~= bodies.drop_first().push(x));
        assert(p[0] == bodies[0]);
    }
}

/// The section body of `m` after a new body is added.
proof fn lemma_section_body_push(
    bodies: Seq<(Seq<char>, Seq<char>)>,
    x: (Seq<char>, Seq<char>),
    m: Seq<char>,
)
    requires
        body_index(bodies, x.0) is None,
    ensures
        section_body(bodies.push(x), m) == if x.0 == m {
            Some(x.1)
        } else {
            section_body(bodies, m)
        },
        (body_index(bodies.push(x), m) is None) == (body_index(bodies, m) is None && x.0 != m),
{
    lemma_body_index_push(bodies, x, m);
    lemma_body_index(bodies, m);
    if x.0 == m {
        assert(body_index(bodies, m) is None);
    }
}

/// The section body of `m` after the body at `j` is replaced.
proof fn lemma_section_body_update(
    bodies: Seq<(Seq<char>, Seq<char>)>,
    j: int,
    x: (Seq<char>, Seq<char>),
    m: Seq<char>,
)
    requires
        0 <= j,
        body_index(bodies, x.0) == Some(j as nat),
    ensures
        section_body(bodies.update(j, x), m) == if x.0 == m {
            Some(x.1)
        } else {
            section_body(bodies, m)
        },
        body_index(bodies.update(j, x), m) == body_index(bodies, m),
{
    lemma_body_index(bodies, x.0);
    assert(0 <= j < bodies.len());
    assert(bodies[j].0 == x.0);
    let u = bodies.update(j, x);
    assert(u.len() == bodies.len());
    assert forall|k: int| 0 <= k < u.len() implies (#[trigger] u[k]).0 == bodies[k].0 by {
        if k == j {
            assert(u[k] == x);
        } else {
            assert(u[k] == bodies[k]);
        }
    }
    lemma_body_index_same_names(u, bodies, m);
    lemma_body_index(bodies, m);
}

/// What the body pass has gathered after the title and the first `k`
/// sections of a new document: the body of every label without `update`
/// among them is empty or a single newline; labels from `k` on have no body
/// yet; and the current section, if any, is one of the first `k` labels,
/// whose body is empty when it has no `update`.
pub open spec fn bodies_inv(labels: Seq<LabelView>, st: BodyScan, k: int) -> bool {
    &&& forall|i: int|
        #![trigger labels[i]]
        0 <= i < k && labels[i].enabled && !labels[i].update ==> (section_body(
            st.bodies,
            labels[i].label,
        ) == Some(Seq::<char>::empty()) || section_body(st.bodies, labels[i].label) == Some(
            newline(),
        ))
    &&& forall|i: int|
        #![trigger labels[i]]
        k <= i < labels.len() ==> body_index(st.bodies, labels[i].label) is None
    &&& st.current matches Some(n) ==> (body_index(st.bodies, n) is Some && exists|i: int|
        #![trigger labels[i]]
        0 <= i < k && labels[i].label == n && (labels[i].update || section_body(st.bodies, n) == Some(
            Seq::<char>::empty(),
        )))
}

/// An item line of the section of an updated label adds to that label's body
/// only.
proof fn lemma_body_item_step(labels: Seq<LabelView>, st: BodyScan, k: int, y: Seq<char>)
    requires
        0 <= k < labels.len(),
        distinct_labels(labels),
        bodies_inv(labels, st, k + 1),
        st.current == Some(labels[k].label),
        labels[k].update,
        not_hash2(trim_end(y)),
    ensures
        bodies_inv(labels, body_step(labels, st, y), k + 1),
        body_step(labels, st, y).current == st.current,
{
    lemma_not_hash2(labels, trim_end(y));
    let n = labels[k].label;
    let j = body_index(st.bodies, n)->0;
    let x = (n, st.bodies[j as int].1 + y + newline());
    lemma_body_index(st.bodies, n);
    let next = body_step(labels, st, y);
    assert(next.bodies == st.bodies.update(j as int, x));
    assert forall|m: Seq<char>| true implies section_body(next.bodies, m) == (if n == m {
        Some(x.1)
    } else {
        section_body(st.bodies, m)
    }) && body_index(next.bodies, m) == body_index(st.bodies, m) by {
        lemma_section_body_update(st.bodies, j as int, x, m);
    }
    assert forall|i: int|
        #![trigger labels[i]]
        0 <= i < k + 1 && labels[i].enabled && !labels[i].update implies (section_body(
            next.bodies,
            labels[i].label,
        ) == Some(Seq::<char>::empty()) || section_body(next.bodies, labels[i].label) == Some(
            newline(),
        )) by {
        assert(i != k);
        assert(labels[i].label != n);
    }
    let i0 = choose|i: int|
        #![trigger labels[i]]
        0 <= i < k + 1 && labels[i].label == n && (labels[i].update || section_body(st.bodies, n)
            == Some(Seq::<char>::empty()));
    assert(labels[k].label == n);
}

/// The body pass over the items of an updated label keeps its gathering.
proof fn lemma_body_items(
    labels: Seq<LabelView>,
    st: BodyScan,
    k: int,
    es: Seq<AnnotationView>,
    prefix: Seq<char>,
)
    requires
        0 <= k < labels.len(),
        distinct_labels(labels),
        bodies_inv(labels, st, k + 1),
        st.current == Some(labels[k].label),
        labels[k].update,
        forall|j: int| 0 <= j < es.len() ==> single_line_item(#[trigger] es[j]),
        !prefix.contains('\n'),
        prefix.len() > 0,
        prefix[0] == '-',
    ensures
        bodies_inv(labels, body_scan_from(labels, st, lines(item_block(prefix, es))), k + 1),
        body_scan_from(labels, st, lines(item_block(prefix, es))).current == st.current,
        item_block(prefix, es).len() == 0 || item_block(prefix, es).last() == '\n',
    decreases es.len(),
{
    if es.len() == 0 {
        assert(lines(item_block(prefix, es)) =~= Seq::<Seq<char>>::empty());
    } else {
        let init = es.drop_last();
        let a = es.last();
        assert forall|j: int| 0 <= j < init.len() implies single_line_item(#[trigger] init[j]) by {
            assert(init[j] == es[j]);
        }
        lemma_body_items(labels, st, k, init, prefix);
        let x = item_block(prefix, init);
        lemma_item_text(prefix, a);
        let y = item_text(prefix, a);
        lemma_lines_append(x, y + newline());
        assert(item_block(prefix, es) =~= x + (y + newline()));
        lemma_body_scan_from_append(labels, st, lines(x), seq![y]);
        let mid = body_scan_from(labels, st, lines(x));
        lemma_body_scan_one(labels, mid, y);
        assert(trim_end(y) == y);
        lemma_body_item_step(labels, mid, k, y);
    }
}

/// Item lines `{prefix}{content} ({file}:{line})`, each with its newline.
pub open spec fn item_block(prefix: Seq<char>, es: Seq<AnnotationView>) -> Seq<char>
    decreases es.len(),
{
    if es.len() == 0 {
        Seq::empty()
    } else {
        item_block(prefix, es.drop_last()) + item_text(prefix, es.last()) + newline()
    }
}

proof fn lemma_item_blocks(es: Seq<AnnotationView>)
    ensures
        checkbox_lines_spec(es, false) == item_block(box_prefix(' '), es),
        plain_lines_spec(es) == item_block(seq!['-', ' '], es),
    decreases es.len(),
{
    if es.len() > 0 {
        lemma_item_blocks(es.drop_last());
        assert(checkbox_line_spec(es.last(), false) =~= item_text(box_prefix(' '), es.last()) + newline());
        assert(plain_line_spec(es.last()) =~= item_text(seq!['-', ' '], es.last()) + newline());
        assert(checkbox_lines_spec(es, false) =~= item_block(box_prefix(' '), es));
        assert(plain_lines_spec(es) =~= item_block(seq!['-', ' '], es));
    }
}

/// The body pass over the section of `labels[k]` in a new document.
proof fn lemma_body_section(
    labels: Seq<LabelView>,
    k: int,
    groups: Seq<(Seq<char>, Seq<AnnotationView>)>,
    st: BodyScan,
)
    requires
        0 <= k < labels.len(),
        distinct_labels(labels),
        labels[k].enabled ==> single_line_label(labels[k]),
        groups_single_line(labels, groups),
        bodies_inv(labels, st, k),
    ensures
        bodies_inv(labels, body_scan_from(labels, st, lines(new_section_spec(labels[k], groups))), k + 1),
{
    let l = labels[k];
    let h = header_spec(l.mark, l.label);
    let s = new_section_spec(l, groups);
    if !l.enabled || (l.update && lookup_group(groups, l.label) is None) {
        assert(s =~= Seq::<char>::empty());
        assert(lines(s) =~= Seq::<Seq<char>>::empty());
        assert(body_scan_from(labels, st, lines(s)) == st);
        if st.current is Some {
            let n = st.current->0;
            let i0 = choose|i: int|
                #![trigger labels[i]]
                0 <= i < k && labels[i].label == n && (labels[i].update || section_body(st.bodies, n)
                    == Some(Seq::<char>::empty()));
            assert(labels[i0].label == n);
        }
    } else {
        lemma_header_line(labels, k);
        lemma_visible_end_line(h);
        let blank = Seq::<char>::empty();
        assert(lines(newline()) == seq![blank]) by {
            lemma_lines_single(blank);
            assert(blank + seq!['\n'] =~= newline());
        }
        assert(trim_end(blank) == blank);
        lemma_not_hash2(labels, blank);
        let st1 = body_step(labels, st, blank);
        assert(st1.current == st.current);
        assert forall|m: Seq<char>| true implies body_index(st1.bodies, m) == body_index(st.bodies, m)
            && (section_body(st1.bodies, m) == section_body(st.bodies, m) || (st.current == Some(m)
            && section_body(st.bodies, m) is Some && section_body(st1.bodies, m) == Some(
            section_body(st.bodies, m)->0 + newline(),
        ))) by {
            if st.current is Some {
                let n = st.current->0;
                let j = body_index(st.bodies, n)->0;
                lemma_body_index(st.bodies, n);
                let x = (n, st.bodies[j as int].1 + blank + newline());
                assert(st1.bodies == st.bodies.update(j as int, x));
                lemma_section_body_update(st.bodies, j as int, x, m);
                assert(st.bodies[j as int].1 + blank + newline() =~= st.bodies[j as int].1 + newline());
            }
        }
        assert(trim_end(h) == h);
        let st2 = body_step(labels, st1, h);
        assert(body_index(st1.bodies, l.label) is None);
        let x2 = (l.label, Seq::<char>::empty());
        assert(st2.bodies == st1.bodies.push(x2));
        assert(st2.current == Some(l.label));
        assert forall|m: Seq<char>| true implies section_body(st2.bodies, m) == (if l.label == m {
            Some(Seq::<char>::empty())
        } else {
            section_body(st1.bodies, m)
        }) && (body_index(st2.bodies, m) is None) == (body_index(st1.bodies, m) is None && l.label
            != m) by {
            lemma_section_body_push(st1.bodies, x2, m);
        }
        assert forall|i: int|
            #![trigger labels[i]]
            0 <= i < k + 1 && labels[i].enabled && !labels[i].update implies (section_body(
                st2.bodies,
                labels[i].label,
            ) == Some(Seq::<char>::empty()) || section_body(st2.bodies, labels[i].label) == Some(
                newline(),
            )) by {
            if i < k {
                assert(labels[i].label != l.label);
                if st.current == Some(labels[i].label) {
                    let i0 = choose|i0: int|
                        #![trigger labels[i0]]
                        0 <= i0 < k && labels[i0].label == labels[i].label && (labels[i0].update
                            || section_body(st.bodies, labels[i].label) == Some(
                            Seq::<char>::empty(),
                        ));
                    assert(i0 == i);
                    assert(Seq::<char>::empty() + newline() =~= newline());
                }
            }
        }
        assert forall|i: int|
            #![trigger labels[i]]
            k + 1 <= i < labels.len() implies body_index(st2.bodies, labels[i].label) is None by {
            assert(labels[i].label != l.label);
        }
        assert(labels[k].label == l.label);
        let head = newline() + h + newline();
        lemma_lines_append(newline(), h + newline());
        assert(newline() + (h + newline()) =~= head);
        assert(lines(head) =~= seq![blank, h]);
        lemma_body_scan_one(labels, st, blank);
        lemma_body_scan_one(labels, st1, h);
        lemma_body_scan_from_append(labels, st, seq![blank], seq![h]);
        assert(seq![blank] + seq![h] =~= seq![blank, h]);
        assert(body_scan_from(labels, st, lines(head)) == st2);
        if !l.update {
            assert(s == head);
        } else {
            let es = lookup_group(groups, l.label)->0;
            assert(written_label(labels, l.label));
            assert forall|j: int| 0 <= j < es.len() implies single_line_item(#[trigger] es[j]) by {
                assert(es[j] == lookup_group(groups, l.label)->0[j]);
            }
            lemma_item_blocks(es);
            let prefix = if l.checkbox {
                box_prefix(' ')
            } else {
                seq!['-', ' ']
            };
            assert(!prefix.contains('\n'));
            let body = item_block(prefix, es);
            assert(s == head + body);
            lemma_body_items(labels, st2, k, es, prefix);
            lemma_lines_append(head, body);
            lemma_body_scan_from_append(labels, st, lines(head), lines(body));
        }
    }
}

/// The body pass over the title and the first `k` sections of a new document.
proof fn lemma_body_sections(
    root: Seq<char>,
    labels: Seq<LabelView>,
    groups: Seq<(Seq<char>, Seq<AnnotationView>)>,
    k: int,
)
    requires
        0 <= k <= labels.len(),
        !project_name(root).contains('\n'),
        forall|i: int| 0 <= i < labels.len() && labels[i].enabled ==> single_line_label(#[trigger] labels[i]),
        distinct_labels(labels),
        groups_single_line(labels, groups),
    ensures
        bodies_inv(
            labels,
            body_scan(labels, lines(title_spec(root) + new_sections_spec(labels.take(k), groups))),
            k,
        ),
        (title_spec(root) + new_sections_spec(labels.take(k), groups)).last() == '\n',
    decreases k,
{
    let t = title_spec(root);
    if k == 0 {
        assert(labels.take(0) =~= Seq::<LabelView>::empty());
        assert(t + new_sections_spec(labels.take(0), groups) =~= t);
        let y = seq!['#', ' '] + project_name(root);
        assert(!seq!['#', ' '].contains('\n'));
        lemma_concat_single_line(seq!['#', ' '], project_name(root));
        lemma_lines_single(y);
        assert(t =~= y + seq!['\n']);
        let x = strip_last(y, '\r');
        let line = trim_end(x);
        lemma_trim_end_prefix(x);
        if line.len() >= 2 {
            assert(line[1] == x[1]);
            assert(x[1] == y[1]);
        }
        assert(not_hash2(line));
        lemma_not_hash2(labels, line);
        lemma_body_scan_is_from(labels, seq![x]);
        lemma_body_scan_one(labels, body_start(), x);
        assert(lines(t) == seq![x]);
        assert(body_step(labels, body_start(), x) == body_start());
        assert forall|i: int|
            #![trigger labels[i]]
            0 <= i < labels.len() implies body_index(body_start().bodies, labels[i].label) is None by {}
    } else {
        lemma_body_sections(root, labels, groups, k - 1);
        let prev = t + new_sections_spec(labels.take(k - 1), groups);
        let sec = new_section_spec(labels[k - 1], groups);
        assert(labels.take(k).drop_last() =~= labels.take(k - 1));
        assert(labels.take(k).last() == labels[k - 1]);
        assert(t + new_sections_spec(labels.take(k), groups) =~= prev + sec);
        lemma_lines_append(prev, sec);
        lemma_body_scan_is_from(labels, lines(prev));
        lemma_body_scan_is_from(labels, lines(prev) + lines(sec));
        lemma_body_scan_from_append(labels, body_start(), lines(prev), lines(sec));
        lemma_body_section(labels, k - 1, groups, body_scan(labels, lines(prev)));
        lemma_scan_section(labels, k - 1, groups, scan_start());
        if sec.len() > 0 {
            assert((prev + sec).last() == sec.last());
        }
    }
}

/// The members of a group are annotations whose label stands for its key.
proof fn lemma_members_from(labels: Seq<LabelView>, anns: Seq<AnnotationView>, key: Seq<char>)
    ensures
        forall|j: int|
            0 <= j < group_members(labels, anns, key).len() ==> exists|k: int|
                0 <= k < anns.len() && anns[k] == #[trigger] group_members(labels, anns, key)[j]
                    && canonical_label(labels, anns[k].label) == key,
    decreases anns.len(),
{
    if anns.len() > 0 {
        let init = anns.drop_last();
        lemma_members_from(labels, init, key);
        let r = group_members(labels, init, key);
        assert forall|j: int| 0 <= j < group_members(labels, anns, key).len() implies exists|k: int|
            0 <= k < anns.len() && anns[k] == #[trigger] group_members(labels, anns, key)[j]
                && canonical_label(labels, anns[k].label) == key by {
            if j < r.len() {
                let k = choose|k: int|
                    0 <= k < init.len() && init[k] == #[trigger] r[j] && canonical_label(
                        labels,
                        init[k].label,
                    ) == key;
                assert(anns[k] == init[k]);
                assert(group_members(labels, anns, key)[j] == r[j]);
            } else {
                assert(group_members(labels, anns, key)[j] == anns[anns.len() - 1]);
            }
        }
    }
}

/// The members of a written checkbox label's group have distinct non-blank
/// texts when its annotations do.
proof fn lemma_members_distinct(labels: Seq<LabelView>, anns: Seq<AnnotationView>, key: Seq<char>)
    requires
        forall|k: int|
            0 <= k < anns.len() && canonical_label(labels, (#[trigger] anns[k]).label) == key
                ==> trim(anns[k].content).len() > 0,
        forall|k1: int, k2: int|
            0 <= k1 < k2 < anns.len() && canonical_label(labels, (#[trigger] anns[k1]).label) == key
                && canonical_label(labels, (#[trigger] anns[k2]).label) == key ==> trim(
                anns[k1].content,
            ) != trim(anns[k2].content),
    ensures
        distinct_texts(group_members(labels, anns, key)),
    decreases anns.len(),
{
    let g = group_members(labels, anns, key);
    if anns.len() > 0 {
        let init = anns.drop_last();
        let n = anns.len() - 1;
        assert forall|k: int|
            0 <= k < init.len() && canonical_label(labels, (#[trigger] init[k]).label) == key
                implies trim(init[k].content).len() > 0 by {
            assert(init[k] == anns[k]);
        }
        assert forall|k1: int, k2: int|
            0 <= k1 < k2 < init.len() && canonical_label(labels, (#[trigger] init[k1]).label) == key
                && canonical_label(labels, (#[trigger] init[k2]).label) == key implies trim(
                init[k1].content,
            ) != trim(init[k2].content) by {
            assert(init[k1] == anns[k1] && init[k2] == anns[k2]);
        }
        lemma_members_distinct(labels, init, key);
        lemma_members_from(labels, init, key);
        let r = group_members(labels, init, key);
        if canonical_label(labels, anns.last().label) == key {
            assert(g == r.push(anns.last()));
            assert(anns.last() == anns[n]);
            assert forall|j: int| 0 <= j < g.len() implies trim((#[trigger] g[j]).content).len() > 0 by {
                if j < r.len() {
                    assert(g[j] == r[j]);
                } else {
                    assert(g[j] == anns[n]);
                }
            }
            assert forall|j1: int, j2: int|
                0 <= j1 < j2 < g.len() implies trim((#[trigger] g[j1]).content) != trim(
                (#[trigger] g[j2]).content,
            ) by {
                assert(g[j1] == r[j1]);
                if j2 < r.len() {
                    assert(g[j2] == r[j2]);
                } else {
                    assert(g[j2] == anns[n]);
                    let k = choose|k: int|
                        0 <= k < init.len() && init[k] == #[trigger] r[j1] && canonical_label(
                            labels,
                            init[k].label,
                        ) == key;
                    assert(anns[k] == init[k]);
                }
            }
        } else {
            assert(g == r);
        }
    }
}

/// An update of a new document writes each section as the new document has it.
proof fn lemma_updated_section_of_new(
    labels: Seq<LabelView>,
    i: int,
    groups: Seq<(Seq<char>, Seq<AnnotationView>)>,
    data: CheckScan,
    bodies: Seq<(Seq<char>, Seq<char>)>,
)
    requires
        0 <= i < labels.len(),
        nothing_checked(data),
        labels[i].enabled && !labels[i].update ==> (section_body(bodies, labels[i].label) is None
            || section_body(bodies, labels[i].label) == Some(Seq::<char>::empty())),
        labels[i].enabled && labels[i].update && labels[i].checkbox ==> (lookup_group(
            groups,
            labels[i].label,
        ) matches Some(es) ==> distinct_texts(es) && es.len() > 0),
    ensures
        updated_section_spec(labels[i], groups, data, bodies) == new_section_spec(labels[i], groups),
{
    let l = labels[i];
    if l.enabled && l.update && l.checkbox {
        let entries = lookup_group(groups, l.label);
        lemma_checkbox_sections_unchecked(entries, l.label, data);
        match entries {
            Some(es) => {
                lemma_item_blocks(es);
                let last = item_text(box_prefix(' '), es.last()) + newline();
                assert(checkbox_lines_spec(es, false).len() >= last.len());
            },
            None => {},
        }
    }
}

/// An update of a new document writes its first `k` sections as they are.
proof fn lemma_updated_sections_of_new(
    labels: Seq<LabelView>,
    groups: Seq<(Seq<char>, Seq<AnnotationView>)>,
    data: CheckScan,
    bodies: Seq<(Seq<char>, Seq<char>)>,
    k: int,
)
    requires
        0 <= k <= labels.len(),
        nothing_checked(data),
        forall|i: int|
            0 <= i < labels.len() && labels[i].enabled && !labels[i].update ==> (section_body(
                bodies,
                (#[trigger] labels[i]).label,
            ) is None || section_body(bodies, labels[i].label) == Some(Seq::<char>::empty())),
        forall|i: int|
            0 <= i < labels.len() && labels[i].enabled && labels[i].update && labels[i].checkbox
                ==> (lookup_group(groups, (#[trigger] labels[i]).label) matches Some(es)
                ==> distinct_texts(es) && es.len() > 0),
    ensures
        updated_sections_spec(labels.take(k), groups, data, bodies) == new_sections_spec(
            labels.take(k),
            groups,
        ),
    decreases k,
{
    if k > 0 {
        lemma_updated_sections_of_new(labels, groups, data, bodies, k - 1);
        assert(labels.take(k).drop_last() =~= labels.take(k - 1));
        assert(labels.take(k).last() == labels[k - 1]);
        lemma_updated_section_of_new(labels, k - 1, groups, data, bodies);
    } else {
        assert(labels.take(0) =~= Seq::<LabelView>::empty());
    }
}

/// Updating a new document with the annotations it was made from gives the
/// same document back: nothing is checked in it, so no item moves to an
/// archive, every item is kept, and sections without `update` keep their
/// empty text. Besides what reading it back needs (see
/// [`lemma_new_document_reads_back_unchecked`]), the items of each checkbox
/// label that is written must have non-blank, pairwise different trimmed
/// texts, since an update writes one item per text.
pub proof fn lemma_update_keeps_new_document(
    root: Seq<char>,
    labels: Seq<LabelView>,
    anns: Seq<AnnotationView>,
)
    requires
        !project_name(root).contains('\n'),
        forall|i: int| 0 <= i < labels.len() && labels[i].enabled ==> single_line_label(#[trigger] labels[i]),
        distinct_labels(labels),
        forall|k: int|
            0 <= k < anns.len() && written_label(labels, canonical_label(labels, (#[trigger] anns[k]).label))
                ==> single_line_item(relative_item(root, anns[k])),
        forall|k: int|
            0 <= k < anns.len() && written_checkbox_label(
                labels,
                canonical_label(labels, (#[trigger] anns[k]).label),
            ) ==> trim(anns[k].content).len() > 0,
        forall|k1: int, k2: int|
            0 <= k1 < k2 < anns.len() && written_checkbox_label(
                labels,
                canonical_label(labels, (#[trigger] anns[k1]).label),
            ) && canonical_label(labels, anns[k1].label) == canonical_label(
                labels,
                (#[trigger] anns[k2]).label,
            ) ==> trim(anns[k1].content) != trim(anns[k2].content),
    ensures
        updated_markdown_spec(markdown_spec(root, labels, anns), root, labels, anns)
            == markdown_spec(root, labels, anns),
{
    let d = markdown_spec(root, labels, anns);
    let ranns = relative_items(root, anns);
    let groups = group_annotations(labels, ranns);
    lemma_new_document_reads_back_unchecked(root, labels, anns);
    let data = check_scan(labels, lines(d));
    lemma_group_annotations(labels, ranns);
    assert forall|k: int|
        0 <= k < ranns.len() && written_label(labels, canonical_label(labels, (#[trigger] ranns[k]).label))
            implies single_line_item(ranns[k]) by {
        assert(ranns[k] == relative_item(root, anns[k]));
    }
    assert forall|key: Seq<char>|
        written_label(labels, key) && (#[trigger] lookup_group(groups, key)) is Some implies forall|j: int|
            0 <= j < lookup_group(groups, key)->0.len() ==> single_line_item(
                #[trigger] lookup_group(groups, key)->0[j],
            ) by {
        lemma_members_single_line(labels, ranns, key);
    }
    lemma_body_sections(root, labels, groups, labels.len() as int);
    assert(labels.take(labels.len() as int) =~= labels);
    let raw = body_scan(labels, lines(d));
    let bodies = section_bodies_spec(labels, d);
    assert(bodies == raw.bodies.map_values(
        |b: (Seq<char>, Seq<char>)| (b.0, strip_last(b.1, '\n')),
    ));
    assert forall|i: int|
        0 <= i < labels.len() && labels[i].enabled && !labels[i].update implies section_body(
            bodies,
            (#[trigger] labels[i]).label,
        ) == Some(Seq::<char>::empty()) by {
        let n = labels[i].label;
        assert forall|j: int| 0 <= j < bodies.len() implies (#[trigger] bodies[j]).0 == raw.bodies[j].0 by {}
        lemma_body_index_same_names(bodies, raw.bodies, n);
        let j = body_index(raw.bodies, n)->0;
        lemma_body_index(raw.bodies, n);
        assert(bodies[j as int].1 == strip_last(raw.bodies[j as int].1, '\n'));
        assert(strip_last(Seq::<char>::empty(), '\n') == Seq::<char>::empty());
        assert(strip_last(newline(), '\n') =~= Seq::<char>::empty());
    }
    assert forall|i: int|
        0 <= i < labels.len() && labels[i].enabled && labels[i].update && labels[i].checkbox
            implies (lookup_group(groups, (#[trigger] labels[i]).label) matches Some(es)
            ==> distinct_texts(es) && es.len() > 0) by {
        let n = labels[i].label;
        assert(written_checkbox_label(labels, n));
        lemma_relative_members_distinct(root, labels, anns, n);
    }
    lemma_updated_sections_of_new(labels, groups, data, bodies, labels.len() as int);
}

/// Updating an empty (or missing) document gives what a new document gives,
/// when the items of each checkbox label that is written have non-blank,
/// pairwise different trimmed texts (an update writes one item per text).
pub proof fn lemma_update_of_empty_is_new(
    root: Seq<char>,
    labels: Seq<LabelView>,
    anns: Seq<AnnotationView>,
)
    requires
        forall|k: int|
            0 <= k < anns.len() && written_checkbox_label(
                labels,
                canonical_label(labels, (#[trigger] anns[k]).label),
            ) ==> trim(anns[k].content).len() > 0,
        forall|k1: int, k2: int|
            0 <= k1 < k2 < anns.len() && written_checkbox_label(
                labels,
                canonical_label(labels, (#[trigger] anns[k1]).label),
            ) && canonical_label(labels, anns[k1].label) == canonical_label(
                labels,
                (#[trigger] anns[k2]).label,
            ) ==> trim(anns[k1].content) != trim(anns[k2].content),
    ensures
        updated_markdown_spec(Seq::empty(), root, labels, anns) == markdown_spec(root, labels, anns),
{
    let groups = group_annotations(labels, relative_items(root, anns));
    let e = Seq::<char>::empty();
    assert(lines(e) =~= Seq::<Seq<char>>::empty());
    let data = check_scan(labels, lines(e));
    assert(nothing_checked(data));
    let bodies = section_bodies_spec(labels, e);
    assert(body_scan(labels, lines(e)).bodies =~= Seq::<(Seq<char>, Seq<char>)>::empty());
    assert(bodies =~= Seq::<(Seq<char>, Seq<char>)>::empty());
    lemma_group_annotations(labels, relative_items(root, anns));
    assert forall|i: int|
        0 <= i < labels.len() && labels[i].enabled && labels[i].update && labels[i].checkbox
            implies (lookup_group(groups, (#[trigger] labels[i]).label) matches Some(es)
            ==> distinct_texts(es) && es.len() > 0) by {
        let n = labels[i].label;
        assert(written_checkbox_label(labels, n));
        lemma_relative_members_distinct(root, labels, anns, n);
    }
    lemma_updated_sections_of_new(labels, groups, data, bodies, labels.len() as int);
    assert(labels.take(labels.len() as int) =~= labels);
}

/// The members of a written checkbox label's group, files made relative,
/// have distinct non-blank texts when its annotations do.
proof fn lemma_relative_members_distinct(
    root: Seq<char>,
    labels: Seq<LabelView>,
    anns: Seq<AnnotationView>,
    key: Seq<char>,
)
    requires
        forall|k: int|
            0 <= k < anns.len() && canonical_label(labels, (#[trigger] anns[k]).label) == key
                ==> trim(anns[k].content).len() > 0,
        forall|k1: int, k2: int|
            0 <= k1 < k2 < anns.len() && canonical_label(labels, (#[trigger] anns[k1]).label) == key
                && canonical_label(labels, (#[trigger] anns[k2]).label) == key ==> trim(
                anns[k1].content,
            ) != trim(anns[k2].content),
    ensures
        distinct_texts(group_members(labels, relative_items(root, anns), key)),
{
    let r = relative_items(root, anns);
    assert forall|k: int| 0 <= k < r.len() implies (#[trigger] r[k]).label == anns[k].label
        && r[k].content == anns[k].content by {}
    assert forall|k: int|
        0 <= k < r.len() && canonical_label(labels, (#[trigger] r[k]).label) == key implies trim(
            r[k].content,
        ).len() > 0 by {
        assert(r[k].label == anns[k].label);
    }
    assert forall|k1: int, k2: int|
        0 <= k1 < k2 < r.len() && canonical_label(labels, (#[trigger] r[k1]).label) == key
            && canonical_label(labels, (#[trigger] r[k2]).label) == key implies trim(r[k1].content)
            != trim(r[k2].content) by {
        assert(r[k1].label == anns[k1].label && r[k2].label == anns[k2].label);
    }
    lemma_members_distinct(labels, r, key);
}

// ---------------------------------------------------------------------------
// A second update
// ---------------------------------------------------------------------------

/// The items of a checkbox section that an update writes unchecked, in order.
pub open spec fn written_active(
    states: Seq<(Seq<char>, Seq<char>, bool)>,
    label: Seq<char>,
    items: Seq<AnnotationView>,
) -> Seq<AnnotationView>
    decreases items.len(),
{
    if items.len() == 0 {
        Seq::empty()
    } else {
        let rest = written_active(states, label, items.drop_last());
        let key = trim(items.last().content);
        if key.len() == 0 || entries_fold(states, label, items.drop_last()).seen.contains(key)
            || state_of(states, label, key) {
            rest
        } else {
            rest.push(items.last())
        }
    }
}

/// The items of a checkbox section that an update moves to the archive, in
/// order.
pub open spec fn written_checked(
    states: Seq<(Seq<char>, Seq<char>, bool)>,
    label: Seq<char>,
    items: Seq<AnnotationView>,
) -> Seq<AnnotationView>
    decreases items.len(),
{
    if items.len() == 0 {
        Seq::empty()
    } else {
        let rest = written_checked(states, label, items.drop_last());
        let key = trim(items.last().content);
        if key.len() == 0 || entries_fold(states, label, items.drop_last()).seen.contains(key)
            || !state_of(states, label, key) {
            rest
        } else {
            rest.push(items.last())
        }
    }
}

/// The existing archived items (key, line) that an update keeps, in order.
pub open spec fn kept_archived(acc: SectionAcc, items: Seq<(Seq<char>, Seq<char>)>) -> Seq<
    (Seq<char>, Seq<char>),
>
    decreases items.len(),
{
    if items.len() == 0 {
        Seq::empty()
    } else {
        let rest = kept_archived(acc, items.drop_last());
        let f = archived_fold(acc, items.drop_last());
        let it = items.last();
        if f.seen.contains(it.0) || f.archived_keys.contains(it.0) {
            rest
        } else {
            rest.push(it)
        }
    }
}

/// The lines of `items`, each followed by a newline.
pub open spec fn nl_lines(items: Seq<(Seq<char>, Seq<char>)>) -> Seq<char>
    decreases items.len(),
{
    if items.len() == 0 {
        Seq::empty()
    } else {
        nl_lines(items.drop_last()) + items.last().1 + newline()
    }
}

/// What the rendering of a checkbox section writes, item by item.
proof fn lemma_entries_fold_parts(
    states: Seq<(Seq<char>, Seq<char>, bool)>,
    label: Seq<char>,
    items: Seq<AnnotationView>,
)
    ensures
        entries_fold(states, label, items).active == checkbox_lines_spec(
            written_active(states, label, items),
            false,
        ),
        entries_fold(states, label, items).archive == checkbox_lines_spec(
            written_checked(states, label, items),
            true,
        ),
        forall|k: Seq<char>|
            #[trigger] entries_fold(states, label, items).seen.contains(k) ==> (trimmed_texts(
                written_active(states, label, items),
            ).contains(k) && !state_of(states, label, k)) || (trimmed_texts(
                written_checked(states, label, items),
            ).contains(k) && state_of(states, label, k)),
        forall|j: int|
            0 <= j < written_active(states, label, items).len() ==> !state_of(
                states,
                label,
                trim((#[trigger] written_active(states, label, items)[j]).content),
            ) && trim(written_active(states, label, items)[j].content).len() > 0
                && items.contains(written_active(states, label, items)[j]),
        forall|j: int|
            0 <= j < written_checked(states, label, items).len() ==> state_of(
                states,
                label,
                trim((#[trigger] written_checked(states, label, items)[j]).content),
            ) && trim(written_checked(states, label, items)[j].content).len() > 0
                && entries_fold(states, label, items).seen.contains(
                trim(written_checked(states, label, items)[j].content),
            ) && items.contains(written_checked(states, label, items)[j]),
    decreases items.len(),
{
    if items.len() > 0 {
        let init = items.drop_last();
        let a = items.last();
        lemma_entries_fold_parts(states, label, init);
        let key = trim(a.content);
        let wa0 = written_active(states, label, init);
        let wc0 = written_checked(states, label, init);
        let wa = written_active(states, label, items);
        let wc = written_checked(states, label, items);
        let f0 = entries_fold(states, label, init);
        let f = entries_fold(states, label, items);
        assert(items.last() == items[items.len() - 1]);
        assert forall|x: AnnotationView| init.contains(x) implies items.contains(x) by {
            let j = choose|j: int| 0 <= j < init.len() && init[j] == x;
            assert(items[j] == init[j]);
        }
        if !(key.len() == 0 || f0.seen.contains(key)) {
            if state_of(states, label, key) {
                assert(wc == wc0.push(a));
                assert(trimmed_texts(wc) =~= trimmed_texts(wc0).push(key));
                assert(checkbox_lines_spec(wc, true) =~= checkbox_lines_spec(wc0, true)
                    + checkbox_line_spec(a, true)) by {
                    assert(wc.drop_last() =~= wc0);
                }
                assert forall|j: int| 0 <= j < wc.len() implies state_of(
                    states,
                    label,
                    trim((#[trigger] wc[j]).content),
                ) && trim(wc[j].content).len() > 0 && f.seen.contains(trim(wc[j].content))
                    && items.contains(wc[j]) by {
                    assert(f.seen == f0.seen.push(key));
                    if j < wc0.len() {
                        assert(wc[j] == wc0[j]);
                        let k = trim(wc0[j].content);
                        let i = choose|i: int| 0 <= i < f0.seen.len() && f0.seen[i] == k;
                        assert(f.seen[i] == k);
                    } else {
                        assert(wc[j] == a);
                        assert(f.seen == f0.seen.push(key));
                        assert(f.seen[f0.seen.len() as int] == key);
                    }
                }
                assert forall|k: Seq<char>| #[trigger] f.seen.contains(k) implies (trimmed_texts(
                    wa,
                ).contains(k) && !state_of(states, label, k)) || (trimmed_texts(wc).contains(k)
                    && state_of(states, label, k)) by {
                    if k != key {
                        assert(f.seen == f0.seen.push(key));
                        let i = choose|i: int| 0 <= i < f.seen.len() && f.seen[i] == k;
                        assert(f0.seen[i] == k);
                        assert(f0.seen.contains(k));
                        if trimmed_texts(wc0).contains(k) {
                            let m = choose|m: int| 0 <= m < trimmed_texts(wc0).len() && trimmed_texts(wc0)[m] == k;
                            assert(trimmed_texts(wc)[m] == k);
                        }
                    } else {
                        assert(trimmed_texts(wc)[wc0.len() as int] == key);
                    }
                }
            } else {
                assert(wa == wa0.push(a));
                assert(trimmed_texts(wa) =~= trimmed_texts(wa0).push(key));
                assert(checkbox_lines_spec(wa, false) =~= checkbox_lines_spec(wa0, false)
                    + checkbox_line_spec(a, false)) by {
                    assert(wa.drop_last() =~= wa0);
                }
                assert forall|j: int| 0 <= j < wa.len() implies !state_of(
                    states,
                    label,
                    trim((#[trigger] wa[j]).content),
                ) && trim(wa[j].content).len() > 0 && items.contains(wa[j]) by {
                    if j < wa0.len() {
                        assert(wa[j] == wa0[j]);
                    } else {
                        assert(wa[j] == a);
                    }
                }
                assert forall|j: int| 0 <= j < wc.len() implies f.seen.contains(
                    trim((#[trigger] wc[j]).content),
                ) by {
                    assert(f.seen == f0.seen.push(key));
                    let k = trim(wc[j].content);
                    let i = choose|i: int| 0 <= i < f0.seen.len() && f0.seen[i] == k;
                    assert(f.seen[i] == k);
                }
                assert forall|k: Seq<char>| #[trigger] f.seen.contains(k) implies (trimmed_texts(
                    wa,
                ).contains(k) && !state_of(states, label, k)) || (trimmed_texts(wc).contains(k)
                    && state_of(states, label, k)) by {
                    if k != key {
                        assert(f.seen == f0.seen.push(key));
                        let i = choose|i: int| 0 <= i < f.seen.len() && f.seen[i] == k;
                        assert(f0.seen[i] == k);
                        assert(f0.seen.contains(k));
                        if trimmed_texts(wa0).contains(k) {
                            let m = choose|m: int| 0 <= m < trimmed_texts(wa0).len() && trimmed_texts(wa0)[m] == k;
                            assert(trimmed_texts(wa)[m] == k);
                        }
                    } else {
                        assert(trimmed_texts(wa)[wa0.len() as int] == key);
                    }
                }
            }
        } else {
            assert(f == f0);
        }
    }
}

/// The rendering of a checkbox section depends on the states only through
/// the keys it writes.
proof fn lemma_entries_fold_agree(
    s1: Seq<(Seq<char>, Seq<char>, bool)>,
    s2: Seq<(Seq<char>, Seq<char>, bool)>,
    label: Seq<char>,
    items: Seq<AnnotationView>,
)
    requires
        forall|k: Seq<char>|
            #[trigger] entries_fold(s1, label, items).seen.contains(k) ==> state_of(s1, label, k)
                == state_of(s2, label, k),
    ensures
        entries_fold(s2, label, items) == entries_fold(s1, label, items),
    decreases items.len(),
{
    if items.len() > 0 {
        let init = items.drop_last();
        let f0 = entries_fold(s1, label, init);
        let f = entries_fold(s1, label, items);
        let key = trim(items.last().content);
        assert forall|k: Seq<char>| #[trigger] f0.seen.contains(k) implies state_of(s1, label, k)
            == state_of(s2, label, k) by {
            let i = choose|i: int| 0 <= i < f0.seen.len() && f0.seen[i] == k;
            if !(key.len() == 0 || f0.seen.contains(key)) {
                assert(f.seen == f0.seen.push(key));
                assert(f.seen[i] == k);
            }
            assert(f.seen.contains(k));
        }
        lemma_entries_fold_agree(s1, s2, label, init);
        if !(key.len() == 0 || f0.seen.contains(key)) {
            assert(f.seen == f0.seen.push(key));
            assert(f.seen[f0.seen.len() as int] == key);
            assert(f.seen.contains(key));
        }
    }
}

/// Folding archived items over a list split in two.
proof fn lemma_archived_fold_append(
    acc: SectionAcc,
    p: Seq<(Seq<char>, Seq<char>)>,
    q: Seq<(Seq<char>, Seq<char>)>,
)
    ensures
        archived_fold(acc, p + q) == archived_fold(archived_fold(acc, p), q),
    decreases q.len(),
{
    if q.len() == 0 {
        assert(p + q =~= p);
    } else {
        lemma_archived_fold_append(acc, p, q.drop_last());
        assert((p + q).drop_last() =~= p + q.drop_last());
        assert((p + q).last() == q.last());
    }
}

/// Archived items whose keys were written already change nothing.
proof fn lemma_archived_fold_seen(acc: SectionAcc, p: Seq<(Seq<char>, Seq<char>)>)
    requires
        forall|j: int| 0 <= j < p.len() ==> acc.seen.contains(#[trigger] p[j].0),
    ensures
        archived_fold(acc, p) == acc,
    decreases p.len(),
{
    if p.len() > 0 {
        let init = p.drop_last();
        assert forall|j: int| 0 <= j < init.len() implies acc.seen.contains(#[trigger] init[j].0) by {
            assert(init[j] == p[j]);
        }
        lemma_archived_fold_seen(acc, init);
        assert(p.last() == p[p.len() - 1]);
    }
}

/// What the archive keeps of the existing archived items.
proof fn lemma_kept_archived(acc: SectionAcc, items: Seq<(Seq<char>, Seq<char>)>)
    ensures
        archived_fold(acc, items).archive == acc.archive + nl_lines(kept_archived(acc, items)),
        archived_fold(acc, items).seen == acc.seen,
        archived_fold(acc, items).active == acc.active,
        archived_fold(acc, kept_archived(acc, items)) == archived_fold(acc, items),
        forall|j: int|
            0 <= j < kept_archived(acc, items).len() ==> !acc.seen.contains(
                (#[trigger] kept_archived(acc, items)[j]).0,
            ) && items.contains(kept_archived(acc, items)[j]),
    decreases items.len(),
{
    if items.len() > 0 {
        let init = items.drop_last();
        let it = items.last();
        lemma_kept_archived(acc, init);
        let k0 = kept_archived(acc, init);
        let f0 = archived_fold(acc, init);
        assert(items.last() == items[items.len() - 1]);
        assert forall|x: (Seq<char>, Seq<char>)| init.contains(x) implies items.contains(x) by {
            let j = choose|j: int| 0 <= j < init.len() && init[j] == x;
            assert(items[j] == init[j]);
        }
        if !(f0.seen.contains(it.0) || f0.archived_keys.contains(it.0)) {
            let k1 = k0.push(it);
            assert(kept_archived(acc, items) == k1);
            assert(k1.drop_last() =~= k0);
            assert(nl_lines(k1) == nl_lines(k0) + it.1 + newline());
            assert(archived_fold(acc, k1) == archived_step(archived_fold(acc, k0), it));
            assert forall|j: int| 0 <= j < k1.len() implies !acc.seen.contains((#[trigger] k1[j]).0)
                && items.contains(k1[j]) by {
                if j < k0.len() {
                    assert(k1[j] == k0[j]);
                }
            }
        }
    }
}

/// The checkbox state of `key` is unaffected by entries of other labels in
/// front.
proof fn lemma_state_of_other_front(
    xs: Seq<(Seq<char>, Seq<char>, bool)>,
    ys: Seq<(Seq<char>, Seq<char>, bool)>,
    label: Seq<char>,
    key: Seq<char>,
)
    requires
        forall|j: int| 0 <= j < xs.len() ==> (#[trigger] xs[j]).0 != label,
    ensures
        state_of(xs + ys, label, key) == state_of(ys, label, key),
    decreases ys.len(),
{
    if ys.len() == 0 {
        assert(xs + ys =~= xs);
        lemma_state_of_absent(xs, label, key);
    } else {
        lemma_state_of_other_front(xs, ys.drop_last(), label, key);
        assert((xs + ys).drop_last() =~= xs + ys.drop_last());
        assert((xs + ys).last() == ys.last());
    }
}

/// Without an entry for `key`, its state is unchecked.
proof fn lemma_state_of_absent(xs: Seq<(Seq<char>, Seq<char>, bool)>, label: Seq<char>, key: Seq<char>)
    requires
        forall|j: int| 0 <= j < xs.len() ==> !((#[trigger] xs[j]).0 == label && xs[j].1 == key),
    ensures
        !state_of(xs, label, key),
    decreases xs.len(),
{
    if xs.len() > 0 {
        let init = xs.drop_last();
        assert forall|j: int| 0 <= j < init.len() implies !((#[trigger] init[j]).0 == label && init[j].1
            == key) by {
            assert(init[j] == xs[j]);
        }
        assert(xs.last() == xs[xs.len() - 1]);
        lemma_state_of_absent(init, label, key);
    }
}

/// Entries behind without `key` do not change its state.
proof fn lemma_state_of_absent_back(
    xs: Seq<(Seq<char>, Seq<char>, bool)>,
    ys: Seq<(Seq<char>, Seq<char>, bool)>,
    label: Seq<char>,
    key: Seq<char>,
)
    requires
        forall|j: int| 0 <= j < ys.len() ==> !((#[trigger] ys[j]).0 == label && ys[j].1 == key),
    ensures
        state_of(xs + ys, label, key) == state_of(xs, label, key),
    decreases ys.len(),
{
    if ys.len() == 0 {
        assert(xs + ys =~= xs);
    } else {
        let init = ys.drop_last();
        assert forall|j: int| 0 <= j < init.len() implies !((#[trigger] init[j]).0 == label && init[j].1
            == key) by {
            assert(init[j] == ys[j]);
        }
        assert(ys.last() == ys[ys.len() - 1]);
        lemma_state_of_absent_back(xs, init, label, key);
        assert((xs + ys).drop_last() =~= xs + init);
        assert((xs + ys).last() == ys.last());
    }
}

/// When every entry carries `b` and one is for `key`, its state is `b`.
proof fn lemma_state_of_uniform(
    xs: Seq<(Seq<char>, Seq<char>, bool)>,
    label: Seq<char>,
    key: Seq<char>,
    b: bool,
)
    requires
        forall|j: int| 0 <= j < xs.len() ==> (#[trigger] xs[j]).2 == b,
        exists|j: int| 0 <= j < xs.len() && (#[trigger] xs[j]).0 == label && xs[j].1 == key,
    ensures
        state_of(xs, label, key) == b,
    decreases xs.len(),
{
    let n = xs.len() - 1;
    assert(xs.last() == xs[n]);
    if !(xs[n].0 == label && xs[n].1 == key) {
        let init = xs.drop_last();
        let j = choose|j: int| 0 <= j < xs.len() && (#[trigger] xs[j]).0 == label && xs[j].1 == key;
        assert(init[j] == xs[j]);
        assert forall|i: int| 0 <= i < init.len() implies (#[trigger] init[i]).2 == b by {
            assert(init[i] == xs[i]);
        }
        lemma_state_of_uniform(init, label, key, b);
    }
}

/// The archived items of a label in a list made of two parts.
proof fn lemma_archived_of_append(
    xs: Seq<(Seq<char>, Seq<char>, Seq<char>)>,
    ys: Seq<(Seq<char>, Seq<char>, Seq<char>)>,
    label: Seq<char>,
)
    ensures
        archived_of(xs + ys, label) == archived_of(xs, label) + archived_of(ys, label),
    decreases ys.len(),
{
    if ys.len() == 0 {
        assert(xs + ys =~= xs);
        assert(archived_of(ys, label) =~= Seq::<(Seq<char>, Seq<char>)>::empty());
        assert(archived_of(xs, label) + archived_of(ys, label) =~= archived_of(xs, label));
    } else {
        lemma_archived_of_append(xs, ys.drop_last(), label);
        assert((xs + ys).drop_last() =~= xs + ys.drop_last());
        assert((xs + ys).last() == ys.last());
        if ys.last().0 == label {
            assert(archived_of(xs, label) + archived_of(ys, label) =~= (archived_of(xs, label)
                + archived_of(ys.drop_last(), label)).push((ys.last().1, ys.last().2)));
        }
    }
}

/// The archived items of a label from a list that holds no other label.
proof fn lemma_archived_of_own(ys: Seq<(Seq<char>, Seq<char>, Seq<char>)>, label: Seq<char>)
    requires
        forall|j: int| 0 <= j < ys.len() ==> (#[trigger] ys[j]).0 == label,
    ensures
        archived_of(ys, label) == ys.map_values(
            |e: (Seq<char>, Seq<char>, Seq<char>)| (e.1, e.2),
        ),
    decreases ys.len(),
{
    if ys.len() > 0 {
        let init = ys.drop_last();
        assert forall|j: int| 0 <= j < init.len() implies (#[trigger] init[j]).0 == label by {
            assert(init[j] == ys[j]);
        }
        lemma_archived_of_own(init, label);
        assert(ys.last() == ys[ys.len() - 1]);
        assert(ys.map_values(|e: (Seq<char>, Seq<char>, Seq<char>)| (e.1, e.2)) =~= init.map_values(
            |e: (Seq<char>, Seq<char>, Seq<char>)| (e.1, e.2),
        ).push((ys.last().1, ys.last().2)));
    } else {
        assert(ys.map_values(|e: (Seq<char>, Seq<char>, Seq<char>)| (e.1, e.2)) =~= Seq::<
            (Seq<char>, Seq<char>),
        >::empty());
    }
}

/// A list without entries of a label has no archived items of it.
proof fn lemma_archived_of_none(ys: Seq<(Seq<char>, Seq<char>, Seq<char>)>, label: Seq<char>)
    requires
        forall|j: int| 0 <= j < ys.len() ==> (#[trigger] ys[j]).0 != label,
    ensures
        archived_of(ys, label) == Seq::<(Seq<char>, Seq<char>)>::empty(),
    decreases ys.len(),
{
    if ys.len() > 0 {
        let init = ys.drop_last();
        assert forall|j: int| 0 <= j < init.len() implies (#[trigger] init[j]).0 != label by {
            assert(init[j] == ys[j]);
        }
        assert(ys.last() == ys[ys.len() - 1]);
        lemma_archived_of_none(init, label);
    }
}

/// The checkbox states an item list is read with.
pub open spec fn item_states(label: Seq<char>, items: Seq<AnnotationView>, check: bool) -> Seq<
    (Seq<char>, Seq<char>, bool),
> {
    items.map_values(|a: AnnotationView| (label, trim(a.content), check))
}

/// The archived entries that checked item lines are read as.
pub open spec fn item_archive(label: Seq<char>, items: Seq<AnnotationView>) -> Seq<
    (Seq<char>, Seq<char>, Seq<char>),
> {
    items.map_values(|a: AnnotationView| (label, trim(a.content), item_text(box_prefix('x'), a)))
}

/// The checkbox states kept archived lines are read with.
pub open spec fn kept_states(label: Seq<char>, k: Seq<(Seq<char>, Seq<char>)>) -> Seq<
    (Seq<char>, Seq<char>, bool),
> {
    k.map_values(|e: (Seq<char>, Seq<char>)| (label, e.0, true))
}

/// The archived entries kept archived lines are read as.
pub open spec fn kept_archive(label: Seq<char>, k: Seq<(Seq<char>, Seq<char>)>) -> Seq<
    (Seq<char>, Seq<char>, Seq<char>),
> {
    k.map_values(|e: (Seq<char>, Seq<char>)| (label, e.0, e.1))
}

/// An item that is written as a checkbox line and read back by its text.
pub open spec fn readable_item(a: AnnotationView) -> bool {
    &&& single_line_item(a)
    &&& parens_closed(a.content)
    &&& !closes_then_opens(a.file)
}

/// An archived line that reads back with its key.
pub open spec fn readable_archived(e: (Seq<char>, Seq<char>)) -> bool {
    &&& !e.1.contains('\n')
    &&& trim_end(e.1) == e.1
    &&& content_key_spec(e.1) == Some(e.0)
}

/// A line that is a checkbox item does not start with `#`.
proof fn lemma_checkbox_line_not_hash(x: Seq<char>)
    requires
        content_key_spec(x) is Some,
    ensures
        x.len() > 0,
        x[0] != '#',
{
    let t = trim(x);
    assert(t.len() >= 6);
    crate::text::lemma_trim_end_prefix(trim_start(x));
    if x.len() == 0 {
        assert(trim_start(x) == x);
    }
    if x.len() > 0 && x[0] == '#' {
        assert(trim_start(x) == x);
        assert(t[0] == x[0]);
        assert(t.take(6)[0] == '-');
    }
}

/// Reading item lines of a checkbox label in its section.
proof fn lemma_scan_item_lines(
    labels: Seq<LabelView>,
    st: CheckScan,
    label: Seq<char>,
    items: Seq<AnnotationView>,
    check: bool,
)
    requires
        st.current == Some(label),
        is_checkbox_label(labels, label),
        st.in_archive == check,
        forall|j: int|
            0 <= j < items.len() ==> readable_item(#[trigger] items[j]) && trim(items[j].content).len()
                > 0,
    ensures
        scan_from(labels, st, lines(checkbox_lines_spec(items, check))) == (CheckScan {
            states: st.states + item_states(label, items, check),
            archived: if check {
                st.archived + item_archive(label, items)
            } else {
                st.archived
            },
            ..st
        }),
        checkbox_lines_spec(items, check).len() == 0 || checkbox_lines_spec(items, check).last()
            == '\n',
    decreases items.len(),
{
    if items.len() == 0 {
        assert(lines(checkbox_lines_spec(items, check)) =~= Seq::<Seq<char>>::empty());
        assert(st.states + item_states(label, items, check) =~= st.states);
        assert(st.archived + item_archive(label, items) =~= st.archived);
    } else {
        let init = items.drop_last();
        let a = items.last();
        assert(a == items[items.len() - 1]);
        assert forall|j: int| 0 <= j < init.len() implies readable_item(#[trigger] init[j]) && trim(
            init[j].content,
        ).len() > 0 by {
            assert(init[j] == items[j]);
        }
        lemma_scan_item_lines(labels, st, label, init, check);
        let x = checkbox_lines_spec(init, check);
        let c = if check { 'x' } else { ' ' };
        let p = box_prefix(c);
        assert(!p.contains('\n'));
        lemma_item_text(p, a);
        let y = item_text(p, a);
        assert(checkbox_line_spec(a, check) =~= y + newline());
        lemma_lines_append(x, y + newline());
        lemma_scan_from_append(labels, st, lines(x), seq![y]);
        let mid = scan_from(labels, st, lines(x));
        lemma_scan_one(labels, mid, y);
        crate::format::markdown::lemma_written_line_reads_back(a, check);
        assert(checkbox_line_spec(a, check).drop_last() =~= y);
        lemma_not_hash2(labels, y);
        assert(content_key_spec(y) == Some(trim(a.content)));
        assert(is_checked_spec(y) == check);
        assert(item_states(label, items, check) =~= item_states(label, init, check).push(
            (label, trim(a.content), check),
        ));
        assert(item_archive(label, items) =~= item_archive(label, init).push(
            (label, trim(a.content), item_text(box_prefix('x'), a)),
        ));
    }
}

/// Reading the kept archived lines of a checkbox label in its archive.
proof fn lemma_scan_kept_lines(
    labels: Seq<LabelView>,
    st: CheckScan,
    label: Seq<char>,
    k: Seq<(Seq<char>, Seq<char>)>,
)
    requires
        st.current == Some(label),
        is_checkbox_label(labels, label),
        st.in_archive,
        forall|j: int| 0 <= j < k.len() ==> readable_archived(#[trigger] k[j]),
    ensures
        scan_from(labels, st, lines(nl_lines(k))) == (CheckScan {
            states: st.states + kept_states(label, k),
            archived: st.archived + kept_archive(label, k),
            ..st
        }),
        nl_lines(k).len() == 0 || nl_lines(k).last() == '\n',
    decreases k.len(),
{
    if k.len() == 0 {
        assert(lines(nl_lines(k)) =~= Seq::<Seq<char>>::empty());
        assert(st.states + kept_states(label, k) =~= st.states);
        assert(st.archived + kept_archive(label, k) =~= st.archived);
    } else {
        let init = k.drop_last();
        let e = k.last();
        assert(e == k[k.len() - 1]);
        assert forall|j: int| 0 <= j < init.len() implies readable_archived(#[trigger] init[j]) by {
            assert(init[j] == k[j]);
        }
        lemma_scan_kept_lines(labels, st, label, init);
        let x = nl_lines(init);
        let y = e.1;
        lemma_checkbox_line_not_hash(y);
        assert(y.last() == y[y.len() - 1]);
        if is_ws(y.last()) {
            assert(trim_end(y) == trim_end(y.drop_last()));
            crate::text::lemma_trim_end_prefix(y.drop_last());
        }
        lemma_visible_end_line(y);
        assert(nl_lines(k) == x + y + newline());
        assert(x + y + newline() =~= x + (y + newline()));
        lemma_lines_append(x, y + newline());
        lemma_scan_from_append(labels, st, lines(x), seq![y]);
        let mid = scan_from(labels, st, lines(x));
        lemma_scan_one(labels, mid, y);
        lemma_not_hash2(labels, y);
        assert(kept_states(label, k) =~= kept_states(label, init).push((label, e.0, true)));
        assert(kept_archive(label, k) =~= kept_archive(label, init).push((label, e.0, e.1)));
    }
}

/// The items of a label's group, none when it has no group.
pub open spec fn entries_of(groups: Seq<(Seq<char>, Seq<AnnotationView>)>, name: Seq<char>) -> Seq<
    AnnotationView,
> {
    match lookup_group(groups, name) {
        Some(e) => e,
        None => Seq::empty(),
    }
}

/// The existing archived items that an update of label `l` keeps.
pub open spec fn section_kept(
    l: LabelView,
    groups: Seq<(Seq<char>, Seq<AnnotationView>)>,
    data: CheckScan,
) -> Seq<(Seq<char>, Seq<char>)> {
    kept_archived(
        entries_fold(data.states, l.label, entries_of(groups, l.label)),
        archived_of(data.archived, l.label),
    )
}

/// What reading the section of `l` in an updated document records: its
/// checkbox states and its archived items.
pub open spec fn section_read(
    l: LabelView,
    groups: Seq<(Seq<char>, Seq<AnnotationView>)>,
    data: CheckScan,
) -> (Seq<(Seq<char>, Seq<char>, bool)>, Seq<(Seq<char>, Seq<char>, Seq<char>)>) {
    if l.enabled && l.checkbox {
        let es = entries_of(groups, l.label);
        let u = written_active(data.states, l.label, es);
        let c = written_checked(data.states, l.label, es);
        let k = section_kept(l, groups, data);
        (
            item_states(l.label, u, false) + item_states(l.label, c, true) + kept_states(l.label, k),
            item_archive(l.label, c) + kept_archive(l.label, k),
        )
    } else {
        (Seq::empty(), Seq::empty())
    }
}

/// What reading the sections of `labels` in an updated document records.
pub open spec fn doc_read(
    labels: Seq<LabelView>,
    groups: Seq<(Seq<char>, Seq<AnnotationView>)>,
    data: CheckScan,
) -> (Seq<(Seq<char>, Seq<char>, bool)>, Seq<(Seq<char>, Seq<char>, Seq<char>)>)
    decreases labels.len(),
{
    if labels.len() == 0 {
        (Seq::empty(), Seq::empty())
    } else {
        let prev = doc_read(labels.drop_last(), groups, data);
        let sec = section_read(labels.last(), groups, data);
        (prev.0 + sec.0, prev.1 + sec.1)
    }
}

/// A header has `' '` at index 2, so a line with another character there is
/// no header.
proof fn lemma_not_header3(labels: Seq<LabelView>, line: Seq<char>)
    requires
        line.len() >= 3,
        line[2] != ' ',
    ensures
        header_label(labels, line) is None,
    decreases labels.len(),
{
    if labels.len() > 0 {
        let h = header_spec(labels.last().mark, labels.last().label);
        assert(h[2] == ' ');
        lemma_not_header3(labels.drop_last(), line);
    }
}

/// An archive header is one line that ends in the label's name.
proof fn lemma_archive_header_line(labels: Seq<LabelView>, i: int)
    requires
        0 <= i < labels.len(),
        single_line_label(labels[i]),
    ensures
        !archive_header_spec(labels[i].label).contains('\n'),
        archive_header_spec(labels[i].label).len() > 0,
        !is_ws(archive_header_spec(labels[i].label).last()),
        archive_header_spec(labels[i].label).len() >= 3,
        archive_header_spec(labels[i].label)[2] != ' ',
{
    let ah = archive_header_spec(labels[i].label);
    assert(!archive_prefix3().contains('\n'));
    lemma_concat_single_line(archive_prefix3(), labels[i].label);
    assert(ah.last() == labels[i].label.last());
    assert(ah[2] == '#');
}

/// A checkbox label's archive header opens its archive and no other.
proof fn lemma_archive_label_unique(labels: Seq<LabelView>, i: int)
    requires
        0 <= i < labels.len(),
        labels[i].checkbox,
        distinct_labels(labels),
    ensures
        archive_label(labels, archive_header_spec(labels[i].label)) == Some(labels[i].label),
    decreases labels.len(),
{
    let ah = archive_header_spec(labels[i].label);
    let n = labels.len() - 1;
    assert(labels.last() == labels[n]);
    if i < n {
        let m = labels[n].label;
        assert(m != labels[i].label);
        if ah == archive_prefix3() + m {
            assert(ah.skip(12) =~= m);
            assert(ah.skip(12) =~= labels[i].label);
        }
        if ah == archive_prefix2() + m {
            assert(ah[2] == '#');
            assert((archive_prefix2() + m)[2] == ' ');
        }
        let t = labels.drop_last();
        assert forall|a: int, b: int|
            0 <= a < t.len() && 0 <= b < t.len() && a != b implies (#[trigger] t[a]).label
            != (#[trigger] t[b]).label && header_spec(t[a].mark, t[a].label) != header_spec(
            t[b].mark,
            t[b].label,
        ) by {
            assert(t[a] == labels[a] && t[b] == labels[b]);
        }
        assert(t[i] == labels[i]);
        lemma_archive_label_unique(t, i);
    }
}

/// The plain items of a section that is not of a checkbox label leave the
/// reading as it was.
proof fn lemma_scan_plain_exact(labels: Seq<LabelView>, st: CheckScan, es: Seq<AnnotationView>)
    requires
        st.current matches Some(n) ==> !is_checkbox_label(labels, n),
        forall|j: int| 0 <= j < es.len() ==> single_line_item(#[trigger] es[j]),
    ensures
        scan_from(labels, st, lines(plain_lines_spec(es))) == st,
        plain_lines_spec(es).len() == 0 || plain_lines_spec(es).last() == '\n',
    decreases es.len(),
{
    if es.len() == 0 {
        assert(lines(plain_lines_spec(es)) =~= Seq::<Seq<char>>::empty());
    } else {
        let init = es.drop_last();
        let a = es.last();
        assert forall|j: int| 0 <= j < init.len() implies single_line_item(#[trigger] init[j]) by {
            assert(init[j] == es[j]);
        }
        lemma_scan_plain_exact(labels, st, init);
        let x = plain_lines_spec(init);
        let p = seq!['-', ' '];
        assert(!p.contains('\n'));
        lemma_item_text(p, a);
        let y = item_text(p, a);
        assert(plain_line_spec(a) =~= y + newline());
        lemma_lines_append(x, y + newline());
        lemma_scan_from_append(labels, st, lines(x), seq![y]);
        lemma_scan_one(labels, st, y);
        lemma_not_hash2(labels, y);
    }
}

/// Item lines are never empty, so no items give no text.
proof fn lemma_lines_empty(items: Seq<AnnotationView>, check: bool, k: Seq<(Seq<char>, Seq<char>)>)
    ensures
        checkbox_lines_spec(items, check).len() == 0 ==> items.len() == 0,
        nl_lines(k).len() == 0 ==> k.len() == 0,
{
    if items.len() > 0 {
        assert(checkbox_lines_spec(items, check).len() >= checkbox_line_spec(items.last(), check).len());
    }
    if k.len() > 0 {
        assert(nl_lines(k).len() >= 1);
    }
}

/// What reading back the section of `l` in an updated document asks of it:
/// an enabled label is rewritten on one line, its items fit on one line, a
/// checkbox label's items read back by their texts, and its archived items
/// by their keys.
spec fn section_readable(
    l: LabelView,
    groups: Seq<(Seq<char>, Seq<AnnotationView>)>,
    data: CheckScan,
) -> bool {
    &&& l.enabled ==> single_line_label(l) && l.update
    &&& l.enabled ==> forall|j: int|
        0 <= j < entries_of(groups, l.label).len() ==> single_line_item(
            #[trigger] entries_of(groups, l.label)[j],
        )
    &&& l.enabled && l.checkbox ==> forall|j: int|
        0 <= j < entries_of(groups, l.label).len() ==> readable_item(
            #[trigger] entries_of(groups, l.label)[j],
        )
    &&& l.checkbox ==> forall|j: int|
        0 <= j < archived_of(data.archived, l.label).len() ==> readable_archived(
            #[trigger] archived_of(data.archived, l.label)[j],
        )
}

/// Reading the section of `labels[i]` in an updated document adds what
/// `section_read` says.
#[verifier::rlimit(40)]
proof fn lemma_scan_updated_section(
    labels: Seq<LabelView>,
    i: int,
    groups: Seq<(Seq<char>, Seq<AnnotationView>)>,
    data: CheckScan,
    bodies: Seq<(Seq<char>, Seq<char>)>,
    st: CheckScan,
)
    requires
        0 <= i < labels.len(),
        distinct_labels(labels),
        section_readable(labels[i], groups, data),
    ensures
        scan_from(labels, st, lines(updated_section_spec(labels[i], groups, data, bodies))).states
            == st.states + section_read(labels[i], groups, data).0,
        scan_from(labels, st, lines(updated_section_spec(labels[i], groups, data, bodies))).archived
            == st.archived + section_read(labels[i], groups, data).1,
        updated_section_spec(labels[i], groups, data, bodies).len() == 0 || updated_section_spec(
            labels[i],
            groups,
            data,
            bodies,
        ).last() == '\n',
{
    let l = labels[i];
    let name = l.label;
    let txt = updated_section_spec(l, groups, data, bodies);
    let read = section_read(l, groups, data);
    let es = entries_of(groups, name);
    if !l.enabled {
        assert(txt =~= Seq::<char>::empty());
        assert(lines(txt) =~= Seq::<Seq<char>>::empty());
        assert(st.states + read.0 =~= st.states);
        assert(st.archived + read.1 =~= st.archived);
        return;
    }
    let h = header_spec(l.mark, name);
    lemma_header_line(labels, i);
    lemma_visible_end_line(h);
    let blank = Seq::<char>::empty();
    assert(lines(newline()) == seq![blank]) by {
        lemma_lines_single(blank);
        assert(blank + seq!['\n'] =~= newline());
    }
    assert(trim_end(blank) == blank);
    lemma_not_hash2(labels, blank);
    assert(trim(blank) =~= blank);
    assert(content_key_spec(blank) is None);
    let st1 = check_step(labels, st, blank);
    assert(st1 == st);
    let st2 = check_step(labels, st1, h);
    assert(trim_end(h) == h);
    assert(st2 == CheckScan { current: Some(name), in_archive: false, ..st });
    let head = newline() + h + newline();
    lemma_lines_append(newline(), h + newline());
    assert(newline() + (h + newline()) =~= head);
    assert(lines(head) =~= seq![blank, h]);
    lemma_scan_one(labels, st, blank);
    lemma_scan_one(labels, st1, h);
    lemma_scan_from_append(labels, st, seq![blank], seq![h]);
    assert(seq![blank] + seq![h] =~= seq![blank, h]);
    assert(scan_from(labels, st, lines(head)) == st2);
    if !l.checkbox {
        assert(read.0 =~= Seq::<(Seq<char>, Seq<char>, bool)>::empty());
        assert(read.1 =~= Seq::<(Seq<char>, Seq<char>, Seq<char>)>::empty());
        assert(st.states + read.0 =~= st.states);
        assert(st.archived + read.1 =~= st.archived);
        match lookup_group(groups, name) {
            None => {
                assert(txt =~= Seq::<char>::empty());
                assert(lines(txt) =~= Seq::<Seq<char>>::empty());
            },
            Some(e) => {
                assert(es == e);
                assert(txt == head + plain_lines_spec(es));
                lemma_scan_plain_exact(labels, st2, es);
                lemma_lines_append(head, plain_lines_spec(es));
                lemma_scan_from_append(labels, st, lines(head), lines(plain_lines_spec(es)));
                if plain_lines_spec(es).len() > 0 {
                    assert(txt.last() == plain_lines_spec(es).last());
                }
            },
        }
        return;
    }
    let entries = lookup_group(groups, name);
    let acc_e = entries_fold(data.states, name, es);
    let o = archived_of(data.archived, name);
    let u = written_active(data.states, name, es);
    let c = written_checked(data.states, name, es);
    let k = section_kept(l, groups, data);
    lemma_entries_fold_parts(data.states, name, es);
    lemma_kept_archived(acc_e, o);
    let a1 = checkbox_lines_spec(u, false);
    let ck = checkbox_lines_spec(c, true);
    let r1 = ck + nl_lines(k);
    assert(checkbox_sections_spec(entries, name, data.states, data.archived) == (a1, r1));
    lemma_lines_empty(u, false, k);
    lemma_lines_empty(c, true, k);
    assert forall|j: int| 0 <= j < u.len() implies readable_item(#[trigger] u[j]) && trim(
        u[j].content,
    ).len() > 0 by {
        assert(es.contains(u[j]));
        let m = choose|m: int| 0 <= m < es.len() && es[m] == u[j];
    }
    assert forall|j: int| 0 <= j < c.len() implies readable_item(#[trigger] c[j]) && trim(
        c[j].content,
    ).len() > 0 by {
        assert(es.contains(c[j]));
        let m = choose|m: int| 0 <= m < es.len() && es[m] == c[j];
    }
    assert forall|j: int| 0 <= j < k.len() implies readable_archived(#[trigger] k[j]) by {
        assert(o.contains(k[j]));
        let m = choose|m: int| 0 <= m < o.len() && o[m] == k[j];
    }
    if a1.len() == 0 && r1.len() == 0 {
        assert(txt =~= Seq::<char>::empty());
        assert(lines(txt) =~= Seq::<Seq<char>>::empty());
        assert(u.len() == 0 && c.len() == 0 && k.len() == 0);
        assert(read.0 =~= Seq::<(Seq<char>, Seq<char>, bool)>::empty());
        assert(read.1 =~= Seq::<(Seq<char>, Seq<char>, Seq<char>)>::empty());
        assert(st.states + read.0 =~= st.states);
        assert(st.archived + read.1 =~= st.archived);
        return;
    }
    lemma_scan_item_lines(labels, st2, name, u, false);
    let st3 = scan_from(labels, st2, lines(a1));
    let ah = archive_header_spec(name);
    let tail = if r1.len() > 0 {
        ah + newline() + r1
    } else {
        Seq::empty()
    };
    assert(txt == head + a1 + tail);
    lemma_lines_append(head, a1 + tail);
    assert(head + (a1 + tail) =~= head + a1 + tail);
    lemma_lines_append(a1, tail);
    lemma_scan_from_append(labels, st, lines(head), lines(a1) + lines(tail));
    lemma_scan_from_append(labels, st2, lines(a1), lines(tail));
    if r1.len() == 0 {
        assert(c.len() == 0 && k.len() == 0);
        assert(lines(tail) =~= Seq::<Seq<char>>::empty());
        assert(read.0 =~= item_states(name, u, false));
        assert(read.1 =~= Seq::<(Seq<char>, Seq<char>, Seq<char>)>::empty());
        assert(st.archived + read.1 =~= st.archived);
        assert(txt.last() == a1.last());
    } else {
        lemma_archive_header_line(labels, i);
        lemma_visible_end_line(ah);
        lemma_not_header3(labels, ah);
        lemma_archive_label_unique(labels, i);
        let st4 = check_step(labels, st3, ah);
        assert(st4 == CheckScan { current: Some(name), in_archive: true, ..st3 });
        lemma_lines_append(ah + newline(), r1);
        assert(ah + newline() + r1 =~= (ah + newline()) + r1);
        lemma_scan_item_lines(labels, st4, name, c, true);
        let st5 = scan_from(labels, st4, lines(ck));
        lemma_scan_kept_lines(labels, st5, name, k);
        lemma_lines_append(ck, nl_lines(k));
        lemma_scan_one(labels, st3, ah);
        lemma_scan_from_append(labels, st3, seq![ah], lines(r1));
        lemma_scan_from_append(labels, st4, lines(ck), lines(nl_lines(k)));
        assert(lines(tail) == seq![ah] + lines(r1));
        assert(st.states + read.0 =~= st.states + item_states(name, u, false) + item_states(name, c, true)
            + kept_states(name, k));
        assert(st.archived + read.1 =~= st.archived + item_archive(name, c) + kept_archive(name, k));
        if nl_lines(k).len() > 0 {
            assert(r1.last() == nl_lines(k).last());
        } else {
            assert(r1 =~= ck);
        }
        assert(txt.last() == r1.last());
    }
}

/// Every entry read from the section of `l` is of `l`.
proof fn lemma_section_read_label(
    l: LabelView,
    groups: Seq<(Seq<char>, Seq<AnnotationView>)>,
    data: CheckScan,
)
    ensures
        forall|j: int|
            0 <= j < section_read(l, groups, data).0.len() ==> (#[trigger] section_read(
                l,
                groups,
                data,
            ).0[j]).0 == l.label,
        forall|j: int|
            0 <= j < section_read(l, groups, data).1.len() ==> (#[trigger] section_read(
                l,
                groups,
                data,
            ).1[j]).0 == l.label,
{
    let r = section_read(l, groups, data);
    if l.enabled && l.checkbox {
        let es = entries_of(groups, l.label);
        let u = written_active(data.states, l.label, es);
        let c = written_checked(data.states, l.label, es);
        let k = section_kept(l, groups, data);
        let s1 = item_states(l.label, u, false);
        let s2 = item_states(l.label, c, true);
        let s3 = kept_states(l.label, k);
        assert forall|j: int| 0 <= j < r.0.len() implies (#[trigger] r.0[j]).0 == l.label by {
            if j < s1.len() {
                assert(r.0[j] == s1[j]);
            } else if j < s1.len() + s2.len() {
                assert(r.0[j] == s2[j - s1.len()]);
            } else {
                assert(r.0[j] == s3[j - s1.len() - s2.len()]);
            }
        }
        let a1 = item_archive(l.label, c);
        let a2 = kept_archive(l.label, k);
        assert forall|j: int| 0 <= j < r.1.len() implies (#[trigger] r.1[j]).0 == l.label by {
            if j < a1.len() {
                assert(r.1[j] == a1[j]);
            } else {
                assert(r.1[j] == a2[j - a1.len()]);
            }
        }
    }
}

/// Every entry read from the sections of `labels.take(m)` is of one of them.
proof fn lemma_doc_read_labels(
    labels: Seq<LabelView>,
    groups: Seq<(Seq<char>, Seq<AnnotationView>)>,
    data: CheckScan,
    m: int,
)
    requires
        0 <= m <= labels.len(),
    ensures
        forall|j: int|
            0 <= j < doc_read(labels.take(m), groups, data).0.len() ==> exists|p: int|
                0 <= p < m && (#[trigger] doc_read(labels.take(m), groups, data).0[j]).0
                    == #[trigger] labels[p].label,
        forall|j: int|
            0 <= j < doc_read(labels.take(m), groups, data).1.len() ==> exists|p: int|
                0 <= p < m && (#[trigger] doc_read(labels.take(m), groups, data).1[j]).0
                    == #[trigger] labels[p].label,
    decreases m,
{
    if m == 0 {
        assert(labels.take(0) =~= Seq::<LabelView>::empty());
    } else {
        lemma_doc_read_labels(labels, groups, data, m - 1);
        let t = labels.take(m);
        assert(t.drop_last() =~= labels.take(m - 1));
        assert(t.last() == labels[m - 1]);
        let prev = doc_read(labels.take(m - 1), groups, data);
        let sec = section_read(labels[m - 1], groups, data);
        let d = doc_read(t, groups, data);
        assert(d == (prev.0 + sec.0, prev.1 + sec.1));
        lemma_section_read_label(labels[m - 1], groups, data);
        assert forall|j: int| 0 <= j < d.0.len() implies exists|p: int|
            0 <= p < m && (#[trigger] d.0[j]).0 == #[trigger] labels[p].label by {
            if j < prev.0.len() {
                assert(d.0[j] == prev.0[j]);
                let p = choose|p: int| 0 <= p < m - 1 && prev.0[j].0 == #[trigger] labels[p].label;
                assert(labels[p].label == d.0[j].0);
            } else {
                assert(d.0[j] == sec.0[j - prev.0.len()]);
                assert(labels[m - 1].label == d.0[j].0);
            }
        }
        assert forall|j: int| 0 <= j < d.1.len() implies exists|p: int|
            0 <= p < m && (#[trigger] d.1[j]).0 == #[trigger] labels[p].label by {
            if j < prev.1.len() {
                assert(d.1[j] == prev.1[j]);
                let p = choose|p: int| 0 <= p < m - 1 && prev.1[j].0 == #[trigger] labels[p].label;
                assert(labels[p].label == d.1[j].0);
            } else {
                assert(d.1[j] == sec.1[j - prev.1.len()]);
                assert(labels[m - 1].label == d.1[j].0);
            }
        }
    }
}

/// A later entry for `key` decides its state, whatever comes before.
proof fn lemma_state_of_present_back(
    xs: Seq<(Seq<char>, Seq<char>, bool)>,
    ys: Seq<(Seq<char>, Seq<char>, bool)>,
    label: Seq<char>,
    key: Seq<char>,
)
    requires
        exists|j: int| 0 <= j < ys.len() && (#[trigger] ys[j]).0 == label && ys[j].1 == key,
    ensures
        state_of(xs + ys, label, key) == state_of(ys, label, key),
    decreases ys.len(),
{
    let n = ys.len() - 1;
    assert(ys.last() == ys[n]);
    assert((xs + ys).last() == ys[n]);
    assert((xs + ys).drop_last() =~= xs + ys.drop_last());
    if !(ys[n].0 == label && ys[n].1 == key) {
        let init = ys.drop_last();
        let j = choose|j: int| 0 <= j < ys.len() && (#[trigger] ys[j]).0 == label && ys[j].1 == key;
        assert(init[j] == ys[j]);
        lemma_state_of_present_back(xs, init, label, key);
    }
}

/// What reading the sections of `labels.take(m)` records of `labels[i]`
/// (`i < m`) is what its own section records.
proof fn lemma_doc_read_at(
    labels: Seq<LabelView>,
    groups: Seq<(Seq<char>, Seq<AnnotationView>)>,
    data: CheckScan,
    i: int,
    m: int,
    key: Seq<char>,
)
    requires
        0 <= i < m <= labels.len(),
        distinct_labels(labels),
    ensures
        state_of(doc_read(labels.take(m), groups, data).0, labels[i].label, key) == state_of(
            section_read(labels[i], groups, data).0,
            labels[i].label,
            key,
        ),
        archived_of(doc_read(labels.take(m), groups, data).1, labels[i].label) == archived_of(
            section_read(labels[i], groups, data).1,
            labels[i].label,
        ),
    decreases m,
{
    let name = labels[i].label;
    let t = labels.take(m);
    assert(t.drop_last() =~= labels.take(m - 1));
    assert(t.last() == labels[m - 1]);
    let prev = doc_read(labels.take(m - 1), groups, data);
    let sec = section_read(labels[m - 1], groups, data);
    assert(doc_read(t, groups, data) == (prev.0 + sec.0, prev.1 + sec.1));
    lemma_section_read_label(labels[m - 1], groups, data);
    lemma_archived_of_append(prev.1, sec.1, name);
    if m - 1 == i {
        lemma_doc_read_labels(labels, groups, data, i);
        assert forall|j: int| 0 <= j < prev.0.len() implies (#[trigger] prev.0[j]).0 != name by {
            let p = choose|p: int| 0 <= p < i && prev.0[j].0 == #[trigger] labels[p].label;
            assert(labels[p].label != labels[i].label);
        }
        assert forall|j: int| 0 <= j < prev.1.len() implies (#[trigger] prev.1[j]).0 != name by {
            let p = choose|p: int| 0 <= p < i && prev.1[j].0 == #[trigger] labels[p].label;
            assert(labels[p].label != labels[i].label);
        }
        lemma_state_of_other_front(prev.0, sec.0, name, key);
        lemma_archived_of_none(prev.1, name);
        assert(Seq::<(Seq<char>, Seq<char>)>::empty() + archived_of(sec.1, name) =~= archived_of(
            sec.1,
            name,
        ));
    } else {
        lemma_doc_read_at(labels, groups, data, i, m - 1, key);
        assert(labels[m - 1].label != labels[i].label);
        assert forall|j: int| 0 <= j < sec.0.len() implies !((#[trigger] sec.0[j]).0 == name
            && sec.0[j].1 == key) by {}
        assert forall|j: int| 0 <= j < sec.1.len() implies (#[trigger] sec.1[j]).0 != name by {}
        lemma_state_of_absent_back(prev.0, sec.0, name, key);
        lemma_archived_of_none(sec.1, name);
        assert(archived_of(prev.1, name) + Seq::<(Seq<char>, Seq<char>)>::empty() =~= archived_of(
            prev.1,
            name,
        ));
    }
}

/// Reading back the title and the sections of `labels.take(k)` of an updated
/// document records what `doc_read` says.
proof fn lemma_scan_updated_sections(
    root: Seq<char>,
    labels: Seq<LabelView>,
    groups: Seq<(Seq<char>, Seq<AnnotationView>)>,
    data: CheckScan,
    bodies: Seq<(Seq<char>, Seq<char>)>,
    k: int,
)
    requires
        0 <= k <= labels.len(),
        !project_name(root).contains('\n'),
        distinct_labels(labels),
        forall|i: int| 0 <= i < labels.len() ==> section_readable(#[trigger] labels[i], groups, data),
    ensures
        check_scan(
            labels,
            lines(title_spec(root) + updated_sections_spec(labels.take(k), groups, data, bodies)),
        ).states == doc_read(labels.take(k), groups, data).0,
        check_scan(
            labels,
            lines(title_spec(root) + updated_sections_spec(labels.take(k), groups, data, bodies)),
        ).archived == doc_read(labels.take(k), groups, data).1,
        (title_spec(root) + updated_sections_spec(labels.take(k), groups, data, bodies)).last()
            == '\n',
    decreases k,
{
    let t = title_spec(root);
    if k == 0 {
        assert(labels.take(0) =~= Seq::<LabelView>::empty());
        assert(t + updated_sections_spec(labels.take(0), groups, data, bodies) =~= t);
        let y = seq!['#', ' '] + project_name(root);
        assert(!seq!['#', ' '].contains('\n'));
        lemma_concat_single_line(seq!['#', ' '], project_name(root));
        lemma_lines_single(y);
        assert(t =~= y + seq!['\n']);
        let x = strip_last(y, '\r');
        let line = trim_end(x);
        lemma_trim_end_prefix(x);
        if line.len() >= 2 {
            assert(line[1] == x[1]);
            assert(x[1] == y[1]);
        }
        assert(not_hash2(line));
        lemma_not_hash2(labels, line);
        assert(check_step(labels, scan_start(), x) == scan_start());
        lemma_check_scan_is_scan_from(labels, seq![x]);
        lemma_scan_one(labels, scan_start(), x);
        assert(lines(t) == seq![x]);
    } else {
        lemma_scan_updated_sections(root, labels, groups, data, bodies, k - 1);
        let prev = t + updated_sections_spec(labels.take(k - 1), groups, data, bodies);
        let sec = updated_section_spec(labels[k - 1], groups, data, bodies);
        assert(labels.take(k).drop_last() =~= labels.take(k - 1));
        assert(labels.take(k).last() == labels[k - 1]);
        assert(t + updated_sections_spec(labels.take(k), groups, data, bodies) =~= prev + sec);
        lemma_lines_append(prev, sec);
        lemma_check_scan_is_scan_from(labels, lines(prev));
        lemma_check_scan_is_scan_from(labels, lines(prev) + lines(sec));
        lemma_scan_from_append(labels, scan_start(), lines(prev), lines(sec));
        lemma_scan_updated_section(
            labels,
            k - 1,
            groups,
            data,
            bodies,
            check_scan(labels, lines(prev)),
        );
        if sec.len() > 0 {
            assert((prev + sec).last() == sec.last());
        }
    }
}

/// `trim_end` leaves a trimmed line as it is.
proof fn lemma_trim_end_twice(s: Seq<char>)
    ensures
        trim_end(trim_end(s)) == trim_end(s),
    decreases s.len(),
{
    if s.len() > 0 && is_ws(s.last()) {
        lemma_trim_end_twice(s.drop_last());
    }
}

/// The items that the pass over lines without line breaks records as
/// archived are lines that read back with their keys.
proof fn lemma_scan_archived_readable(labels: Seq<LabelView>, lns: Seq<Seq<char>>)
    requires
        forall|j: int| 0 <= j < lns.len() ==> !(#[trigger] lns[j]).contains('\n'),
    ensures
        forall|j: int|
            0 <= j < check_scan(labels, lns).archived.len() ==> readable_archived(
                ((#[trigger] check_scan(labels, lns).archived[j]).1, check_scan(labels, lns).archived[j].2),
            ),
    decreases lns.len(),
{
    if lns.len() > 0 {
        let init = lns.drop_last();
        assert forall|j: int| 0 <= j < init.len() implies !(#[trigger] init[j]).contains('\n') by {
            assert(init[j] == lns[j]);
        }
        lemma_scan_archived_readable(labels, init);
        let st = check_scan(labels, init);
        let raw = lns.last();
        assert(raw == lns[lns.len() - 1]);
        let line = trim_end(raw);
        lemma_trim_end_prefix(raw);
        crate::text::lemma_prefix_single_line(raw, line.len() as int);
        lemma_trim_end_twice(raw);
        let nx = check_scan(labels, lns);
        assert(nx == check_step(labels, st, raw));
        assert(nx.archived == st.archived || (nx.archived == st.archived.push(
            (nx.archived.last().0, nx.archived.last().1, line),
        ) && content_key_spec(line) == Some(nx.archived.last().1)));
        assert forall|j: int| 0 <= j < nx.archived.len() implies readable_archived(
            ((#[trigger] nx.archived[j]).1, nx.archived[j].2),
        ) by {
            if j < st.archived.len() {
                assert(nx.archived[j] == st.archived[j]);
            }
        }
    }
}

/// The archived items of one label are among the archived items.
proof fn lemma_archived_of_readable(a: Seq<(Seq<char>, Seq<char>, Seq<char>)>, label: Seq<char>)
    requires
        forall|j: int| 0 <= j < a.len() ==> readable_archived(((#[trigger] a[j]).1, a[j].2)),
    ensures
        forall|t: int|
            0 <= t < archived_of(a, label).len() ==> readable_archived(
                #[trigger] archived_of(a, label)[t],
            ),
    decreases a.len(),
{
    if a.len() > 0 {
        let init = a.drop_last();
        assert forall|j: int| 0 <= j < init.len() implies readable_archived(
            ((#[trigger] init[j]).1, init[j].2),
        ) by {
            assert(init[j] == a[j]);
        }
        lemma_archived_of_readable(init, label);
        assert(a.last() == a[a.len() - 1]);
        let r = archived_of(init, label);
        assert forall|t: int| 0 <= t < archived_of(a, label).len() implies readable_archived(
            #[trigger] archived_of(a, label)[t],
        ) by {
            if t < r.len() {
                assert(archived_of(a, label)[t] == r[t]);
            }
        }
    }
}

/// A checkbox section is rendered the same from what reading back its
/// rendering records.
proof fn lemma_section_again(
    l: LabelView,
    groups: Seq<(Seq<char>, Seq<AnnotationView>)>,
    data: CheckScan,
    s2: Seq<(Seq<char>, Seq<char>, bool)>,
    a2: Seq<(Seq<char>, Seq<char>, Seq<char>)>,
)
    requires
        forall|key: Seq<char>|
            state_of(s2, l.label, key) == #[trigger] state_of(
                section_read(l, groups, data).0,
                l.label,
                key,
            ),
        archived_of(a2, l.label) == archived_of(section_read(l, groups, data).1, l.label),
        l.enabled,
        l.checkbox,
    ensures
        checkbox_sections_spec(lookup_group(groups, l.label), l.label, s2, a2)
            == checkbox_sections_spec(
            lookup_group(groups, l.label),
            l.label,
            data.states,
            data.archived,
        ),
{
    let name = l.label;
    let es = entries_of(groups, name);
    let s1 = data.states;
    let u = written_active(s1, name, es);
    let c = written_checked(s1, name, es);
    let acc = entries_fold(s1, name, es);
    let o = archived_of(data.archived, name);
    let k = kept_archived(acc, o);
    lemma_entries_fold_parts(s1, name, es);
    lemma_kept_archived(acc, o);
    let iu = item_states(name, u, false);
    let ic = item_states(name, c, true);
    let ik = kept_states(name, k);
    let sec = section_read(l, groups, data);
    assert(sec.0 == iu + ic + ik);
    assert forall|key: Seq<char>| #[trigger] acc.seen.contains(key) implies state_of(s1, name, key)
        == state_of(s2, name, key) by {
        assert(state_of(s2, name, key) == state_of(sec.0, name, key));
        assert forall|j: int| 0 <= j < ik.len() implies !((#[trigger] ik[j]).0 == name && ik[j].1
            == key) by {
            assert(ik[j].1 == k[j].0);
        }
        lemma_state_of_absent_back(iu + ic, ik, name, key);
        if state_of(s1, name, key) {
            assert(trimmed_texts(c).contains(key));
            let m = choose|m: int| 0 <= m < trimmed_texts(c).len() && trimmed_texts(c)[m] == key;
            assert(ic[m].0 == name && ic[m].1 == key);
            lemma_state_of_present_back(iu, ic, name, key);
            lemma_state_of_uniform(ic, name, key, true);
        } else {
            assert(trimmed_texts(u).contains(key));
            let m = choose|m: int| 0 <= m < trimmed_texts(u).len() && trimmed_texts(u)[m] == key;
            assert(iu[m].0 == name && iu[m].1 == key);
            assert forall|j: int| 0 <= j < ic.len() implies !((#[trigger] ic[j]).0 == name
                && ic[j].1 == key) by {
                assert(ic[j].1 == trim(c[j].content));
            }
            lemma_state_of_absent_back(iu, ic, name, key);
            lemma_state_of_uniform(iu, name, key, false);
        }
    }
    lemma_entries_fold_agree(s1, s2, name, es);
    let ia = item_archive(name, c);
    let ka = kept_archive(name, k);
    assert(sec.1 == ia + ka);
    lemma_archived_of_append(ia, ka, name);
    lemma_archived_of_own(ia, name);
    lemma_archived_of_own(ka, name);
    let p = ia.map_values(|e: (Seq<char>, Seq<char>, Seq<char>)| (e.1, e.2));
    assert(ka.map_values(|e: (Seq<char>, Seq<char>, Seq<char>)| (e.1, e.2)) =~= k);
    assert forall|j: int| 0 <= j < p.len() implies acc.seen.contains(#[trigger] p[j].0) by {
        assert(p[j].0 == trim(c[j].content));
    }
    lemma_archived_fold_seen(acc, p);
    lemma_archived_fold_append(acc, p, k);
    assert(archived_of(a2, name) == p + k);
}

/// The sections of `labels.take(n)` are rendered the same from what reading
/// back an updated document records.
proof fn lemma_sections_again(
    labels: Seq<LabelView>,
    groups: Seq<(Seq<char>, Seq<AnnotationView>)>,
    data: CheckScan,
    bodies: Seq<(Seq<char>, Seq<char>)>,
    data2: CheckScan,
    bodies2: Seq<(Seq<char>, Seq<char>)>,
    n: int,
)
    requires
        0 <= n <= labels.len(),
        distinct_labels(labels),
        forall|i: int| 0 <= i < labels.len() && (#[trigger] labels[i]).enabled ==> labels[i].update,
        data2.states == doc_read(labels, groups, data).0,
        data2.archived == doc_read(labels, groups, data).1,
    ensures
        updated_sections_spec(labels.take(n), groups, data2, bodies2) == updated_sections_spec(
            labels.take(n),
            groups,
            data,
            bodies,
        ),
    decreases n,
{
    if n == 0 {
        assert(labels.take(0) =~= Seq::<LabelView>::empty());
    } else {
        lemma_sections_again(labels, groups, data, bodies, data2, bodies2, n - 1);
        let t = labels.take(n);
        assert(t.drop_last() =~= labels.take(n - 1));
        assert(t.last() == labels[n - 1]);
        let l = labels[n - 1];
        if l.enabled && l.checkbox {
            let all = labels.len() as int;
            assert(labels.take(all) =~= labels);
            assert forall|key: Seq<char>| state_of(data2.states, l.label, key) == #[trigger] state_of(
                section_read(l, groups, data).0,
                l.label,
                key,
            ) by {
                lemma_doc_read_at(labels, groups, data, n - 1, all, key);
            }
            lemma_doc_read_at(labels, groups, data, n - 1, all, Seq::empty());
            lemma_section_again(l, groups, data, data2.states, data2.archived);
        }
        assert(updated_section_spec(l, groups, data2, bodies2) == updated_section_spec(
            l,
            groups,
            data,
            bodies,
        ));
    }
}

/// A second update with the same annotations changes nothing, whatever the
/// document was: reading back the updated document gives each checkbox item
/// the state the update wrote it with, and each kept archived item its key,
/// so the same sections are written again. It holds when every enabled
/// label is rewritten by the update (a label without `update` copies its
/// section's text as it stands, which may hold another label's archive that
/// the second reading then meets in another place), when the updated
/// document's lines are the ones written (the project name, the enabled
/// labels' names and marks, and the texts and files, as shown, of the
/// annotations written, hold no line break; no two labels share a name or a
/// header; enabled labels' names end in a visible character), and when the
/// items of checkbox labels read back by their texts: every `" ("` of such
/// an item's text is closed by a `')'`, and no `')'` of its file, as shown,
/// comes before a `" ("`.
pub proof fn lemma_second_update_changes_nothing(
    existing: Seq<char>,
    root: Seq<char>,
    labels: Seq<LabelView>,
    anns: Seq<AnnotationView>,
)
    requires
        !project_name(root).contains('\n'),
        distinct_labels(labels),
        forall|i: int|
            0 <= i < labels.len() && (#[trigger] labels[i]).enabled ==> single_line_label(labels[i])
                && labels[i].update,
        forall|k: int|
            0 <= k < anns.len() && written_label(labels, canonical_label(labels, (#[trigger] anns[k]).label))
                ==> single_line_item(relative_item(root, anns[k])),
        forall|k: int|
            0 <= k < anns.len() && written_checkbox_label(
                labels,
                canonical_label(labels, (#[trigger] anns[k]).label),
            ) ==> parens_closed(anns[k].content) && !closes_then_opens(
                relative_item(root, anns[k]).file,
            ),
    ensures
        updated_markdown_spec(updated_markdown_spec(existing, root, labels, anns), root, labels, anns)
            == updated_markdown_spec(existing, root, labels, anns),
{
    let ranns = relative_items(root, anns);
    let groups = group_annotations(labels, ranns);
    lemma_group_annotations(labels, ranns);
    let data = check_scan(labels, lines(existing));
    let bodies = section_bodies_spec(labels, existing);
    let m1 = updated_markdown_spec(existing, root, labels, anns);
    let all = labels.len() as int;
    assert(labels.take(all) =~= labels);
    crate::text::lemma_lines_single_line(existing);
    lemma_scan_archived_readable(labels, lines(existing));
    assert forall|i: int| 0 <= i < labels.len() implies section_readable(
        #[trigger] labels[i],
        groups,
        data,
    ) by {
        let l = labels[i];
        let es = entries_of(groups, l.label);
        if l.enabled {
            lemma_members_from(labels, ranns, l.label);
            assert forall|j: int| 0 <= j < es.len() implies single_line_item(#[trigger] es[j]) && (
            l.checkbox ==> readable_item(es[j])) by {
                assert(lookup_group(groups, l.label) is Some);
                assert(es == group_members(labels, ranns, l.label));
                let k = choose|k: int|
                    0 <= k < ranns.len() && ranns[k] == #[trigger] group_members(
                        labels,
                        ranns,
                        l.label,
                    )[j] && canonical_label(labels, ranns[k].label) == l.label;
                assert(ranns[k] == relative_item(root, anns[k]));
                assert(canonical_label(labels, anns[k].label) == l.label);
                assert(written_label(labels, l.label));
                if l.checkbox {
                    assert(written_checkbox_label(labels, l.label));
                }
            }
        }
        if l.checkbox {
            lemma_archived_of_readable(data.archived, l.label);
        }
    }
    lemma_scan_updated_sections(root, labels, groups, data, bodies, all);
    let data2 = check_scan(labels, lines(m1));
    let bodies2 = section_bodies_spec(labels, m1);
    assert(m1 == title_spec(root) + updated_sections_spec(labels, groups, data, bodies));
    lemma_sections_again(labels, groups, data, bodies, data2, bodies2, all);
}

} // verus!
