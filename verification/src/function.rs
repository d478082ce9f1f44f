//! The summary: how many annotations stand for each label.

use vstd::prelude::*;

use crate::common::{
    canonical_label, group_annotations, group_members, groups_view, hashmap_annotations, lemma_group_annotations,
    lookup_group,
};
use crate::model::{annotations_view, Annotation, AnnotationView, Config, LabelView};
use crate::text::{
    chars_to_string, chars_view, contains_chars, decimal, decimal_usize, lemma_chars_view_push,
    push_all, to_chars,
};

verus! {

/// `Annotation Summary:`
pub open spec fn summary_title() -> Seq<char> {
    seq![
        'A', 'n', 'n', 'o', 't', 'a', 't', 'i', 'o', 'n', ' ', 'S', 'u', 'm', 'm', 'a', 'r', 'y',
        ':',
    ]
}

/// The line of one label: `  {name}: {count}`.
pub open spec fn count_line(name: Seq<char>, count: nat) -> Seq<char> {
    seq![' ', ' '] + name + seq![':', ' '] + decimal(count)
}

/// How a configured label is shown: `{mark} {label}`, or the label alone.
pub open spec fn display_label(label: LabelView) -> Seq<char> {
    match label.mark {
        Some(m) => m + seq![' '] + label.label,
        None => label.label,
    }
}

/// The lines of the configured labels that have annotations, in the order of
/// the configuration, each label name once; and the names written.
pub open spec fn configured_lines(
    labels: Seq<LabelView>,
    groups: Seq<(Seq<char>, Seq<AnnotationView>)>,
) -> (Seq<Seq<char>>, Seq<Seq<char>>)
    decreases labels.len(),
{
    if labels.len() == 0 {
        (Seq::empty(), Seq::empty())
    } else {
        let (lns, done) = configured_lines(labels.drop_last(), groups);
        let l = labels.last();
        match lookup_group(groups, l.label) {
            Some(es) => if done.contains(l.label) {
                (lns, done)
            } else {
                (lns.push(count_line(display_label(l), es.len())), done.push(l.label))
            },
            None => (lns, done),
        }
    }
}

/// The lines of the groups whose label is not among `done`, in group order.
pub open spec fn remaining_lines(
    groups: Seq<(Seq<char>, Seq<AnnotationView>)>,
    done: Seq<Seq<char>>,
) -> Seq<Seq<char>>
    decreases groups.len(),
{
    if groups.len() == 0 {
        Seq::empty()
    } else {
        let rest = remaining_lines(groups.drop_last(), done);
        let g = groups.last();
        if done.contains(g.0) {
            rest
        } else {
            rest.push(count_line(g.0, g.1.len()))
        }
    }
}

/// The summary: the title, then a count line for each configured label that
/// has annotations (in the order of the configuration), then one for each
/// other label word found (in the order in which it first occurs).
pub open spec fn summary_spec(labels: Seq<LabelView>, anns: Seq<AnnotationView>) -> Seq<Seq<char>> {
    let groups = group_annotations(labels, anns);
    let (lns, done) = configured_lines(labels, groups);
    seq![summary_title()] + lns + remaining_lines(groups, done)
}

/// `  {name}: {count}`
fn count_line_chars(name: &[char], count: usize) -> (res: Vec<char>)
    ensures
        res@ == count_line(name@, count as nat),
{
    let mut out: Vec<char> = Vec::new();
    out.push(' ');
    out.push(' ');
    push_all(&mut out, name);
    out.push(':');
    out.push(' ');
    let d = decimal_usize(count);
    push_all(&mut out, d.as_slice());
    assert(out@ =~= count_line(name@, count as nat));
    out
}

/// The lines of the summary of annotation counts per label, without printing
/// them: the title, the configured labels that have annotations in the order
/// of the configuration (shown with their mark), then the other label words
/// found, in the order in which they first occur.
pub fn summary_lines(config: &Config, annotations: &[Annotation]) -> (res: Vec<String>)
    ensures
        crate::model::strings_view(res@) == summary_spec(config@.labels, annotations_view(annotations@)),
{
    let grouped = hashmap_annotations(config, annotations);
    let ghost gv = groups_view(grouped@);
    let ghost lv = config@.labels;
    let mut lines: Vec<Vec<char>> = Vec::new();
    let mut done: Vec<Vec<char>> = Vec::new();
    let mut title: Vec<char> = Vec::new();
    let t = "Annotation Summary:";
    proof {
        reveal_strlit("Annotation Summary:");
        assert(t@ =~= summary_title());
    }
    push_all(&mut title, to_chars(t).as_slice());
    lines.push(title);
    assert(lv.take(0) =~= Seq::<LabelView>::empty());
    assert(chars_view(lines@) =~= seq![summary_title()]);
    assert(chars_view(done@) =~= Seq::<Seq<char>>::empty());
    for i in 0..config.labels.len()
        invariant
            gv == groups_view(grouped@),
            lv == config@.labels,
            chars_view(lines@) == seq![summary_title()] + configured_lines(lv.take(i as int), gv).0,
            chars_view(done@) == configured_lines(lv.take(i as int), gv).1,
    {
        let label = &config.labels[i];
        proof {
            assert(lv.take(i + 1).drop_last() =~= lv.take(i as int));
            assert(lv.take(i + 1).last() == label@);
        }
        let name = to_chars(label.label.as_str());
        match crate::common::get_group(&grouped, &label.label) {
            Some(items) => {
                if !contains_chars(&done, name.as_slice()) {
                    let mut shown: Vec<char> = Vec::new();
                    match &label.mark {
                        Some(m) => {
                            push_all(&mut shown, to_chars(m.as_str()).as_slice());
                            shown.push(' ');
                        },
                        None => {},
                    }
                    push_all(&mut shown, name.as_slice());
                    assert(shown@ =~= display_label(label@));
                    let line = count_line_chars(shown.as_slice(), items.len());
                    let ghost pl = lines@;
                    let ghost pd = done@;
                    proof {
                        assert(annotations_view(items@).len() == items.len());
                    }
                    lines.push(line);
                    done.push(name);
                    proof {
                        lemma_chars_view_push(pl, line);
                        lemma_chars_view_push(pd, name);
                        assert(chars_view(lines@) =~= seq![summary_title()] + configured_lines(
                            lv.take(i + 1),
                            gv,
                        ).0);
                    }
                }
            },
            None => {},
        }
    }
    assert(lv.take(config.labels.len() as int) =~= lv);
    let ghost mid = chars_view(lines@);
    assert(gv.take(0) =~= Seq::<(Seq<char>, Seq<AnnotationView>)>::empty());
    for k in 0..grouped.len()
        invariant
            gv == groups_view(grouped@),
            chars_view(done@) == configured_lines(lv, gv).1,
            chars_view(lines@) == mid + remaining_lines(gv.take(k as int), chars_view(done@)),
    {
        let g = &grouped[k];
        proof {
            assert(gv.take(k + 1).drop_last() =~= gv.take(k as int));
            assert(gv.take(k + 1).last() == gv[k as int]);
            assert(gv[k as int].0 == g.label@);
            assert(gv[k as int].1.len() == g.annotations.len());
        }
        let name = to_chars(g.label.as_str());
        if !contains_chars(&done, name.as_slice()) {
            let line = count_line_chars(name.as_slice(), g.annotations.len());
            let ghost pl = lines@;
            lines.push(line);
            proof {
                lemma_chars_view_push(pl, line);
            }
        }
        assert(chars_view(lines@) =~= mid + remaining_lines(gv.take(k + 1), chars_view(done@)));
    }
    assert(gv.take(grouped.len() as int) =~= gv);
    let mut res: Vec<String> = Vec::new();
    assert(crate::model::strings_view(res@) =~= chars_view(lines@).take(0));
    for k in 0..lines.len()
        invariant
            crate::model::strings_view(res@) == chars_view(lines@).take(k as int),
    {
        let s = chars_to_string(lines[k].as_slice());
        let ghost pr = res@;
        res.push(s);
        proof {
            crate::model::lemma_strings_view_push(pr, s);
            assert(chars_view(lines@).take(k + 1) =~= chars_view(lines@).take(k as int).push(lines@[k as int]@));
        }
    }
    assert(chars_view(lines@).take(lines.len() as int) =~= chars_view(lines@));
    res
}

/// The configured lines name only configured labels, name every configured
/// label that has a group, and show each such label whose name no earlier
/// label has, with its mark and the size of its group.
proof fn lemma_configured_lines(ls: Seq<LabelView>, groups: Seq<(Seq<char>, Seq<AnnotationView>)>)
    ensures
        forall|x: Seq<char>|
            #[trigger] configured_lines(ls, groups).1.contains(x) ==> exists|j: int|
                0 <= j < ls.len() && (#[trigger] ls[j]).label == x,
        forall|i: int|
            0 <= i < ls.len() && lookup_group(groups, (#[trigger] ls[i]).label) is Some
                ==> configured_lines(ls, groups).1.contains(ls[i].label),
        forall|i: int|
            0 <= i < ls.len() && lookup_group(groups, (#[trigger] ls[i]).label) is Some && (forall|j: int|
                0 <= j < i ==> ls[j].label != ls[i].label) ==> configured_lines(ls, groups).0.contains(
                count_line(display_label(ls[i]), lookup_group(groups, ls[i].label)->0.len()),
            ),
    decreases ls.len(),
{
    if ls.len() > 0 {
        let n = ls.len() - 1;
        let init = ls.drop_last();
        let l = ls.last();
        assert(l == ls[n]);
        lemma_configured_lines(init, groups);
        let (lns0, done0) = configured_lines(init, groups);
        let (lns, done) = configured_lines(ls, groups);
        assert forall|x: Seq<char>| #[trigger] done.contains(x) implies exists|j: int|
            0 <= j < ls.len() && (#[trigger] ls[j]).label == x by {
            if done0.contains(x) {
                let j = choose|j: int| 0 <= j < init.len() && (#[trigger] init[j]).label == x;
                assert(ls[j] == init[j]);
            } else {
                let m = choose|m: int| 0 <= m < done.len() && done[m] == x;
                assert(done == done0.push(l.label));
                assert(m == done0.len());
            }
        }
        assert forall|i: int| 0 <= i < ls.len() && lookup_group(groups, (#[trigger] ls[i]).label) is Some
            implies done.contains(ls[i].label) by {
            if i < n {
                assert(init[i] == ls[i]);
                let m = choose|m: int| 0 <= m < done0.len() && done0[m] == ls[i].label;
                assert(done[m] == done0[m]);
            } else if !done0.contains(l.label) {
                assert(done[done0.len() as int] == l.label);
            } else {
                assert(done == done0);
            }
        }
        assert forall|i: int|
            0 <= i < ls.len() && lookup_group(groups, (#[trigger] ls[i]).label) is Some && (forall|j: int|
                0 <= j < i ==> ls[j].label != ls[i].label) implies lns.contains(
            count_line(display_label(ls[i]), lookup_group(groups, ls[i].label)->0.len()),
        ) by {
            let line = count_line(display_label(ls[i]), lookup_group(groups, ls[i].label)->0.len());
            if i < n {
                assert(init[i] == ls[i]);
                assert forall|j: int| 0 <= j < i implies init[j].label != init[i].label by {
                    assert(init[j] == ls[j]);
                }
                let m = choose|m: int| 0 <= m < lns0.len() && lns0[m] == line;
                assert(lns[m] == lns0[m]);
            } else {
                if done0.contains(l.label) {
                    let j = choose|j: int| 0 <= j < init.len() && (#[trigger] init[j]).label == l.label;
                    assert(ls[j] == init[j]);
                    assert(false);
                }
                assert(lns[lns0.len() as int] == line);
            }
        }
    }
}

/// Every configured label that has annotations is counted under its own
/// name, shown with its mark, among the lines of the configured labels
/// (right after the title, before the other words found): for each label
/// of the configuration (the first one of its name) that `n > 0`
/// annotations stand for, the summary holds `  {mark} {label}: {n}`,
/// whatever other labels have annotations or not.
pub proof fn lemma_summary_counts_configured_labels(labels: Seq<LabelView>, anns: Seq<AnnotationView>)
    ensures
        forall|i: int|
            0 <= i < labels.len() && group_members(labels, anns, (#[trigger] labels[i]).label).len() > 0
                && (forall|j: int| 0 <= j < i ==> labels[j].label != labels[i].label) ==> exists|k: int|
                1 <= k < 1 + configured_lines(labels, group_annotations(labels, anns)).0.len()
                    && #[trigger] summary_spec(labels, anns)[k] == count_line(
                    display_label(labels[i]),
                    group_members(labels, anns, labels[i].label).len(),
                ),
{
    let groups = group_annotations(labels, anns);
    lemma_group_annotations(labels, anns);
    lemma_configured_lines(labels, groups);
    let (lns, done) = configured_lines(labels, groups);
    assert forall|i: int|
        0 <= i < labels.len() && group_members(labels, anns, (#[trigger] labels[i]).label).len() > 0
            && (forall|j: int| 0 <= j < i ==> labels[j].label != labels[i].label) implies exists|k: int|
        1 <= k < 1 + lns.len() && #[trigger] summary_spec(labels, anns)[k] == count_line(
            display_label(labels[i]),
            group_members(labels, anns, labels[i].label).len(),
        ) by {
        let key = labels[i].label;
        assert(lookup_group(groups, key) == Some(group_members(labels, anns, key)));
        let line = count_line(display_label(labels[i]), group_members(labels, anns, key).len());
        assert(lns.contains(line));
        let m = choose|m: int| 0 <= m < lns.len() && lns[m] == line;
        assert(summary_spec(labels, anns)[1 + m] == lns[m]);
    }
}

/// A group found by its key is one of the groups.
proof fn lemma_lookup_group_at(groups: Seq<(Seq<char>, Seq<AnnotationView>)>, key: Seq<char>)
    ensures
        lookup_group(groups, key) is Some ==> exists|k: int|
            0 <= k < groups.len() && (#[trigger] groups[k]).0 == key && groups[k].1 == lookup_group(
                groups,
                key,
            )->0,
    decreases groups.len(),
{
    if groups.len() > 0 && groups[0].0 != key {
        let rest = groups.drop_first();
        lemma_lookup_group_at(rest, key);
        if lookup_group(groups, key) is Some {
            let k = choose|k: int|
                0 <= k < rest.len() && (#[trigger] rest[k]).0 == key && rest[k].1 == lookup_group(
                    rest,
                    key,
                )->0;
            assert(groups[k + 1] == rest[k]);
        }
    }
}

/// Every group whose key is not among `done` has its line among the
/// remaining lines.
proof fn lemma_remaining_lines(groups: Seq<(Seq<char>, Seq<AnnotationView>)>, done: Seq<Seq<char>>)
    ensures
        forall|k: int|
            0 <= k < groups.len() && !done.contains((#[trigger] groups[k]).0) ==> remaining_lines(
                groups,
                done,
            ).contains(count_line(groups[k].0, groups[k].1.len())),
    decreases groups.len(),
{
    if groups.len() > 0 {
        let init = groups.drop_last();
        lemma_remaining_lines(init, done);
        let r0 = remaining_lines(init, done);
        let r = remaining_lines(groups, done);
        assert forall|k: int|
            0 <= k < groups.len() && !done.contains((#[trigger] groups[k]).0) implies r.contains(
            count_line(groups[k].0, groups[k].1.len()),
        ) by {
            if k < init.len() {
                assert(init[k] == groups[k]);
                let m = choose|m: int|
                    0 <= m < r0.len() && r0[m] == count_line(groups[k].0, groups[k].1.len());
                assert(r[m] == r0[m]);
            } else {
                assert(groups.last() == groups[k]);
                assert(r[r0.len() as int] == count_line(groups[k].0, groups[k].1.len()));
            }
        }
    }
}

/// An annotation is a member of the group of the label it stands for.
proof fn lemma_members_nonempty(labels: Seq<LabelView>, anns: Seq<AnnotationView>, a: int)
    requires
        0 <= a < anns.len(),
    ensures
        group_members(labels, anns, canonical_label(labels, anns[a].label)).len() > 0,
    decreases anns.len(),
{
    let key = canonical_label(labels, anns[a].label);
    if a < anns.len() - 1 {
        let init = anns.drop_last();
        assert(init[a] == anns[a]);
        lemma_members_nonempty(labels, init, a);
    } else {
        assert(anns.last() == anns[a]);
    }
}

/// Every label word found that no configured label has as its name is
/// counted too, under that word: the summary holds `  {word}: {n}`, where
/// `n` annotations stand for the word.
pub proof fn lemma_summary_counts_other_words(labels: Seq<LabelView>, anns: Seq<AnnotationView>)
    ensures
        forall|a: int|
            0 <= a < anns.len() && (forall|i: int|
                0 <= i < labels.len() ==> labels[i].label != canonical_label(
                    labels,
                    (#[trigger] anns[a]).label,
                )) ==> summary_spec(labels, anns).contains(
                count_line(
                    canonical_label(labels, anns[a].label),
                    group_members(labels, anns, canonical_label(labels, anns[a].label)).len(),
                ),
            ),
{
    let groups = group_annotations(labels, anns);
    lemma_group_annotations(labels, anns);
    lemma_configured_lines(labels, groups);
    let (lns, done) = configured_lines(labels, groups);
    lemma_remaining_lines(groups, done);
    assert forall|a: int|
        0 <= a < anns.len() && (forall|i: int|
            0 <= i < labels.len() ==> labels[i].label != canonical_label(labels, (#[trigger] anns[a]).label))
            implies summary_spec(labels, anns).contains(
        count_line(
            canonical_label(labels, anns[a].label),
            group_members(labels, anns, canonical_label(labels, anns[a].label)).len(),
        ),
    ) by {
        let w = canonical_label(labels, anns[a].label);
        let es = group_members(labels, anns, w);
        lemma_members_nonempty(labels, anns, a);
        assert(lookup_group(groups, w) == Some(es));
        lemma_lookup_group_at(groups, w);
        let k = choose|k: int| 0 <= k < groups.len() && (#[trigger] groups[k]).0 == w && groups[k].1 == es;
        if done.contains(w) {
            let j = choose|j: int| 0 <= j < labels.len() && (#[trigger] labels[j]).label == w;
            assert(false);
        }
        assert(!done.contains(groups[k].0));
        let r = remaining_lines(groups, done);
        let line = count_line(w, es.len());
        assert(r.contains(line));
        let m = choose|m: int| 0 <= m < r.len() && r[m] == line;
        let sum = summary_spec(labels, anns);
        assert(sum == seq![summary_title()] + lns + r);
        assert(sum[1 + lns.len() + m] == line);
    }
}

/// Whether `ls[i]` is the first label of its name and has a group.
spec fn first_with_group(ls: Seq<LabelView>, groups: Seq<(Seq<char>, Seq<AnnotationView>)>, i: int) -> bool {
    &&& lookup_group(groups, ls[i].label) is Some
    &&& forall|j: int| 0 <= j < i ==> ls[j].label != ls[i].label
}

/// The line of `ls[i]`.
spec fn line_of(ls: Seq<LabelView>, groups: Seq<(Seq<char>, Seq<AnnotationView>)>, i: int) -> Seq<char> {
    count_line(display_label(ls[i]), lookup_group(groups, ls[i].label)->0.len())
}

/// The configured lines come in the order of the configuration.
proof fn lemma_configured_order(ls: Seq<LabelView>, groups: Seq<(Seq<char>, Seq<AnnotationView>)>)
    ensures
        forall|i: int, i2: int|
            0 <= i < i2 < ls.len() && first_with_group(ls, groups, i) && first_with_group(ls, groups, i2)
                ==> exists|k: int, k2: int|
                0 <= k < k2 < configured_lines(ls, groups).0.len() && #[trigger] configured_lines(
                    ls,
                    groups,
                ).0[k] == line_of(ls, groups, i) && #[trigger] configured_lines(ls, groups).0[k2]
                    == line_of(ls, groups, i2),
    decreases ls.len(),
{
    if ls.len() > 0 {
        let n = ls.len() - 1;
        let init = ls.drop_last();
        lemma_configured_order(init, groups);
        lemma_configured_lines(init, groups);
        let (lns0, done0) = configured_lines(init, groups);
        let lns = configured_lines(ls, groups).0;
        assert forall|i: int, i2: int|
            0 <= i < i2 < ls.len() && first_with_group(ls, groups, i) && first_with_group(ls, groups, i2)
                implies exists|k: int, k2: int|
            0 <= k < k2 < lns.len() && #[trigger] lns[k] == line_of(ls, groups, i) && #[trigger] lns[k2]
                == line_of(ls, groups, i2) by {
            assert(init[i] == ls[i]);
            assert forall|j: int| 0 <= j < i implies init[j].label != init[i].label by {
                assert(init[j] == ls[j]);
            }
            assert(first_with_group(init, groups, i));
            assert(line_of(init, groups, i) == line_of(ls, groups, i));
            if i2 < n {
                assert(init[i2] == ls[i2]);
                assert forall|j: int| 0 <= j < i2 implies init[j].label != init[i2].label by {
                    assert(init[j] == ls[j]);
                }
                assert(first_with_group(init, groups, i2));
                assert(line_of(init, groups, i2) == line_of(ls, groups, i2));
                let (k, k2) = choose|k: int, k2: int|
                    0 <= k < k2 < lns0.len() && #[trigger] lns0[k] == line_of(init, groups, i) && #[trigger] lns0[k2]
                        == line_of(init, groups, i2);
                assert(lns[k] == lns0[k] && lns[k2] == lns0[k2]);
            } else {
                assert(ls[i2] == ls.last());
                assert(lns0.contains(line_of(init, groups, i)));
                let k = choose|k: int| 0 <= k < lns0.len() && lns0[k] == line_of(init, groups, i);
                if done0.contains(ls[i2].label) {
                    let j = choose|j: int| 0 <= j < init.len() && (#[trigger] init[j]).label == ls[i2].label;
                    assert(init[j] == ls[j]);
                    assert(false);
                }
                assert(lns == lns0.push(line_of(ls, groups, i2)));
                assert(lns[k] == lns0[k]);
                assert(lns[lns0.len() as int] == line_of(ls, groups, i2));
            }
        }
    }
}

/// The configured labels are counted in the order of the configuration:
/// of two configured labels (each the first of its name) that annotations
/// stand for, the earlier one's line comes first.
pub proof fn lemma_summary_follows_configuration_order(labels: Seq<LabelView>, anns: Seq<AnnotationView>)
    ensures
        forall|i: int, i2: int|
            0 <= i < i2 < labels.len() && group_members(labels, anns, (#[trigger] labels[i]).label).len()
                > 0 && group_members(labels, anns, (#[trigger] labels[i2]).label).len() > 0 && (forall|
                j: int,
            | 0 <= j < i ==> labels[j].label != labels[i].label) && (forall|j: int|
                0 <= j < i2 ==> labels[j].label != labels[i2].label) ==> exists|k: int, k2: int|
                0 <= k < k2 < summary_spec(labels, anns).len() && #[trigger] summary_spec(labels, anns)[k]
                    == count_line(
                    display_label(labels[i]),
                    group_members(labels, anns, labels[i].label).len(),
                ) && #[trigger] summary_spec(labels, anns)[k2] == count_line(
                    display_label(labels[i2]),
                    group_members(labels, anns, labels[i2].label).len(),
                ),
{
    let groups = group_annotations(labels, anns);
    lemma_group_annotations(labels, anns);
    lemma_configured_order(labels, groups);
    let (lns, done) = configured_lines(labels, groups);
    let sum = summary_spec(labels, anns);
    assert forall|i: int, i2: int|
        0 <= i < i2 < labels.len() && group_members(labels, anns, (#[trigger] labels[i]).label).len() > 0
            && group_members(labels, anns, (#[trigger] labels[i2]).label).len() > 0 && (forall|j: int|
            0 <= j < i ==> labels[j].label != labels[i].label) && (forall|j: int|
            0 <= j < i2 ==> labels[j].label != labels[i2].label) implies exists|k: int, k2: int|
        0 <= k < k2 < sum.len() && #[trigger] sum[k] == count_line(
            display_label(labels[i]),
            group_members(labels, anns, labels[i].label).len(),
        ) && #[trigger] sum[k2] == count_line(
            display_label(labels[i2]),
            group_members(labels, anns, labels[i2].label).len(),
        ) by {
        assert(lookup_group(groups, labels[i].label) == Some(group_members(labels, anns, labels[i].label)));
        assert(lookup_group(groups, labels[i2].label) == Some(group_members(labels, anns, labels[i2].label)));
        assert(first_with_group(labels, groups, i));
        assert(first_with_group(labels, groups, i2));
        let (k, k2) = choose|k: int, k2: int|
            0 <= k < k2 < lns.len() && #[trigger] lns[k] == line_of(labels, groups, i) && #[trigger] lns[k2]
                == line_of(labels, groups, i2);
        assert(sum[1 + k] == lns[k] && sum[1 + k2] == lns[k2]);
    }
}

} // verus!
