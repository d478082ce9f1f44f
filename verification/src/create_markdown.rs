//! The first Markdown layout: every label gets a section, items are sorted by
//! file, line and text, files are shown relative to the project root, and an
//! update keeps the checked state of checkbox items in place (there is no
//! archive).

use vstd::prelude::*;

pub use crate::format::markdown::{checkbox_content_key, checkbox_is_checked, header_for_label};

use crate::format::markdown::{
    box_prefix, content_key_chars, content_key_spec, find_header_label, has_checkbox_label,
    header_chars, header_label, header_spec, is_checkbox_label, is_checked_chars, is_checked_spec,
    key_of, label_keys, level2, newline, opt_as_str, push_level2, push_title, state_lookup,
    state_of, states_view, title_spec, CheckState,
};
use crate::model::{annotations_view, Annotation, AnnotationView, Config, LabelView};
use crate::paths::{path_order, path_strip_prefix, relative_file, spec_path_order, spec_path_strip_prefix};
use crate::text::{
    chars_to_string, chars_view, contains_chars, decimal, decimal_chars, lemma_chars_view_push,
    lines, push_all, split_lines, starts_with, starts_with_chars, to_chars, trim_end,
    trim_end_chars,
};

verus! {

// ---------------------------------------------------------------------------
// Order of items
// ---------------------------------------------------------------------------

/// The order of two texts, character by character: -1, 0 or 1.
pub open spec fn str_order(a: Seq<char>, b: Seq<char>) -> int
    decreases a.len(),
{
    if a.len() == 0 {
        if b.len() == 0 {
            0
        } else {
            -1
        }
    } else if b.len() == 0 {
        1
    } else if a[0] < b[0] {
        -1
    } else if a[0] > b[0] {
        1
    } else {
        str_order(a.drop_first(), b.drop_first())
    }
}

/// The order of two items: by file (as paths compare), then line, then text.
pub open spec fn item_order(a: AnnotationView, b: AnnotationView) -> int {
    let p = spec_path_order(a.file, b.file);
    if p != 0 {
        p
    } else if a.line < b.line {
        -1
    } else if a.line > b.line {
        1
    } else {
        str_order(a.content, b.content)
    }
}

/// `x` placed after the last element of the sorted `s` that does not come
/// after it.
pub open spec fn insert_sorted(s: Seq<AnnotationView>, x: AnnotationView) -> Seq<AnnotationView>
    decreases s.len(),
{
    if s.len() == 0 || item_order(s.last(), x) <= 0 {
        s.push(x)
    } else {
        insert_sorted(s.drop_last(), x).push(s.last())
    }
}

/// `s` sorted by [`item_order`], keeping the order of equal items.
pub open spec fn sort_items(s: Seq<AnnotationView>) -> Seq<AnnotationView>
    decreases s.len(),
{
    if s.len() == 0 {
        Seq::empty()
    } else {
        insert_sorted(sort_items(s.drop_last()), s.last())
    }
}

/// The annotations written with exactly the label `name`, in order.
pub open spec fn with_label(anns: Seq<AnnotationView>, name: Seq<char>) -> Seq<AnnotationView>
    decreases anns.len(),
{
    if anns.len() == 0 {
        Seq::empty()
    } else {
        let rest = with_label(anns.drop_last(), name);
        if anns.last().label == name {
            rest.push(anns.last())
        } else {
            rest
        }
    }
}

/// The items of a label in the order in which they are listed.
pub open spec fn sorted_for_label(anns: Seq<AnnotationView>, name: Seq<char>) -> Seq<AnnotationView> {
    sort_items(with_label(anns, name))
}

/// Each item of `s` comes, by [`item_order`], no later than any item after it.
pub open spec fn in_item_order(s: Seq<AnnotationView>) -> bool {
    forall|i: int, j: int|
        #![trigger s[i], s[j]]
        0 <= i < j < s.len() ==> item_order(s[i], s[j]) <= 0
}

/// Texts are ordered transitively.
pub proof fn lemma_str_order_transitive(x: Seq<char>, y: Seq<char>, z: Seq<char>)
    requires
        str_order(x, y) <= 0,
        str_order(y, z) <= 0,
    ensures
        str_order(x, z) <= 0,
    decreases x.len(),
{
    if x.len() > 0 && y.len() > 0 && z.len() > 0 && x[0] == y[0] && y[0] == z[0] {
        lemma_str_order_transitive(x.drop_first(), y.drop_first(), z.drop_first());
    }
}

/// Two texts compare in opposite ways when swapped.
pub proof fn lemma_str_order_antisymmetric(a: Seq<char>, b: Seq<char>)
    ensures
        str_order(a, b) == -str_order(b, a),
    decreases a.len(),
{
    if a.len() > 0 && b.len() > 0 && a[0] == b[0] {
        lemma_str_order_antisymmetric(a.drop_first(), b.drop_first());
    }
}

/// Inserting an item keeps every item that was there and adds that one.
proof fn lemma_insert_sorted_multiset(s: Seq<AnnotationView>, x: AnnotationView)
    ensures
        insert_sorted(s, x).to_multiset() =~= s.to_multiset().insert(x),
    decreases s.len(),
{
    broadcast use vstd::seq_lib::to_multiset_build;

    if s.len() == 0 || item_order(s.last(), x) <= 0 {
    } else {
        lemma_insert_sorted_multiset(s.drop_last(), x);
        assert(s.drop_last().push(s.last()) =~= s);
        assert(s.drop_last().to_multiset().insert(s.last()) =~= s.to_multiset());
    }
}

/// Sorting the items of a label neither drops nor adds nor repeats one: the
/// sorted list holds each item as many times as the list it was made from.
pub proof fn lemma_sort_items_permutes(s: Seq<AnnotationView>)
    ensures
        sort_items(s).to_multiset() =~= s.to_multiset(),
        sort_items(s).len() == s.len(),
    decreases s.len(),
{
    broadcast use vstd::seq_lib::to_multiset_build;
    broadcast use vstd::seq_lib::to_multiset_len;

    if s.len() == 0 {
        assert(s =~= Seq::<AnnotationView>::empty());
    } else {
        let t = sort_items(s.drop_last());
        lemma_sort_items_permutes(s.drop_last());
        lemma_insert_sorted_multiset(t, s.last());
        assert(s.drop_last().push(s.last()) =~= s);
        assert(s.drop_last().push(s.last()).to_multiset() =~= s.drop_last().to_multiset().insert(
            s.last(),
        ));
        assert(sort_items(s).to_multiset().len() == s.to_multiset().len());
    }
}

/// The order of two texts.
fn str_order_exec(a: &[char], b: &[char]) -> (res: i8)
    ensures
        res as int == str_order(a@, b@),
{
    let mut i: usize = 0;
    assert(a@.skip(0) =~= a@);
    assert(b@.skip(0) =~= b@);
    while i < a.len() && i < b.len() && a[i] == b[i]
        invariant
            i <= a.len(),
            i <= b.len(),
            str_order(a@, b@) == str_order(a@.skip(i as int), b@.skip(i as int)),
        decreases a.len() - i,
    {
        assert(a@.skip(i as int).drop_first() =~= a@.skip(i + 1));
        assert(b@.skip(i as int).drop_first() =~= b@.skip(i + 1));
        i += 1;
    }
    let ghost sa = a@.skip(i as int);
    let ghost sb = b@.skip(i as int);
    if i < a.len() {
        assert(sa[0] == a@[i as int]);
    }
    if i < b.len() {
        assert(sb[0] == b@[i as int]);
    }
    if i == a.len() {
        if i == b.len() {
            0
        } else {
            -1
        }
    } else if i == b.len() {
        1
    } else if a[i] < b[i] {
        -1
    } else {
        1
    }
}

/// The order of two items.
fn item_order_exec(a: &Annotation, b: &Annotation) -> (res: i8)
    ensures
        res as int == item_order(a@, b@),
        item_order(b@, a@) == -res,
        forall|c: AnnotationView|
            res <= 0 && #[trigger] item_order(c, a@) <= 0 ==> item_order(c, b@) <= 0,
{
    proof {
        lemma_str_order_antisymmetric(a.content@, b.content@);
    }
    let p = path_order(a.file.as_str(), b.file.as_str());
    let res: i8 = if p != 0 {
        p
    } else if a.line < b.line {
        -1
    } else if a.line > b.line {
        1
    } else {
        let ac = to_chars(a.content.as_str());
        let bc = to_chars(b.content.as_str());
        str_order_exec(ac.as_slice(), bc.as_slice())
    };
    assert forall|c: AnnotationView|
        res <= 0 && #[trigger] item_order(c, a@) <= 0 implies item_order(c, b@) <= 0 by {
        if spec_path_order(c.file, a.file@) == 0 && p == 0 && c.line == a.line && a.line == b.line {
            lemma_str_order_transitive(c.content, a.content@, b.content@);
        }
    }
    res
}

/// The annotations of a label, sorted by file, line and text.
pub fn sorted_annotations_for_label(annotations: &[Annotation], label_name: &str) -> (res: Vec<
    Annotation,
>)
    ensures
        annotations_view(res@) == sorted_for_label(annotations_view(annotations@), label_name@),
        in_item_order(annotations_view(res@)),
{
    let ghost av = annotations_view(annotations@);
    let name = String::from_str(label_name);
    let mut items: Vec<Annotation> = Vec::new();
    assert(av.take(0) =~= Seq::<AnnotationView>::empty());
    assert(annotations_view(items@) =~= Seq::<AnnotationView>::empty());
    for i in 0..annotations.len()
        invariant
            av == annotations_view(annotations@),
            name@ == label_name@,
            annotations_view(items@) == sort_items(with_label(av.take(i as int), label_name@)),
            in_item_order(annotations_view(items@)),
    {
        let a = &annotations[i];
        proof {
            assert(av.take(i + 1).drop_last() =~= av.take(i as int));
            assert(av.take(i + 1).last() == a@);
        }
        if a.label == name {
            proof {
                let w = with_label(av.take(i as int), label_name@);
                assert(with_label(av.take(i + 1), label_name@) == w.push(a@));
                assert(w.push(a@).drop_last() =~= w);
                assert(sort_items(w.push(a@)) == insert_sorted(sort_items(w), a@));
            }
            let ghost s = annotations_view(items@);
            let mut p = items.len();
            assert(s.take(p as int) =~= s);
            assert(s.skip(p as int) =~= Seq::<AnnotationView>::empty());
            loop
                invariant
                    p <= items.len(),
                    s == annotations_view(items@),
                    insert_sorted(s, a@) == insert_sorted(s.take(p as int), a@) + s.skip(p as int),
                    in_item_order(s),
                    forall|k: int| p <= k < s.len() ==> item_order(a@, #[trigger] s[k]) < 0,
                ensures
                    forall|x: int| 0 <= x < p ==> item_order(#[trigger] s[x], a@) <= 0,
                decreases p,
            {
                if p == 0 {
                    break;
                }
                let r = item_order_exec(&items[p - 1], a);
                if r <= 0 {
                    assert forall|x: int| 0 <= x < p implies item_order(#[trigger] s[x], a@) <= 0 by {
                        if x < p - 1 {
                            assert(item_order(s[x], s[p - 1]) <= 0);
                        }
                    }
                    break;
                }
                proof {
                    let t = s.take(p as int);
                    assert(t.drop_last() =~= s.take(p - 1));
                    assert(t.last() == s[p - 1]);
                    assert(s.skip(p - 1) =~= seq![s[p - 1]] + s.skip(p as int));
                    assert(insert_sorted(t, a@) == insert_sorted(s.take(p - 1), a@).push(s[p - 1]));
                    assert(insert_sorted(t, a@) + s.skip(p as int) =~= insert_sorted(s.take(p - 1), a@)
                        + s.skip(p - 1));
                }
                p -= 1;
            }
            items.insert(p, a.duplicate());
            proof {
                assert(insert_sorted(s.take(p as int), a@) == s.take(p as int).push(a@));
                let t = s.take(p as int).push(a@) + s.skip(p as int);
                assert(annotations_view(items@) =~= t);
                assert forall|x: int, y: int|
                    #![trigger t[x], t[y]]
                    0 <= x < y < t.len() implies item_order(t[x], t[y]) <= 0 by {
                    if y < p {
                        assert(t[x] == s[x] && t[y] == s[y]);
                    } else if y == p {
                        assert(t[x] == s[x] && t[y] == a@);
                    } else if x == p {
                        assert(t[x] == a@ && t[y] == s[y - 1]);
                    } else if x < p {
                        assert(t[x] == s[x] && t[y] == s[y - 1]);
                    } else {
                        assert(t[x] == s[x - 1] && t[y] == s[y - 1]);
                    }
                }
            }
        } else {
            assert(with_label(av.take(i + 1), label_name@) == with_label(av.take(i as int), label_name@));
        }
    }
    assert(av.take(annotations.len() as int) =~= av);
    items
}

// ---------------------------------------------------------------------------
// Lines
// ---------------------------------------------------------------------------

/// ` ({relative file}:{line})`
pub open spec fn relative_location(root: Seq<char>, a: AnnotationView) -> Seq<char> {
    seq![' ', '('] + relative_file(root, a.file) + seq![':'] + decimal(a.line as nat) + seq![')']
}

/// `- [ ] {content} ({relative file}:{line})`, or with `x` when `check`.
pub open spec fn relative_checkbox_line(root: Seq<char>, a: AnnotationView, check: bool) -> Seq<char> {
    box_prefix(if check { 'x' } else { ' ' }) + a.content + relative_location(root, a)
}

/// `- {content} ({relative file}:{line})`
pub open spec fn relative_plain_line(root: Seq<char>, a: AnnotationView) -> Seq<char> {
    seq!['-', ' '] + a.content + relative_location(root, a)
}

/// Appends ` ({relative file}:{line})`.
fn push_relative_location(out: &mut Vec<char>, root: &str, item: &Annotation)
    ensures
        final(out)@ == old(out)@ + relative_location(root@, item@),
{
    let ghost start = out@;
    out.push(' ');
    out.push('(');
    let f = match path_strip_prefix(item.file.as_str(), root) {
        Some(r) => to_chars(r.as_str()),
        None => to_chars(item.file.as_str()),
    };
    push_all(out, f.as_slice());
    out.push(':');
    let d = decimal_chars(item.line);
    push_all(out, d.as_slice());
    out.push(')');
    assert(out@ =~= start + relative_location(root@, item@));
}

/// The checkbox line of an item.
fn relative_checkbox_chars(root: &str, item: &Annotation, check: bool) -> (res: Vec<char>)
    ensures
        res@ == relative_checkbox_line(root@, item@, check),
{
    let mut out: Vec<char> = Vec::new();
    out.push('-');
    out.push(' ');
    out.push('[');
    out.push(if check { 'x' } else { ' ' });
    out.push(']');
    out.push(' ');
    assert(out@ =~= box_prefix(if check { 'x' } else { ' ' }));
    push_all(&mut out, to_chars(item.content.as_str()).as_slice());
    push_relative_location(&mut out, root, item);
    assert(out@ =~= relative_checkbox_line(root@, item@, check));
    out
}

/// The plain line of an item.
fn relative_plain_chars(root: &str, item: &Annotation) -> (res: Vec<char>)
    ensures
        res@ == relative_plain_line(root@, item@),
{
    let mut out: Vec<char> = Vec::new();
    out.push('-');
    out.push(' ');
    push_all(&mut out, to_chars(item.content.as_str()).as_slice());
    push_relative_location(&mut out, root, item);
    assert(out@ =~= relative_plain_line(root@, item@));
    out
}

/// The strings of char vectors.
fn to_strings(v: &Vec<Vec<char>>) -> (res: Vec<String>)
    ensures
        crate::model::strings_view(res@) == chars_view(v@),
{
    let mut res: Vec<String> = Vec::new();
    assert(crate::model::strings_view(res@) =~= chars_view(v@).take(0));
    for k in 0..v.len()
        invariant
            crate::model::strings_view(res@) == chars_view(v@).take(k as int),
    {
        let s = chars_to_string(v[k].as_slice());
        let ghost pr = res@;
        res.push(s);
        proof {
            crate::model::lemma_strings_view_push(pr, s);
            assert(chars_view(v@).take(k + 1) =~= chars_view(v@).take(k as int).push(v@[k as int]@));
        }
    }
    assert(chars_view(v@).take(v.len() as int) =~= chars_view(v@));
    res
}

/// The unchecked checkbox lines of a label's items, sorted.
fn checkbox_line_list(root: &str, annotations: &[Annotation], label_name: &str) -> (res: Vec<Vec<char>>)
    ensures
        chars_view(res@) == sorted_for_label(annotations_view(annotations@), label_name@).map_values(
            |a: AnnotationView| relative_checkbox_line(root@, a, false),
        ),
{
    let items = sorted_annotations_for_label(annotations, label_name);
    let ghost iv = annotations_view(items@);
    let mut res: Vec<Vec<char>> = Vec::new();
    for k in 0..items.len()
        invariant
            iv == annotations_view(items@),
            chars_view(res@) == iv.take(k as int).map_values(
                |a: AnnotationView| relative_checkbox_line(root@, a, false),
            ),
    {
        let l = relative_checkbox_chars(root, &items[k], false);
        let ghost pr = res@;
        res.push(l);
        proof {
            lemma_chars_view_push(pr, l);
            assert(iv.take(k + 1).map_values(|a: AnnotationView| relative_checkbox_line(root@, a, false))
                =~= iv.take(k as int).map_values(
                |a: AnnotationView| relative_checkbox_line(root@, a, false),
            ).push(relative_checkbox_line(root@, iv[k as int], false)));
        }
    }
    assert(iv.take(items.len() as int) =~= iv);
    res
}

/// The plain lines of a label's items, sorted.
fn plain_line_list(root: &str, annotations: &[Annotation], label_name: &str) -> (res: Vec<Vec<char>>)
    ensures
        chars_view(res@) == sorted_for_label(annotations_view(annotations@), label_name@).map_values(
            |a: AnnotationView| relative_plain_line(root@, a),
        ),
{
    let items = sorted_annotations_for_label(annotations, label_name);
    let ghost iv = annotations_view(items@);
    let mut res: Vec<Vec<char>> = Vec::new();
    for k in 0..items.len()
        invariant
            iv == annotations_view(items@),
            chars_view(res@) == iv.take(k as int).map_values(
                |a: AnnotationView| relative_plain_line(root@, a),
            ),
    {
        let l = relative_plain_chars(root, &items[k]);
        let ghost pr = res@;
        res.push(l);
        proof {
            lemma_chars_view_push(pr, l);
            assert(iv.take(k + 1).map_values(|a: AnnotationView| relative_plain_line(root@, a))
                =~= iv.take(k as int).map_values(|a: AnnotationView| relative_plain_line(root@, a)).push(
                relative_plain_line(root@, iv[k as int]),
            ));
        }
    }
    assert(iv.take(items.len() as int) =~= iv);
    res
}

/// The checkbox lines `- [ ] {content} ({relative file}:{line})` of the items
/// written with exactly the label `label_name`, sorted by file, line and text.
pub fn checkbox_lines_for_label(root: &str, annotations: &[Annotation], label_name: &str) -> (res: Vec<
    String,
>)
    ensures
        crate::model::strings_view(res@) == sorted_for_label(annotations_view(annotations@), label_name@).map_values(
            |a: AnnotationView| relative_checkbox_line(root@, a, false),
        ),
{
    let l = checkbox_line_list(root, annotations, label_name);
    to_strings(&l)
}

/// The plain lines `- {content} ({relative file}:{line})` of the items
/// written with exactly the label `label_name`, sorted by file, line and text.
pub fn plain_lines_for_label(root: &str, annotations: &[Annotation], label_name: &str) -> (res: Vec<
    String,
>)
    ensures
        crate::model::strings_view(res@) == sorted_for_label(annotations_view(annotations@), label_name@).map_values(
            |a: AnnotationView| relative_plain_line(root@, a),
        ),
{
    let l = plain_line_list(root, annotations, label_name);
    to_strings(&l)
}

// ---------------------------------------------------------------------------
// Documents
// ---------------------------------------------------------------------------

/// The lines, each after a newline.
pub open spec fn lines_block(ls: Seq<Seq<char>>) -> Seq<char>
    decreases ls.len(),
{
    if ls.len() == 0 {
        Seq::empty()
    } else {
        lines_block(ls.drop_last()) + newline() + ls.last()
    }
}

/// The unchecked checkbox lines of a label's sorted items.
pub open spec fn sorted_checkbox_lines(root: Seq<char>, anns: Seq<AnnotationView>, name: Seq<char>) -> Seq<
    Seq<char>,
> {
    sorted_for_label(anns, name).map_values(|a: AnnotationView| relative_checkbox_line(root, a, false))
}

/// The plain lines of a label's sorted items.
pub open spec fn sorted_plain_lines(root: Seq<char>, anns: Seq<AnnotationView>, name: Seq<char>) -> Seq<
    Seq<char>,
> {
    sorted_for_label(anns, name).map_values(|a: AnnotationView| relative_plain_line(root, a))
}

/// The section of one label: a newline, the header, each item after a
/// newline, and a final newline.
pub open spec fn sorted_section_spec(root: Seq<char>, l: LabelView, anns: Seq<AnnotationView>) -> Seq<char> {
    newline() + header_spec(l.mark, l.label) + lines_block(
        if l.checkbox {
            sorted_checkbox_lines(root, anns, l.label)
        } else {
            sorted_plain_lines(root, anns, l.label)
        },
    ) + newline()
}

/// The sections of `labels`, in order.
pub open spec fn sorted_sections_spec(root: Seq<char>, labels: Seq<LabelView>, anns: Seq<AnnotationView>) -> Seq<
    char,
>
    decreases labels.len(),
{
    if labels.len() == 0 {
        Seq::empty()
    } else {
        sorted_sections_spec(root, labels.drop_last(), anns) + sorted_section_spec(root, labels.last(), anns)
    }
}

/// A new document in this layout: the title, then a section for every label
/// of the configuration.
pub open spec fn sorted_markdown_spec(root: Seq<char>, labels: Seq<LabelView>, anns: Seq<AnnotationView>) -> Seq<
    char,
> {
    title_spec(root) + sorted_sections_spec(root, labels, anns)
}

/// Appends the lines, each after a newline.
fn push_lines_block(out: &mut Vec<char>, ls: &Vec<Vec<char>>)
    ensures
        final(out)@ == old(out)@ + lines_block(chars_view(ls@)),
{
    let ghost start = out@;
    let ghost lv = chars_view(ls@);
    assert(lv.take(0) =~= Seq::<Seq<char>>::empty());
    for k in 0..ls.len()
        invariant
            lv == chars_view(ls@),
            out@ == start + lines_block(lv.take(k as int)),
    {
        proof {
            assert(lv.take(k + 1).drop_last() =~= lv.take(k as int));
            assert(lv.take(k + 1).last() == ls@[k as int]@);
        }
        out.push('\n');
        push_all(out, ls[k].as_slice());
        assert(out@ =~= start + lines_block(lv.take(k + 1)));
    }
    assert(lv.take(ls.len() as int) =~= lv);
}

/// Builds a new document in this layout: every label of the configuration
/// gets its header, followed by its items sorted by file, line and text, with
/// files relative to the root; checkbox items are unchecked.
pub fn build_markdown(root: &str, config: &Config, annotations: &[Annotation]) -> (res: String)
    ensures
        res@ == sorted_markdown_spec(root@, config@.labels, annotations_view(annotations@)),
{
    let ghost lv = config@.labels;
    let ghost av = annotations_view(annotations@);
    let mut out: Vec<char> = Vec::new();
    push_title(&mut out, root);
    let ghost t = out@;
    assert(lv.take(0) =~= Seq::<LabelView>::empty());
    for i in 0..config.labels.len()
        invariant
            lv == config@.labels,
            av == annotations_view(annotations@),
            out@ == t + sorted_sections_spec(root@, lv.take(i as int), av),
    {
        let label = &config.labels[i];
        proof {
            assert(lv.take(i + 1).drop_last() =~= lv.take(i as int));
            assert(lv.take(i + 1).last() == label@);
        }
        let name = to_chars(label.label.as_str());
        let header = header_chars(opt_as_str(&label.mark), name.as_slice());
        out.push('\n');
        push_all(&mut out, header.as_slice());
        let items = if label.checkbox {
            checkbox_line_list(root, annotations, label.label.as_str())
        } else {
            plain_line_list(root, annotations, label.label.as_str())
        };
        push_lines_block(&mut out, &items);
        out.push('\n');
        assert(out@ =~= t + sorted_sections_spec(root@, lv.take(i + 1), av));
    }
    assert(lv.take(config.labels.len() as int) =~= lv);
    chars_to_string(out.as_slice())
}

/// What a pass over an existing document has gathered in this layout: the
/// section it is in and the checkbox states seen (label, key, checked).
pub struct StateScan {
    pub current: Option<Seq<char>>,
    pub states: Seq<(Seq<char>, Seq<char>, bool)>,
}

/// The pass over one line.
pub open spec fn state_step(labels: Seq<LabelView>, st: StateScan, raw: Seq<char>) -> StateScan {
    let line = trim_end(raw);
    match header_label(labels, line) {
        Some(n) => StateScan { current: Some(n), states: st.states },
        None => if starts_with(line, level2()) {
            StateScan { current: None, states: st.states }
        } else {
            match st.current {
                None => st,
                Some(n) => if !is_checkbox_label(labels, n) {
                    st
                } else {
                    match content_key_spec(line) {
                        None => st,
                        Some(k) => StateScan {
                            current: st.current,
                            states: st.states.push((n, k, is_checked_spec(line))),
                        },
                    }
                },
            }
        },
    }
}

/// The pass over a sequence of lines.
pub open spec fn state_scan(labels: Seq<LabelView>, lns: Seq<Seq<char>>) -> StateScan
    decreases lns.len(),
{
    if lns.len() == 0 {
        StateScan { current: None, states: Seq::empty() }
    } else {
        state_step(labels, state_scan(labels, lns.drop_last()), lns.last())
    }
}

/// Reads the checkbox states of an existing document: within the section of a
/// checkbox label (from its header to the next line starting with `## `),
/// every checkbox item records its key as checked or not.
pub fn collect_existing_checkbox_states(markdown: &str, config: &Config) -> (res: Vec<CheckState>)
    ensures
        states_view(res@) == state_scan(config@.labels, lines(markdown@)).states,
{
    let ghost labels = config@.labels;
    let keys = label_keys(config);
    let md = to_chars(markdown);
    let lns = split_lines(md.as_slice());
    let ghost lv = lines(markdown@);
    let mut current: Option<usize> = None;
    let mut states: Vec<CheckState> = Vec::new();
    assert(lv.take(0) =~= Seq::<Seq<char>>::empty());
    assert(states_view(states@) =~= Seq::<(Seq<char>, Seq<char>, bool)>::empty());
    for i in 0..lns.len()
        invariant
            labels == config@.labels,
            keys.len() == labels.len(),
            forall|j: int| 0 <= j < keys.len() ==> key_of(#[trigger] keys@[j], labels[j]),
            lns@.len() == lv.len(),
            forall|j: int| 0 <= j < lns@.len() ==> #[trigger] lns@[j]@ == lv[j],
            current matches Some(c) ==> c < keys.len(),
            state_scan(labels, lv.take(i as int)).current == match current {
                Some(c) => Some(labels[c as int].label),
                None => None::<Seq<char>>,
            },
            state_scan(labels, lv.take(i as int)).states == states_view(states@),
    {
        let ghost prev = state_scan(labels, lv.take(i as int));
        proof {
            assert(lv.take(i + 1).drop_last() =~= lv.take(i as int));
            assert(lv.take(i + 1).last() == lns@[i as int]@);
        }
        let line = trim_end_chars(lns[i].as_slice());
        match find_header_label(&keys, Ghost(labels), line.as_slice()) {
            Some(h) => {
                current = Some(h);
            },
            None => {
                let mut l2: Vec<char> = Vec::new();
                push_level2(&mut l2);
                assert(l2@ =~= level2());
                if starts_with_chars(line.as_slice(), l2.as_slice()) {
                    current = None;
                } else {
                    match current {
                        None => {},
                        Some(c) => {
                            assert(key_of(keys@[c as int], labels[c as int]));
                            if has_checkbox_label(&keys, Ghost(labels), keys[c].name.as_slice()) {
                                match content_key_chars(line.as_slice()) {
                                    None => {},
                                    Some(k) => {
                                        let checked = is_checked_chars(line.as_slice());
                                        let ghost kv = k@;
                                        states.push(CheckState { label: keys[c].name.clone(), key: k, checked });
                                        assert(states_view(states@) =~= prev.states.push(
                                            (labels[c as int].label, kv, checked),
                                        ));
                                    },
                                }
                            }
                        },
                    }
                }
            },
        }
    }
    assert(lv.take(lns.len() as int) =~= lv);
    states
}

/// The checkbox lines of an update: each sorted item once per key, checked
/// when the existing document had that key checked; and the keys written.
pub open spec fn kept_lines(
    root: Seq<char>,
    label: Seq<char>,
    items: Seq<AnnotationView>,
    states: Seq<(Seq<char>, Seq<char>, bool)>,
) -> (Seq<Seq<char>>, Seq<Seq<char>>)
    decreases items.len(),
{
    if items.len() == 0 {
        (Seq::empty(), Seq::empty())
    } else {
        let (ls, seen) = kept_lines(root, label, items.drop_last(), states);
        let a = items.last();
        let line = relative_checkbox_line(root, a, false);
        match content_key_spec(line) {
            None => (ls, seen),
            Some(k) => if seen.contains(k) {
                (ls, seen)
            } else {
                (
                    ls.push(
                        if state_of(states, label, k) {
                            relative_checkbox_line(root, a, true)
                        } else {
                            line
                        },
                    ),
                    seen.push(k),
                )
            },
        }
    }
}

/// The section of one label in an update of this layout.
pub open spec fn kept_section_spec(
    root: Seq<char>,
    l: LabelView,
    anns: Seq<AnnotationView>,
    states: Seq<(Seq<char>, Seq<char>, bool)>,
) -> Seq<char> {
    newline() + header_spec(l.mark, l.label) + lines_block(
        if l.checkbox {
            kept_lines(root, l.label, sorted_for_label(anns, l.label), states).0
        } else {
            sorted_plain_lines(root, anns, l.label)
        },
    ) + newline()
}

/// The sections of `labels` in an update, in order.
pub open spec fn kept_sections_spec(
    root: Seq<char>,
    labels: Seq<LabelView>,
    anns: Seq<AnnotationView>,
    states: Seq<(Seq<char>, Seq<char>, bool)>,
) -> Seq<char>
    decreases labels.len(),
{
    if labels.len() == 0 {
        Seq::empty()
    } else {
        kept_sections_spec(root, labels.drop_last(), anns, states) + kept_section_spec(
            root,
            labels.last(),
            anns,
            states,
        )
    }
}

/// An update in this layout: like a new document, but a checkbox item whose
/// key the existing document had checked stays checked, and each key is
/// listed once.
pub open spec fn kept_markdown_spec(
    existing: Seq<char>,
    root: Seq<char>,
    labels: Seq<LabelView>,
    anns: Seq<AnnotationView>,
) -> Seq<char> {
    title_spec(root) + kept_sections_spec(root, labels, anns, state_scan(labels, lines(existing)).states)
}


/// The checkbox lines of an update.
fn kept_line_list(
    root: &str,
    annotations: &[Annotation],
    label_name: &str,
    states: &Vec<CheckState>,
) -> (res: Vec<Vec<char>>)
    ensures
        chars_view(res@) == kept_lines(
            root@,
            label_name@,
            sorted_for_label(annotations_view(annotations@), label_name@),
            states_view(states@),
        ).0,
{
    let items = sorted_annotations_for_label(annotations, label_name);
    let name = to_chars(label_name);
    let ghost iv = annotations_view(items@);
    let ghost sv = states_view(states@);
    let mut res: Vec<Vec<char>> = Vec::new();
    let mut seen: Vec<Vec<char>> = Vec::new();
    assert(iv.take(0) =~= Seq::<AnnotationView>::empty());
    assert(chars_view(res@) =~= Seq::<Seq<char>>::empty());
    assert(chars_view(seen@) =~= Seq::<Seq<char>>::empty());
    for k in 0..items.len()
        invariant
            iv == annotations_view(items@),
            sv == states_view(states@),
            name@ == label_name@,
            chars_view(res@) == kept_lines(root@, label_name@, iv.take(k as int), sv).0,
            chars_view(seen@) == kept_lines(root@, label_name@, iv.take(k as int), sv).1,
    {
        let item = &items[k];
        proof {
            assert(iv.take(k + 1).drop_last() =~= iv.take(k as int));
            assert(iv.take(k + 1).last() == item@);
        }
        let line = relative_checkbox_chars(root, item, false);
        match content_key_chars(line.as_slice()) {
            None => {},
            Some(key) => {
                if !contains_chars(&seen, key.as_slice()) {
                    let out = if state_lookup(states, name.as_slice(), key.as_slice()) {
                        relative_checkbox_chars(root, item, true)
                    } else {
                        line
                    };
                    let ghost pr = res@;
                    let ghost ps = seen@;
                    res.push(out);
                    seen.push(key);
                    proof {
                        lemma_chars_view_push(pr, out);
                        lemma_chars_view_push(ps, key);
                    }
                }
            },
        }
    }
    assert(iv.take(items.len() as int) =~= iv);
    res
}

/// Updates an existing document in this layout: every label gets its header
/// and its sorted items; a checkbox item is listed once per key, checked when
/// the existing document had that key checked under the label.
pub fn update_markdown(existing: &str, root: &str, config: &Config, annotations: &[Annotation]) -> (res:
    String)
    ensures
        res@ == kept_markdown_spec(existing@, root@, config@.labels, annotations_view(annotations@)),
{
    let states = collect_existing_checkbox_states(existing, config);
    let ghost sv = states_view(states@);
    let ghost lv = config@.labels;
    let ghost av = annotations_view(annotations@);
    let mut out: Vec<char> = Vec::new();
    push_title(&mut out, root);
    let ghost t = out@;
    assert(lv.take(0) =~= Seq::<LabelView>::empty());
    for i in 0..config.labels.len()
        invariant
            lv == config@.labels,
            av == annotations_view(annotations@),
            sv == states_view(states@),
            out@ == t + kept_sections_spec(root@, lv.take(i as int), av, sv),
    {
        let label = &config.labels[i];
        proof {
            assert(lv.take(i + 1).drop_last() =~= lv.take(i as int));
            assert(lv.take(i + 1).last() == label@);
        }
        let name = to_chars(label.label.as_str());
        let header = header_chars(opt_as_str(&label.mark), name.as_slice());
        out.push('\n');
        push_all(&mut out, header.as_slice());
        let items = if label.checkbox {
            kept_line_list(root, annotations, label.label.as_str(), &states)
        } else {
            plain_line_list(root, annotations, label.label.as_str())
        };
        push_lines_block(&mut out, &items);
        out.push('\n');
        assert(out@ =~= t + kept_sections_spec(root@, lv.take(i + 1), av, sv));
    }
    assert(lv.take(config.labels.len() as int) =~= lv);
    chars_to_string(out.as_slice())
}

} // verus!
