//! The Markdown document: building it from the annotations, and updating an
//! existing document while keeping the state of its checkboxes.
//!
//! The document has the shape
//!
//! ```text
//! # {project}
//!
//! ## {mark} {label}
//! - [ ] {content} ({file}:{line})
//! ### Archive:{label}
//! - [x] {content} ({file}:{line})
//! ```
//!
//! Items of a checkbox label that the existing document has checked move to
//! the label's archive, and archived items stay there on later updates even
//! when their annotation is gone.

use vstd::prelude::*;

use crate::common::{
    get_group, group_annotations, groups_view, hashmap_annotations, lookup_group,
    project_name, project_name_from_root, LabelGroup,
};
use crate::model::{annotations_view, opt_str_view, Annotation, AnnotationView, Config, LabelView};
use crate::paths::{relative_annotations, relative_items};
use crate::text::{
    all_digits, chars_eq, chars_to_string, chars_view, contains_chars, decimal, decimal_chars,
    lemma_trim_end_at, lemma_trim_start_at, lines, push_all, split_lines, starts_with,
    starts_with_chars, to_chars, trim, trim_chars, trim_end, trim_end_chars,
};

verus! {

// ---------------------------------------------------------------------------
// Specification of the rendered text
// ---------------------------------------------------------------------------

/// `"## "`
pub open spec fn level2() -> Seq<char> {
    seq!['#', '#', ' ']
}

/// `"### Archive:"`
pub open spec fn archive_prefix3() -> Seq<char> {
    seq!['#', '#', '#', ' ', 'A', 'r', 'c', 'h', 'i', 'v', 'e', ':']
}

/// `"## Archive:"`
pub open spec fn archive_prefix2() -> Seq<char> {
    seq!['#', '#', ' ', 'A', 'r', 'c', 'h', 'i', 'v', 'e', ':']
}

/// `"\n"`
pub open spec fn newline() -> Seq<char> {
    seq!['\n']
}

/// The header of a label's section: `## {mark} {name}` when the mark holds
/// more than whitespace, `## {name}` otherwise.
pub open spec fn header_spec(mark: Option<Seq<char>>, name: Seq<char>) -> Seq<char> {
    match mark {
        Some(m) => if trim(m).len() > 0 {
            level2() + m + seq![' '] + name
        } else {
            level2() + name
        },
        None => level2() + name,
    }
}

/// The header of a label's archive: `### Archive:{name}`.
pub open spec fn archive_header_spec(name: Seq<char>) -> Seq<char> {
    archive_prefix3() + name
}

/// Whether `line` opens the archive of label `name`; both `### Archive:{name}`
/// and `## Archive:{name}` do.
pub open spec fn opens_archive_of(line: Seq<char>, name: Seq<char>) -> bool {
    line == archive_prefix3() + name || line == archive_prefix2() + name
}

/// ` ({file}:{line})`
pub open spec fn location_spec(a: AnnotationView) -> Seq<char> {
    seq![' ', '('] + a.file + seq![':'] + decimal(a.line as nat) + seq![')']
}

/// `- [ ] {content} ({file}:{line})` or `- [x] ...`, with its newline.
pub open spec fn checkbox_line_spec(a: AnnotationView, check: bool) -> Seq<char> {
    seq!['-', ' ', '[', if check { 'x' } else { ' ' }, ']', ' '] + a.content + location_spec(a)
        + newline()
}

/// `- {content} ({file}:{line})`, with its newline.
pub open spec fn plain_line_spec(a: AnnotationView) -> Seq<char> {
    seq!['-', ' '] + a.content + location_spec(a) + newline()
}

/// The checkbox lines of `anns`, in order.
pub open spec fn checkbox_lines_spec(anns: Seq<AnnotationView>, check: bool) -> Seq<char>
    decreases anns.len(),
{
    if anns.len() == 0 {
        Seq::empty()
    } else {
        checkbox_lines_spec(anns.drop_last(), check) + checkbox_line_spec(anns.last(), check)
    }
}

/// The plain lines of `anns`, in order.
pub open spec fn plain_lines_spec(anns: Seq<AnnotationView>) -> Seq<char>
    decreases anns.len(),
{
    if anns.len() == 0 {
        Seq::empty()
    } else {
        plain_lines_spec(anns.drop_last()) + plain_line_spec(anns.last())
    }
}

/// `"- [ ] "`, `"- [x] "`, `"- [X] "`
pub open spec fn box_prefix(c: char) -> Seq<char> {
    seq!['-', ' ', '[', c, ']', ' ']
}

/// Whether a line is a checked checkbox item.
pub open spec fn is_checked_spec(line: Seq<char>) -> bool {
    let t = trim(line);
    starts_with(t, box_prefix('x')) || starts_with(t, box_prefix('X'))
}

/// Whether a `')'` comes before a `" ("` in `p`.
pub open spec fn closes_then_opens(p: Seq<char>) -> bool {
    exists|j: int, k: int|
        #![trigger p[j], p[k]]
        0 <= j < k && k + 1 < p.len() && p[j] == ')' && p[k] == ' ' && p[k + 1] == '('
}

/// The index of the last `c` in `s`.
pub open spec fn last_char(s: Seq<char>, c: char) -> Option<int>
    decreases s.len(),
{
    if s.len() == 0 {
        None
    } else if s.last() == c {
        Some(s.len() - 1)
    } else {
        last_char(s.drop_last(), c)
    }
}

/// Whether `s` is a location ` ({path}:{line})`: `" ("`, the path, `':'`, a
/// non-empty run of ASCII digits and `')'`, where the path is the text before
/// the last `':'` and has no `')'` before a `" ("` (so that text like `(b) c`
/// is not taken for part of a path).
pub open spec fn is_location(s: Seq<char>) -> bool {
    &&& s.len() >= 4
    &&& s[0] == ' '
    &&& s[1] == '('
    &&& s.last() == ')'
    &&& match last_char(s.subrange(2, s.len() - 1), ':') {
        Some(j) => {
            let inner = s.subrange(2, s.len() - 1);
            let d = inner.skip(j + 1);
            d.len() > 0 && all_digits(d) && !closes_then_opens(inner.take(j))
        },
        None => false,
    }
}

/// The index `i >= from` of the first `" ("` in `r` from which the rest of
/// `r` is a location.
pub open spec fn first_location(r: Seq<char>, from: int) -> Option<int>
    decreases r.len() - from,
{
    if from < 0 || from + 1 >= r.len() {
        None
    } else if r[from] == ' ' && r[from + 1] == '(' && is_location(r.skip(from)) {
        Some(from)
    } else {
        first_location(r, from + 1)
    }
}

/// The text of an item without its trailing location: cut at the first
/// `" ("` from which the rest is a location ` ({path}:{line})`.
pub open spec fn without_location(r: Seq<char>) -> Seq<char> {
    match first_location(r, 0) {
        Some(i) => r.take(i),
        None => r,
    }
}

/// The text of a checkbox item that serves as its key: the line, trimmed,
/// without its `- [ ] ` / `- [x] ` / `- [X] ` prefix and without its
/// trailing location ` ({path}:{line})`, trimmed again; `None` for other
/// lines and for an empty text.
pub open spec fn content_key_spec(line: Seq<char>) -> Option<Seq<char>> {
    let t = trim(line);
    let rest = if starts_with(t, box_prefix(' ')) {
        Some(t.skip(6))
    } else if starts_with(t, box_prefix('x')) {
        Some(t.skip(6))
    } else if starts_with(t, box_prefix('X')) {
        Some(t.skip(6))
    } else {
        None
    };
    match rest {
        None => None,
        Some(r) => {
            let text = without_location(r);
            if trim(text).len() == 0 {
                None
            } else {
                Some(trim(text))
            }
        },
    }
}

// ---------------------------------------------------------------------------
// Rendering
// ---------------------------------------------------------------------------

/// Appends `"## "`.
pub(crate) fn push_level2(out: &mut Vec<char>)
    ensures
        final(out)@ == old(out)@ + level2(),
{
    out.push('#');
    out.push('#');
    out.push(' ');
    assert(final(out)@ =~= old(out)@ + level2());
}

/// Appends `"- [c] "`.
fn push_box_prefix(out: &mut Vec<char>, c: char)
    ensures
        final(out)@ == old(out)@ + box_prefix(c),
{
    out.push('-');
    out.push(' ');
    out.push('[');
    out.push(c);
    out.push(']');
    out.push(' ');
    assert(final(out)@ =~= old(out)@ + box_prefix(c));
}

/// The header of a label's section.
pub(crate) fn header_chars(mark: Option<&str>, name: &[char]) -> (res: Vec<char>)
    ensures
        res@ == header_spec(opt_str_view(mark), name@),
{
    let mut out: Vec<char> = Vec::new();
    push_level2(&mut out);
    match mark {
        Some(m) => {
            let mc = to_chars(m);
            let t = trim_chars(mc.as_slice());
            if t.len() > 0 {
                push_all(&mut out, mc.as_slice());
                out.push(' ');
            }
        },
        None => {},
    }
    push_all(&mut out, name);
    assert(out@ =~= header_spec(opt_str_view(mark), name@));
    out
}

/// The header of a label's section: `## {mark} {name}`, or `## {name}` when
/// the mark is absent or only whitespace.
pub fn header_for_label(mark: Option<&str>, name: &str) -> (res: String)
    ensures
        res@ == header_spec(opt_str_view(mark), name@),
{
    let n = to_chars(name);
    let h = header_chars(mark, n.as_slice());
    chars_to_string(h.as_slice())
}

/// `### Archive:{name}`
fn archive_header_chars(name: &[char]) -> (res: Vec<char>)
    ensures
        res@ == archive_header_spec(name@),
{
    let mut out: Vec<char> = Vec::new();
    out.push('#');
    out.push('#');
    out.push('#');
    out.push(' ');
    out.push('A');
    out.push('r');
    out.push('c');
    out.push('h');
    out.push('i');
    out.push('v');
    out.push('e');
    out.push(':');
    assert(out@ =~= archive_prefix3());
    push_all(&mut out, name);
    out
}

/// The header of a label's archive: `### Archive:{name}`.
pub fn archive_header_for_label(name: &str) -> (res: String)
    ensures
        res@ == archive_header_spec(name@),
{
    let n = to_chars(name);
    let h = archive_header_chars(n.as_slice());
    chars_to_string(h.as_slice())
}

/// Appends ` ({file}:{line})`.
fn push_location(out: &mut Vec<char>, item: &Annotation)
    ensures
        final(out)@ == old(out)@ + location_spec(item@),
{
    out.push(' ');
    out.push('(');
    let f = to_chars(item.file.as_str());
    push_all(out, f.as_slice());
    out.push(':');
    let d = decimal_chars(item.line);
    push_all(out, d.as_slice());
    out.push(')');
    assert(final(out)@ =~= old(out)@ + location_spec(item@));
}

/// Appends the checkbox line of `item`.
fn push_checkbox_line(out: &mut Vec<char>, item: &Annotation, check: bool)
    ensures
        final(out)@ == old(out)@ + checkbox_line_spec(item@, check),
{
    let ghost start = out@;
    push_box_prefix(out, if check { 'x' } else { ' ' });
    let c = to_chars(item.content.as_str());
    push_all(out, c.as_slice());
    push_location(out, item);
    out.push('\n');
    assert(out@ =~= start + checkbox_line_spec(item@, check));
}

/// Appends the plain line of `item`.
fn push_plain_line(out: &mut Vec<char>, item: &Annotation)
    ensures
        final(out)@ == old(out)@ + plain_line_spec(item@),
{
    let ghost start = out@;
    out.push('-');
    out.push(' ');
    let c = to_chars(item.content.as_str());
    push_all(out, c.as_slice());
    push_location(out, item);
    out.push('\n');
    assert(out@ =~= start + plain_line_spec(item@));
}

/// One checkbox item: `- [x] {content} ({file}:{line})` when `check`, else
/// `- [ ] ...`, ending in a newline.
pub fn format_checkbox_line(item: &Annotation, check: bool) -> (res: String)
    ensures
        res@ == checkbox_line_spec(item@, check),
{
    let mut out: Vec<char> = Vec::new();
    push_checkbox_line(&mut out, item, check);
    assert(out@ =~= checkbox_line_spec(item@, check));
    chars_to_string(out.as_slice())
}

/// Appends the checkbox lines of `items`.
fn push_checkbox_lines(out: &mut Vec<char>, items: &[Annotation], check: bool)
    ensures
        final(out)@ == old(out)@ + checkbox_lines_spec(annotations_view(items@), check),
{
    let ghost start = out@;
    let ghost av = annotations_view(items@);
    for i in 0..items.len()
        invariant
            av == annotations_view(items@),
            out@ == start + checkbox_lines_spec(av.take(i as int), check),
    {
        push_checkbox_line(out, &items[i], check);
        proof {
            assert(av.take(i + 1).drop_last() =~= av.take(i as int));
        }
    }
    assert(av.take(items.len() as int) =~= av);
}

/// Appends the plain lines of `items`.
fn push_plain_lines(out: &mut Vec<char>, items: &[Annotation])
    ensures
        final(out)@ == old(out)@ + plain_lines_spec(annotations_view(items@)),
{
    let ghost start = out@;
    let ghost av = annotations_view(items@);
    for i in 0..items.len()
        invariant
            av == annotations_view(items@),
            out@ == start + plain_lines_spec(av.take(i as int)),
    {
        push_plain_line(out, &items[i]);
        proof {
            assert(av.take(i + 1).drop_last() =~= av.take(i as int));
        }
    }
    assert(av.take(items.len() as int) =~= av);
}

/// The checkbox lines `- [ ] {content} ({relative_path}:{line})` of the
/// annotations, in order, with each file shown relative to `root` when `root`
/// is a prefix of it.
pub fn checkbox_lines_for_label(root: &str, annotation: &[Annotation], check: bool) -> (res: String)
    ensures
        res@ == checkbox_lines_spec(relative_items(root@, annotations_view(annotation@)), check),
{
    let relative = relative_annotations(root, annotation);
    let mut out: Vec<char> = Vec::new();
    push_checkbox_lines(&mut out, relative.as_slice(), check);
    assert(out@ =~= checkbox_lines_spec(annotations_view(relative@), check));
    chars_to_string(out.as_slice())
}

/// The plain lines `- {content} ({relative_path}:{line})` of the annotations,
/// in order, with each file shown relative to `root` when `root` is a prefix
/// of it.
pub fn plain_lines_for_label(root: &str, annotation: &[Annotation]) -> (res: String)
    ensures
        res@ == plain_lines_spec(relative_items(root@, annotations_view(annotation@))),
{
    let relative = relative_annotations(root, annotation);
    let mut out: Vec<char> = Vec::new();
    push_plain_lines(&mut out, relative.as_slice());
    assert(out@ =~= plain_lines_spec(annotations_view(relative@)));
    chars_to_string(out.as_slice())
}

/// Whether the chars of a line, trimmed, start with a checked box.
pub(crate) fn is_checked_chars(line: &[char]) -> (res: bool)
    ensures
        res == is_checked_spec(line@),
{
    let t = trim_chars(line);
    let mut px: Vec<char> = Vec::new();
    push_box_prefix(&mut px, 'x');
    let mut pxx: Vec<char> = Vec::new();
    push_box_prefix(&mut pxx, 'X');
    assert(px@ =~= box_prefix('x'));
    assert(pxx@ =~= box_prefix('X'));
    starts_with_chars(t.as_slice(), px.as_slice()) || starts_with_chars(t.as_slice(), pxx.as_slice())
}

/// Whether a line is a checked checkbox item (`- [x] ` or `- [X] ` after trimming).
pub fn checkbox_is_checked(line: &str) -> (res: bool)
    ensures
        res == is_checked_spec(line@),
{
    let l = to_chars(line);
    is_checked_chars(l.as_slice())
}

proof fn lemma_last_char_bound(s: Seq<char>, c: char)
    ensures
        last_char(s, c) matches Some(i) ==> 0 <= i < s.len() && s[i] == c,
    decreases s.len(),
{
    if s.len() > 0 && s.last() != c {
        lemma_last_char_bound(s.drop_last(), c);
    }
}

/// The index of the last `c` in `s`.
fn last_char_index(s: &[char], c: char) -> (res: Option<usize>)
    ensures
        match res {
            Some(i) => last_char(s@, c) == Some(i as int),
            None => last_char(s@, c) is None,
        },
{
    let mut k: usize = s.len();
    assert(s@.take(k as int) =~= s@);
    while k > 0
        invariant
            k <= s.len(),
            last_char(s@, c) == last_char(s@.take(k as int), c),
        decreases k,
    {
        assert(s@.take(k as int).drop_last() =~= s@.take(k - 1));
        if s[k - 1] == c {
            return Some(k - 1);
        }
        k -= 1;
    }
    assert(s@.take(0) =~= Seq::<char>::empty());
    None
}

/// Whether `s` is a location ` ({path}:{line})`.
fn is_location_chars(s: &[char]) -> (res: bool)
    ensures
        res == is_location(s@),
{
    if s.len() < 4 || s[0] != ' ' || s[1] != '(' || s[s.len() - 1] != ')' {
        return false;
    }
    let inner = crate::text::copy_range(s, 2, s.len() - 1);
    proof {
        lemma_last_char_bound(inner@, ':');
    }
    match last_char_index(inner.as_slice(), ':') {
        None => false,
        Some(j) => {
            let d = crate::text::copy_range(inner.as_slice(), j + 1, inner.len());
            assert(d@ =~= inner@.skip(j + 1));
            assert(inner@ =~= s@.subrange(2, s@.len() - 1));
            assert(d@ == s@.subrange(2, s@.len() - 1).skip(j + 1));
            if d.len() == 0 {
                return false;
            }
            let mut i: usize = 0;
            let mut digits = true;
            while i < d.len()
                invariant
                    i <= d.len(),
                    digits == (forall|m: int| 0 <= m < i ==> crate::text::is_digit(#[trigger] d@[m])),
                decreases d.len() - i,
            {
                if !('0' <= d[i] && d[i] <= '9') {
                    assert(!crate::text::is_digit(d@[i as int]));
                    digits = false;
                }
                i += 1;
            }
            let path = crate::text::copy_range(inner.as_slice(), 0, j);
            assert(path@ =~= inner@.take(j as int));
            digits && !closes_then_opens_chars(path.as_slice())
        },
    }
}

/// Whether a `')'` comes before a `" ("` in `p`.
fn closes_then_opens_chars(p: &[char]) -> (res: bool)
    ensures
        res == closes_then_opens(p@),
{
    let mut seen = false;
    let mut k: usize = 0;
    while k < p.len() && p.len() - k > 1
        invariant
            k <= p.len(),
            seen == (exists|j: int| 0 <= j < k && p@[j] == ')'),
            forall|j: int, m: int|
                #![trigger p@[j], p@[m]]
                0 <= j < m < k && m + 1 < p.len() ==> !(p@[j] == ')' && p@[m] == ' ' && p@[m + 1]
                    == '('),
        decreases p.len() - k,
    {
        if seen && p[k] == ' ' && p[k + 1] == '(' {
            proof {
                let j = choose|j: int| 0 <= j < k && p@[j] == ')';
                assert(p@[j] == ')' && p@[k as int] == ' ' && p@[k + 1] == '(');
            }
            return true;
        }
        if p[k] == ')' {
            seen = true;
        }
        k += 1;
    }
    assert forall|j: int, m: int|
        #![trigger p@[j], p@[m]]
        0 <= j < m && m + 1 < p@.len() implies !(p@[j] == ')' && p@[m] == ' ' && p@[m + 1] == '(') by {
        assert(m < k);
    }
    false
}

/// The text of an item without its trailing location.
fn strip_location(r: &[char]) -> (res: Vec<char>)
    ensures
        res@ == without_location(r@),
{
    let mut i: usize = 0;
    while i < r.len() && r.len() - i > 1
        invariant
            i <= r.len(),
            first_location(r@, 0) == first_location(r@, i as int),
        decreases r.len() - i,
    {
        if r[i] == ' ' && r[i + 1] == '(' {
            let tail = crate::text::copy_range(r, i, r.len());
            assert(tail@ =~= r@.skip(i as int));
            if is_location_chars(tail.as_slice()) {
                assert(r@.subrange(0, i as int) =~= r@.take(i as int));
                return crate::text::copy_range(r, 0, i);
            }
        }
        i += 1;
    }
    assert(r@.subrange(0, r.len() as int) =~= r@);
    crate::text::copy_range(r, 0, r.len())
}

/// The key of a checkbox line, on chars.
pub(crate) fn content_key_chars(line: &[char]) -> (res: Option<Vec<char>>)
    ensures
        match res {
            Some(k) => content_key_spec(line@) == Some(k@),
            None => content_key_spec(line@) is None,
        },
{
    let t = trim_chars(line);
    let mut p0: Vec<char> = Vec::new();
    push_box_prefix(&mut p0, ' ');
    let mut px: Vec<char> = Vec::new();
    push_box_prefix(&mut px, 'x');
    let mut pxx: Vec<char> = Vec::new();
    push_box_prefix(&mut pxx, 'X');
    assert(p0@ =~= box_prefix(' '));
    assert(px@ =~= box_prefix('x'));
    assert(pxx@ =~= box_prefix('X'));
    if !(starts_with_chars(t.as_slice(), p0.as_slice()) || starts_with_chars(t.as_slice(), px.as_slice())
        || starts_with_chars(t.as_slice(), pxx.as_slice())) {
        return None;
    }
    let rest = crate::text::copy_range(t.as_slice(), 6, t.len());
    let text = strip_location(rest.as_slice());
    let key = trim_chars(text.as_slice());
    if key.len() == 0 {
        None
    } else {
        Some(key)
    }
}

/// The key of a checkbox line: its text without the box prefix and without
/// its trailing location ` ({path}:{line})`, trimmed; `None` for lines that
/// are not checkbox items and for items with an empty text.
pub fn checkbox_content_key(line: &str) -> (res: Option<String>)
    ensures
        match res {
            Some(k) => content_key_spec(line@) == Some(k@),
            None => content_key_spec(line@) is None,
        },
{
    let l = to_chars(line);
    match content_key_chars(l.as_slice()) {
        Some(k) => Some(chars_to_string(k.as_slice())),
        None => None,
    }
}

// ---------------------------------------------------------------------------
// Building a new document
// ---------------------------------------------------------------------------

/// The section of one label in a new document.
pub open spec fn new_section_spec(
    label: LabelView,
    groups: Seq<(Seq<char>, Seq<AnnotationView>)>,
) -> Seq<char> {
    if !label.enabled {
        Seq::empty()
    } else if !label.update {
        newline() + header_spec(label.mark, label.label) + newline()
    } else {
        match lookup_group(groups, label.label) {
            None => Seq::empty(),
            Some(es) => newline() + header_spec(label.mark, label.label) + newline() + if label.checkbox {
                checkbox_lines_spec(es, false)
            } else {
                plain_lines_spec(es)
            },
        }
    }
}

/// The sections of `labels` in a new document, in order.
pub open spec fn new_sections_spec(
    labels: Seq<LabelView>,
    groups: Seq<(Seq<char>, Seq<AnnotationView>)>,
) -> Seq<char>
    decreases labels.len(),
{
    if labels.len() == 0 {
        Seq::empty()
    } else {
        new_sections_spec(labels.drop_last(), groups) + new_section_spec(labels.last(), groups)
    }
}

/// `# {project}` and its newline.
pub open spec fn title_spec(root: Seq<char>) -> Seq<char> {
    seq!['#', ' '] + project_name(root) + newline()
}

/// A new document: the title, then for each enabled label in the order of the
/// configuration its header and items (all unchecked, each file shown
/// relative to the root); an enabled label without `update` gets its bare
/// header, and one without annotations none.
pub open spec fn markdown_spec(
    root: Seq<char>,
    labels: Seq<LabelView>,
    anns: Seq<AnnotationView>,
) -> Seq<char> {
    title_spec(root) + new_sections_spec(labels, group_annotations(labels, relative_items(root, anns)))
}

/// A mark as an optional string slice.
pub fn opt_as_str(o: &Option<String>) -> (res: Option<&str>)
    ensures
        opt_str_view(res) == crate::model::opt_view(*o),
{
    match o {
        Some(s) => Some(s.as_str()),
        None => None,
    }
}

/// Appends the title `# {project}`.
pub(crate) fn push_title(out: &mut Vec<char>, root: &str)
    ensures
        final(out)@ == old(out)@ + title_spec(root@),
{
    let ghost start = out@;
    out.push('#');
    out.push(' ');
    let p = to_chars(project_name_from_root(root).as_str());
    push_all(out, p.as_slice());
    out.push('\n');
    assert(out@ =~= start + title_spec(root@));
}

/// Builds a new Markdown document from the annotations.
///
/// Checkbox items are all unchecked; nothing of an existing document is read.
pub fn build_markdown(root: &str, config: &Config, annotations: &[Annotation]) -> (res: String)
    ensures
        res@ == markdown_spec(root@, config@.labels, annotations_view(annotations@)),
{
    let mut out: Vec<char> = Vec::new();
    push_title(&mut out, root);
    let relative = relative_annotations(root, annotations);
    let grouped = hashmap_annotations(config, relative.as_slice());
    let ghost gv = groups_view(grouped@);
    let ghost lv = config@.labels;
    let ghost t = out@;
    for i in 0..config.labels.len()
        invariant
            gv == groups_view(grouped@),
            lv == config@.labels,
            out@ == t + new_sections_spec(lv.take(i as int), gv),
    {
        let label = &config.labels[i];
        proof {
            assert(lv.take(i + 1).drop_last() =~= lv.take(i as int));
            assert(lv.take(i + 1).last() == label@);
        }
        if label.enabled {
            let name = to_chars(label.label.as_str());
            let header = header_chars(opt_as_str(&label.mark), name.as_slice());
            if !label.update {
                out.push('\n');
                push_all(&mut out, header.as_slice());
                out.push('\n');
            } else {
                match get_group(&grouped, &label.label) {
                    None => {},
                    Some(entries) => {
                        out.push('\n');
                        push_all(&mut out, header.as_slice());
                        out.push('\n');
                        if label.checkbox {
                            push_checkbox_lines(&mut out, entries.as_slice(), false);
                        } else {
                            push_plain_lines(&mut out, entries.as_slice());
                        }
                    },
                }
            }
        }
        assert(out@ =~= t + new_sections_spec(lv.take(i + 1), gv));
    }
    proof {
        assert(lv.take(config.labels.len() as int) =~= lv);
    }
    chars_to_string(out.as_slice())
}

// ---------------------------------------------------------------------------
// Reading an existing document
// ---------------------------------------------------------------------------

/// The label whose section header is `line`: the last label in the
/// configuration with that header.
pub open spec fn header_label(labels: Seq<LabelView>, line: Seq<char>) -> Option<Seq<char>>
    decreases labels.len(),
{
    if labels.len() == 0 {
        None
    } else if header_spec(labels.last().mark, labels.last().label) == line {
        Some(labels.last().label)
    } else {
        header_label(labels.drop_last(), line)
    }
}

/// The checkbox label whose archive `line` opens: the last such label in the
/// configuration.
pub open spec fn archive_label(labels: Seq<LabelView>, line: Seq<char>) -> Option<Seq<char>>
    decreases labels.len(),
{
    if labels.len() == 0 {
        None
    } else if labels.last().checkbox && opens_archive_of(line, labels.last().label) {
        Some(labels.last().label)
    } else {
        archive_label(labels.drop_last(), line)
    }
}

/// Whether some checkbox label has the name `name`.
pub open spec fn is_checkbox_label(labels: Seq<LabelView>, name: Seq<char>) -> bool {
    exists|i: int| 0 <= i < labels.len() && #[trigger] labels[i].label == name && labels[i].checkbox
}

/// What a pass over an existing document has gathered so far: the section it
/// is in, whether that is an archive, the checkbox states seen (label, key,
/// checked) and the checked or archived items (label, key, line), in document
/// order.
pub struct CheckScan {
    pub current: Option<Seq<char>>,
    pub in_archive: bool,
    pub states: Seq<(Seq<char>, Seq<char>, bool)>,
    pub archived: Seq<(Seq<char>, Seq<char>, Seq<char>)>,
}

/// The pass over one line of an existing document.
pub open spec fn check_step(labels: Seq<LabelView>, st: CheckScan, raw: Seq<char>) -> CheckScan {
    let line = trim_end(raw);
    match header_label(labels, line) {
        Some(n) => CheckScan { current: Some(n), in_archive: false, ..st },
        None => match archive_label(labels, line) {
            Some(n) => CheckScan { current: Some(n), in_archive: true, ..st },
            None => if starts_with(line, level2()) {
                CheckScan { current: None, in_archive: false, ..st }
            } else {
                match st.current {
                    None => st,
                    Some(n) => if !is_checkbox_label(labels, n) {
                        st
                    } else {
                        match content_key_spec(line) {
                            None => st,
                            Some(k) => {
                                let c = st.in_archive || is_checked_spec(line);
                                CheckScan {
                                    states: st.states.push((n, k, c)),
                                    archived: if c {
                                        st.archived.push((n, k, line))
                                    } else {
                                        st.archived
                                    },
                                    ..st
                                }
                            },
                        }
                    },
                }
            },
        },
    }
}

/// The pass over a sequence of lines.
pub open spec fn check_scan(labels: Seq<LabelView>, lns: Seq<Seq<char>>) -> CheckScan
    decreases lns.len(),
{
    if lns.len() == 0 {
        CheckScan { current: None, in_archive: false, states: Seq::empty(), archived: Seq::empty() }
    } else {
        check_step(labels, check_scan(labels, lns.drop_last()), lns.last())
    }
}

/// The checkbox state of `key` under `label`: the last state recorded for it,
/// or unchecked.
pub open spec fn state_of(states: Seq<(Seq<char>, Seq<char>, bool)>, label: Seq<char>, key: Seq<
    char,
>) -> bool
    decreases states.len(),
{
    if states.len() == 0 {
        false
    } else if states.last().0 == label && states.last().1 == key {
        states.last().2
    } else {
        state_of(states.drop_last(), label, key)
    }
}

/// The checked or archived items of `label` (key, line), in document order.
pub open spec fn archived_of(archived: Seq<(Seq<char>, Seq<char>, Seq<char>)>, label: Seq<char>) -> Seq<
    (Seq<char>, Seq<char>),
>
    decreases archived.len(),
{
    if archived.len() == 0 {
        Seq::empty()
    } else {
        let rest = archived_of(archived.drop_last(), label);
        if archived.last().0 == label {
            rest.push((archived.last().1, archived.last().2))
        } else {
            rest
        }
    }
}

/// A label's name, header, archive headers and checkbox flag, as chars.
pub struct LabelKey {
    pub name: Vec<char>,
    pub header: Vec<char>,
    pub archive3: Vec<char>,
    pub archive2: Vec<char>,
    pub checkbox: bool,
}

/// `k` holds the keys of label `l`.
pub open spec fn key_of(k: LabelKey, l: LabelView) -> bool {
    &&& k.name@ == l.label
    &&& k.header@ == header_spec(l.mark, l.label)
    &&& k.archive3@ == archive_prefix3() + l.label
    &&& k.archive2@ == archive_prefix2() + l.label
    &&& k.checkbox == l.checkbox
}

/// The keys of every label, in order.
pub(crate) fn label_keys(config: &Config) -> (res: Vec<LabelKey>)
    ensures
        res.len() == config@.labels.len(),
        forall|i: int| 0 <= i < res.len() ==> key_of(#[trigger] res@[i], config@.labels[i]),
{
    let mut res: Vec<LabelKey> = Vec::new();
    for i in 0..config.labels.len()
        invariant
            res.len() == i,
            forall|j: int| 0 <= j < i ==> key_of(#[trigger] res@[j], config@.labels[j]),
    {
        let label = &config.labels[i];
        let name = to_chars(label.label.as_str());
        let header = header_chars(opt_as_str(&label.mark), name.as_slice());
        let archive3 = archive_header_chars(name.as_slice());
        let mut archive2: Vec<char> = Vec::new();
        archive2.push('#');
        archive2.push('#');
        archive2.push(' ');
        archive2.push('A');
        archive2.push('r');
        archive2.push('c');
        archive2.push('h');
        archive2.push('i');
        archive2.push('v');
        archive2.push('e');
        archive2.push(':');
        assert(archive2@ =~= archive_prefix2());
        push_all(&mut archive2, name.as_slice());
        assert(config@.labels[i as int] == label@);
        res.push(LabelKey { name, header, archive3, archive2, checkbox: label.checkbox });
    }
    res
}

/// The index of the label whose section header is `line`.
pub(crate) fn find_header_label(keys: &Vec<LabelKey>, Ghost(labels): Ghost<Seq<LabelView>>, line: &[char]) -> (res:
    Option<usize>)
    requires
        keys.len() == labels.len(),
        forall|i: int| 0 <= i < keys.len() ==> key_of(#[trigger] keys@[i], labels[i]),
    ensures
        match res {
            Some(i) => i < keys.len() && header_label(labels, line@) == Some(labels[i as int].label),
            None => header_label(labels, line@) is None,
        },
{
    let mut i = keys.len();
    assert(labels.take(i as int) =~= labels);
    while i > 0
        invariant
            i <= keys.len() == labels.len(),
            forall|j: int| 0 <= j < keys.len() ==> key_of(#[trigger] keys@[j], labels[j]),
            header_label(labels, line@) == header_label(labels.take(i as int), line@),
        decreases i,
    {
        let ghost t = labels.take(i as int);
        assert(t.drop_last() =~= labels.take(i - 1));
        assert(key_of(keys@[i - 1], labels[i - 1]));
        if chars_eq(keys[i - 1].header.as_slice(), line) {
            return Some(i - 1);
        }
        i -= 1;
    }
    None
}

/// The index of the checkbox label whose archive `line` opens.
fn find_archive_label(keys: &Vec<LabelKey>, Ghost(labels): Ghost<Seq<LabelView>>, line: &[char]) -> (res:
    Option<usize>)
    requires
        keys.len() == labels.len(),
        forall|i: int| 0 <= i < keys.len() ==> key_of(#[trigger] keys@[i], labels[i]),
    ensures
        match res {
            Some(i) => i < keys.len() && archive_label(labels, line@) == Some(labels[i as int].label),
            None => archive_label(labels, line@) is None,
        },
{
    let mut i = keys.len();
    assert(labels.take(i as int) =~= labels);
    while i > 0
        invariant
            i <= keys.len() == labels.len(),
            forall|j: int| 0 <= j < keys.len() ==> key_of(#[trigger] keys@[j], labels[j]),
            archive_label(labels, line@) == archive_label(labels.take(i as int), line@),
        decreases i,
    {
        let ghost t = labels.take(i as int);
        assert(t.drop_last() =~= labels.take(i - 1));
        assert(key_of(keys@[i - 1], labels[i - 1]));
        let k = &keys[i - 1];
        if k.checkbox && (chars_eq(k.archive3.as_slice(), line) || chars_eq(k.archive2.as_slice(), line)) {
            return Some(i - 1);
        }
        i -= 1;
    }
    None
}

/// Whether some checkbox label has the name `name`.
pub(crate) fn has_checkbox_label(keys: &Vec<LabelKey>, Ghost(labels): Ghost<Seq<LabelView>>, name: &[char]) -> (res:
    bool)
    requires
        keys.len() == labels.len(),
        forall|i: int| 0 <= i < keys.len() ==> key_of(#[trigger] keys@[i], labels[i]),
    ensures
        res == is_checkbox_label(labels, name@),
{
    for i in 0..keys.len()
        invariant
            keys.len() == labels.len(),
            forall|j: int| 0 <= j < keys.len() ==> key_of(#[trigger] keys@[j], labels[j]),
            forall|j: int| 0 <= j < i ==> !(#[trigger] labels[j].label == name@ && labels[j].checkbox),
    {
        assert(key_of(keys@[i as int], labels[i as int]));
        if keys[i].checkbox && chars_eq(keys[i].name.as_slice(), name) {
            return true;
        }
    }
    false
}

/// A recorded checkbox state.
pub struct CheckState {
    pub label: Vec<char>,
    pub key: Vec<char>,
    pub checked: bool,
}

/// A checked or archived item of an existing document.
pub struct ArchivedItem {
    pub label: Vec<char>,
    pub key: Vec<char>,
    pub line: Vec<char>,
}

/// The checkbox states and the checked or archived items of an existing
/// document, in document order.
pub struct ExistingCheckboxData {
    pub states: Vec<CheckState>,
    pub archived: Vec<ArchivedItem>,
}

/// The view of recorded states.
pub open spec fn states_view(v: Seq<CheckState>) -> Seq<(Seq<char>, Seq<char>, bool)> {
    v.map_values(|s: CheckState| (s.label@, s.key@, s.checked))
}

/// The view of archived items.
pub open spec fn archived_view(v: Seq<ArchivedItem>) -> Seq<(Seq<char>, Seq<char>, Seq<char>)> {
    v.map_values(|a: ArchivedItem| (a.label@, a.key@, a.line@))
}

/// Reads the checkbox states and the checked or archived items of every
/// checkbox label from an existing document.
///
/// A line that equals a label's header opens that label's section; a line
/// `### Archive:{label}` or `## Archive:{label}` opens the archive of a
/// checkbox label; any other line starting with `## ` closes the section.
/// Within the section or archive of a checkbox label, each checkbox item
/// records its key as checked when it is checked or stands in the archive,
/// and unchecked otherwise; the checked ones are also kept with their line.
pub fn collect_existing_checkbox_data(markdown: &str, config: &Config) -> (res: ExistingCheckboxData)
    ensures
        states_view(res.states@) == check_scan(config@.labels, lines(markdown@)).states,
        archived_view(res.archived@) == check_scan(config@.labels, lines(markdown@)).archived,
{
    let ghost labels = config@.labels;
    let keys = label_keys(config);
    let md = to_chars(markdown);
    let lns = split_lines(md.as_slice());
    let ghost lv = lines(markdown@);
    let mut current: Option<usize> = None;
    let mut in_archive = false;
    let mut states: Vec<CheckState> = Vec::new();
    let mut archived: Vec<ArchivedItem> = Vec::new();
    assert(lv.take(0) =~= Seq::<Seq<char>>::empty());
    for i in 0..lns.len()
        invariant
            labels == config@.labels,
            keys.len() == labels.len(),
            forall|j: int| 0 <= j < keys.len() ==> key_of(#[trigger] keys@[j], labels[j]),
            lns@.len() == lv.len(),
            forall|j: int| 0 <= j < lns@.len() ==> #[trigger] lns@[j]@ == lv[j],
            current matches Some(c) ==> c < keys.len(),
            check_scan(labels, lv.take(i as int)).current == match current {
                Some(c) => Some(labels[c as int].label),
                None => None::<Seq<char>>,
            },
            check_scan(labels, lv.take(i as int)).in_archive == in_archive,
            check_scan(labels, lv.take(i as int)).states == states_view(states@),
            check_scan(labels, lv.take(i as int)).archived == archived_view(archived@),
    {
        let ghost prev = check_scan(labels, lv.take(i as int));
        proof {
            assert(lv.take(i + 1).drop_last() =~= lv.take(i as int));
            assert(lv.take(i + 1).last() == lns@[i as int]@);
        }
        let line = trim_end_chars(lns[i].as_slice());
        match find_header_label(&keys, Ghost(labels), line.as_slice()) {
            Some(h) => {
                current = Some(h);
                in_archive = false;
            },
            None => match find_archive_label(&keys, Ghost(labels), line.as_slice()) {
                Some(h) => {
                    current = Some(h);
                    in_archive = true;
                },
                None => {
                    let mut l2: Vec<char> = Vec::new();
                    push_level2(&mut l2);
                    assert(l2@ =~= level2());
                    if starts_with_chars(line.as_slice(), l2.as_slice()) {
                        current = None;
                        in_archive = false;
                    } else {
                        match current {
                            None => {},
                            Some(c) => {
                                assert(key_of(keys@[c as int], labels[c as int]));
                                if has_checkbox_label(&keys, Ghost(labels), keys[c].name.as_slice()) {
                                    match content_key_chars(line.as_slice()) {
                                        None => {},
                                        Some(k) => {
                                            let checked = in_archive || is_checked_chars(line.as_slice());
                                            if checked {
                                                archived.push(ArchivedItem {
                                                    label: keys[c].name.clone(),
                                                    key: k.clone(),
                                                    line: line.clone(),
                                                });
                                            }
                                            states.push(CheckState {
                                                label: keys[c].name.clone(),
                                                key: k,
                                                checked,
                                            });
                                            proof {
                                                assert(states_view(states@) =~= prev.states.push(
                                                    (labels[c as int].label, content_key_spec(line@)->0, checked),
                                                ));
                                                if checked {
                                                    assert(archived_view(archived@) =~= prev.archived.push(
                                                        (labels[c as int].label, content_key_spec(line@)->0, line@),
                                                    ));
                                                }
                                            }
                                        },
                                    }
                                }
                            },
                        }
                    }
                },
            },
        }
    }
    proof {
        assert(lv.take(lns.len() as int) =~= lv);
    }
    ExistingCheckboxData { states, archived }
}

/// What a pass over an existing document has gathered of the sections' text:
/// the section it is in and, per label in the order first seen, the lines
/// of its section, each with a newline.
pub struct BodyScan {
    pub current: Option<Seq<char>>,
    pub bodies: Seq<(Seq<char>, Seq<char>)>,
}

/// Index of the first body of `name`.
pub open spec fn body_index(bodies: Seq<(Seq<char>, Seq<char>)>, name: Seq<char>) -> Option<nat>
    decreases bodies.len(),
{
    if bodies.len() == 0 {
        None
    } else if bodies[0].0 == name {
        Some(0)
    } else {
        match body_index(bodies.drop_first(), name) {
            Some(i) => Some(i + 1),
            None => None,
        }
    }
}

/// The pass over one line, for section bodies.
pub open spec fn body_step(labels: Seq<LabelView>, st: BodyScan, raw: Seq<char>) -> BodyScan {
    let t = trim_end(raw);
    match header_label(labels, t) {
        Some(n) => BodyScan {
            current: Some(n),
            bodies: if body_index(st.bodies, n) is None {
                st.bodies.push((n, Seq::empty()))
            } else {
                st.bodies
            },
        },
        None => if starts_with(t, level2()) {
            BodyScan { current: None, bodies: st.bodies }
        } else {
            match st.current {
                None => st,
                Some(n) => match body_index(st.bodies, n) {
                    Some(j) => BodyScan {
                        current: st.current,
                        bodies: st.bodies.update(
                            j as int,
                            (n, st.bodies[j as int].1 + raw + newline()),
                        ),
                    },
                    None => st,
                },
            }
        },
    }
}

/// The pass over a sequence of lines, for section bodies.
pub open spec fn body_scan(labels: Seq<LabelView>, lns: Seq<Seq<char>>) -> BodyScan
    decreases lns.len(),
{
    if lns.len() == 0 {
        BodyScan { current: None, bodies: Seq::empty() }
    } else {
        body_step(labels, body_scan(labels, lns.drop_last()), lns.last())
    }
}

/// The existing text of each labelled section, without its last newline.
pub open spec fn section_bodies_spec(labels: Seq<LabelView>, markdown: Seq<char>) -> Seq<
    (Seq<char>, Seq<char>),
> {
    body_scan(labels, lines(markdown)).bodies.map_values(
        |b: (Seq<char>, Seq<char>)| (b.0, crate::text::strip_last(b.1, '\n')),
    )
}

/// The existing text of the section of `name`.
pub open spec fn section_body(bodies: Seq<(Seq<char>, Seq<char>)>, name: Seq<char>) -> Option<
    Seq<char>,
> {
    match body_index(bodies, name) {
        Some(i) => Some(bodies[i as int].1),
        None => None,
    }
}

/// The existing text of one labelled section.
pub struct SectionBody {
    pub label: Vec<char>,
    pub body: Vec<char>,
}

/// The view of section bodies.
pub open spec fn bodies_view(v: Seq<SectionBody>) -> Seq<(Seq<char>, Seq<char>)> {
    v.map_values(|b: SectionBody| (b.label@, b.body@))
}

proof fn lemma_body_index(bodies: Seq<(Seq<char>, Seq<char>)>, name: Seq<char>, k: int)
    requires
        0 <= k <= bodies.len(),
        forall|i: int| 0 <= i < k ==> #[trigger] bodies[i].0 != name,
    ensures
        k < bodies.len() && bodies[k].0 == name ==> body_index(bodies, name) == Some(k as nat),
        k == bodies.len() ==> body_index(bodies, name) is None,
    decreases k,
{
    if k > 0 {
        let t = bodies.drop_first();
        assert forall|i: int| 0 <= i < k - 1 implies #[trigger] t[i].0 != name by {
            assert(t[i] == bodies[i + 1]);
        }
        lemma_body_index(t, name, k - 1);
    }
}

proof fn lemma_body_index_found(bodies: Seq<(Seq<char>, Seq<char>)>, name: Seq<char>)
    ensures
        body_index(bodies, name) matches Some(i) ==> i < bodies.len() && bodies[i as int].0 == name,
    decreases bodies.len(),
{
    if bodies.len() > 0 && bodies[0].0 != name {
        lemma_body_index_found(bodies.drop_first(), name);
    }
}

/// Index of the body of `name`.
fn find_body(bodies: &Vec<SectionBody>, name: &[char]) -> (res: Option<usize>)
    ensures
        res == match body_index(bodies_view(bodies@), name@) {
            Some(i) => Some(i as usize),
            None => None::<usize>,
        },
        res matches Some(i) ==> i < bodies.len() && bodies@[i as int].label@ == name@
            && body_index(bodies_view(bodies@), name@) == Some(i as nat),
{
    let ghost bv = bodies_view(bodies@);
    proof {
        lemma_body_index_found(bv, name@);
    }
    for i in 0..bodies.len()
        invariant
            bv == bodies_view(bodies@),
            forall|j: int| 0 <= j < i ==> #[trigger] bv[j].0 != name@,
    {
        if chars_eq(bodies[i].label.as_slice(), name) {
            proof {
                lemma_body_index(bv, name@, i as int);
            }
            return Some(i);
        }
    }
    proof {
        lemma_body_index(bv, name@, bv.len() as int);
    }
    None
}

/// Reads the existing text of every labelled section: the lines after a
/// label's header up to the next line starting with `## `, each followed by
/// a newline, without the last newline.
pub fn collect_existing_section_bodies(markdown: &str, config: &Config) -> (res: Vec<SectionBody>)
    ensures
        bodies_view(res@) == section_bodies_spec(config@.labels, markdown@),
{
    let ghost labels = config@.labels;
    let keys = label_keys(config);
    let md = to_chars(markdown);
    let lns = split_lines(md.as_slice());
    let ghost lv = lines(markdown@);
    let mut current: Option<usize> = None;
    let mut bodies: Vec<SectionBody> = Vec::new();
    assert(lv.take(0) =~= Seq::<Seq<char>>::empty());
    for i in 0..lns.len()
        invariant
            labels == config@.labels,
            keys.len() == labels.len(),
            forall|j: int| 0 <= j < keys.len() ==> key_of(#[trigger] keys@[j], labels[j]),
            lns@.len() == lv.len(),
            forall|j: int| 0 <= j < lns@.len() ==> #[trigger] lns@[j]@ == lv[j],
            current matches Some(c) ==> c < keys.len(),
            body_scan(labels, lv.take(i as int)).current == match current {
                Some(c) => Some(labels[c as int].label),
                None => None::<Seq<char>>,
            },
            body_scan(labels, lv.take(i as int)).bodies == bodies_view(bodies@),
    {
        let ghost prev = body_scan(labels, lv.take(i as int));
        proof {
            assert(lv.take(i + 1).drop_last() =~= lv.take(i as int));
            assert(lv.take(i + 1).last() == lns@[i as int]@);
        }
        let raw = &lns[i];
        let t = trim_end_chars(raw.as_slice());
        assert(body_scan(labels, lv.take(i + 1)) == body_step(labels, prev, raw@));
        match find_header_label(&keys, Ghost(labels), t.as_slice()) {
            Some(h) => {
                current = Some(h);
                assert(key_of(keys@[h as int], labels[h as int]));
                match find_body(&bodies, keys[h].name.as_slice()) {
                    Some(_) => {
                        assert(body_scan(labels, lv.take(i + 1)).bodies == bodies_view(bodies@));
                    },
                    None => {
                        bodies.push(SectionBody { label: keys[h].name.clone(), body: Vec::new() });
                        assert(bodies_view(bodies@) =~= prev.bodies.push(
                            (labels[h as int].label, Seq::empty()),
                        ));
                        assert(body_scan(labels, lv.take(i + 1)).bodies == bodies_view(bodies@));
                    },
                }
            },
            None => {
                let mut l2: Vec<char> = Vec::new();
                push_level2(&mut l2);
                assert(l2@ =~= level2());
                if starts_with_chars(t.as_slice(), l2.as_slice()) {
                    current = None;
                    assert(body_scan(labels, lv.take(i + 1)).bodies == bodies_view(bodies@));
                } else {
                    match current {
                        None => {
                            assert(body_scan(labels, lv.take(i + 1)).bodies == bodies_view(bodies@));
                        },
                        Some(c) => {
                            assert(key_of(keys@[c as int], labels[c as int]));
                            match find_body(&bodies, keys[c].name.as_slice()) {
                                None => {
                                    assert(body_scan(labels, lv.take(i + 1)).bodies == bodies_view(bodies@));
                                },
                                Some(j) => {
                                    let ghost old_b = bodies@;
                                    let mut b = bodies.remove(j);
                                    push_all(&mut b.body, raw.as_slice());
                                    b.body.push('\n');
                                    assert(b.body@ == prev.bodies[j as int].1 + raw@ + newline());
                                    let ghost nb = b;
                                    bodies.insert(j, b);
                                    assert(bodies@ =~= old_b.update(j as int, nb));
                                    assert(bodies_view(bodies@) =~= prev.bodies.update(
                                        j as int,
                                        (labels[c as int].label, prev.bodies[j as int].1 + raw@ + newline()),
                                    ));
                                    assert(body_scan(labels, lv.take(i + 1)).bodies == bodies_view(bodies@));
                                },
                            }
                        },
                    }
                }
            },
        }
    }
    proof {
        assert(lv.take(lns.len() as int) =~= lv);
    }
    let ghost fin = bodies_view(bodies@);
    let mut k: usize = 0;
    while k < bodies.len()
        invariant
            k <= bodies.len() == fin.len(),
            forall|j: int| 0 <= j < k ==> #[trigger] bodies_view(bodies@)[j] == (fin[j].0, crate::text::strip_last(fin[j].1, '\n')),
            forall|j: int| k <= j < bodies.len() ==> #[trigger] bodies_view(bodies@)[j] == fin[j],
        decreases bodies.len() - k,
    {
        let ghost old_b = bodies@;
        assert(bodies_view(old_b)[k as int] == fin[k as int]);
        let mut b = bodies.remove(k);
        if b.body.len() > 0 && b.body[b.body.len() - 1] == '\n' {
            b.body.pop();
        }
        let ghost nb = b;
        bodies.insert(k, b);
        assert(bodies@ =~= old_b.update(k as int, nb));
        assert forall|j: int| 0 <= j < bodies.len() && j != k implies #[trigger] bodies_view(bodies@)[j]
            == bodies_view(old_b)[j] by {
            assert(bodies@[j] == old_b[j]);
        }
        assert(bodies_view(bodies@)[k as int] == (fin[k as int].0, crate::text::strip_last(fin[k as int].1, '\n')));
        k += 1;
    }
    assert(bodies_view(bodies@) =~= section_bodies_spec(labels, markdown@));
    bodies
}

// ---------------------------------------------------------------------------
// Updating a document
// ---------------------------------------------------------------------------

/// What the rendering of a checkbox section has gathered: the keys already
/// written, the keys already in the archive, and the active and archive text.
pub struct SectionAcc {
    pub seen: Seq<Seq<char>>,
    pub archived_keys: Seq<Seq<char>>,
    pub active: Seq<char>,
    pub archive: Seq<char>,
}

/// The empty accumulator.
pub open spec fn empty_acc() -> SectionAcc {
    SectionAcc {
        seen: Seq::empty(),
        archived_keys: Seq::empty(),
        active: Seq::empty(),
        archive: Seq::empty(),
    }
}

/// One current annotation of a checkbox section: skipped when its trimmed
/// content is empty or already written; otherwise written to the archive as
/// checked when the existing document has it checked, and as unchecked to the
/// active items when not.
pub open spec fn entry_step(
    states: Seq<(Seq<char>, Seq<char>, bool)>,
    label: Seq<char>,
    acc: SectionAcc,
    item: AnnotationView,
) -> SectionAcc {
    let key = trim(item.content);
    if key.len() == 0 || acc.seen.contains(key) {
        acc
    } else if state_of(states, label, key) {
        SectionAcc {
            seen: acc.seen.push(key),
            archived_keys: acc.archived_keys.push(key),
            archive: acc.archive + checkbox_line_spec(item, true),
            ..acc
        }
    } else {
        SectionAcc { seen: acc.seen.push(key), active: acc.active + checkbox_line_spec(item, false), ..acc }
    }
}

/// The current annotations of a checkbox section, in order.
pub open spec fn entries_fold(
    states: Seq<(Seq<char>, Seq<char>, bool)>,
    label: Seq<char>,
    items: Seq<AnnotationView>,
) -> SectionAcc
    decreases items.len(),
{
    if items.len() == 0 {
        empty_acc()
    } else {
        entry_step(states, label, entries_fold(states, label, items.drop_last()), items.last())
    }
}

/// One archived item of the existing document: kept, as its line, unless its
/// key has been written already.
pub open spec fn archived_step(acc: SectionAcc, it: (Seq<char>, Seq<char>)) -> SectionAcc {
    if acc.seen.contains(it.0) || acc.archived_keys.contains(it.0) {
        acc
    } else {
        SectionAcc {
            archived_keys: acc.archived_keys.push(it.0),
            archive: acc.archive + it.1 + newline(),
            ..acc
        }
    }
}

/// The archived items of the existing document, in order.
pub open spec fn archived_fold(acc: SectionAcc, items: Seq<(Seq<char>, Seq<char>)>) -> SectionAcc
    decreases items.len(),
{
    if items.len() == 0 {
        acc
    } else {
        archived_step(archived_fold(acc, items.drop_last()), items.last())
    }
}

/// The active and archive text of a checkbox section.
pub open spec fn checkbox_sections_spec(
    entries: Option<Seq<AnnotationView>>,
    label: Seq<char>,
    states: Seq<(Seq<char>, Seq<char>, bool)>,
    archived: Seq<(Seq<char>, Seq<char>, Seq<char>)>,
) -> (Seq<char>, Seq<char>) {
    let es = match entries {
        Some(e) => e,
        None => Seq::empty(),
    };
    let acc = archived_fold(entries_fold(states, label, es), archived_of(archived, label));
    (acc.active, acc.archive)
}

/// The recorded state of `key` under `label`.
pub(crate) fn state_lookup(states: &Vec<CheckState>, label: &[char], key: &[char]) -> (res: bool)
    ensures
        res == state_of(states_view(states@), label@, key@),
{
    let ghost sv = states_view(states@);
    let mut i = states.len();
    assert(sv.take(i as int) =~= sv);
    while i > 0
        invariant
            i <= states.len(),
            sv == states_view(states@),
            state_of(sv, label@, key@) == state_of(sv.take(i as int), label@, key@),
        decreases i,
    {
        assert(sv.take(i as int).drop_last() =~= sv.take(i - 1));
        let st = &states[i - 1];
        if chars_eq(st.label.as_slice(), label) && chars_eq(st.key.as_slice(), key) {
            return st.checked;
        }
        i -= 1;
    }
    false
}

/// Renders the active and archive text of a checkbox section from the current
/// annotations of the label and the states and archive of the existing
/// document.
///
/// Each current annotation is written once per trimmed content, in order:
/// checked to the archive when the existing document has it checked, else
/// unchecked to the active items. Then every checked or archived item of the
/// existing document whose key has not been written is appended to the
/// archive as it stood.
pub fn checkbox_sections_for_label(
    entries: Option<&Vec<Annotation>>,
    label_name: &[char],
    existing: &ExistingCheckboxData,
) -> (res: (Vec<char>, Vec<char>))
    ensures
        (res.0@, res.1@) == checkbox_sections_spec(
            match entries {
                Some(e) => Some(annotations_view(e@)),
                None => None::<Seq<AnnotationView>>,
            },
            label_name@,
            states_view(existing.states@),
            archived_view(existing.archived@),
        ),
{
    let ghost sv = states_view(existing.states@);
    let ghost arv = archived_view(existing.archived@);
    let mut seen: Vec<Vec<char>> = Vec::new();
    let mut archived_keys: Vec<Vec<char>> = Vec::new();
    let mut active: Vec<char> = Vec::new();
    let mut archive: Vec<char> = Vec::new();
    let ghost es: Seq<AnnotationView> = match entries {
        Some(e) => annotations_view(e@),
        None => Seq::empty(),
    };
    assert(chars_view(seen@) =~= Seq::<Seq<char>>::empty());
    assert(chars_view(archived_keys@) =~= Seq::<Seq<char>>::empty());
    assert(active@ =~= Seq::<char>::empty());
    assert(archive@ =~= Seq::<char>::empty());
    match entries {
        Some(items) => {
            assert(es.take(0) =~= Seq::<AnnotationView>::empty());
            for i in 0..items.len()
                invariant
                    es == annotations_view(items@),
                    sv == states_view(existing.states@),
                    entries_fold(sv, label_name@, es.take(i as int)).seen == chars_view(seen@),
                    entries_fold(sv, label_name@, es.take(i as int)).archived_keys
                        == chars_view(archived_keys@),
                    entries_fold(sv, label_name@, es.take(i as int)).active == active@,
                    entries_fold(sv, label_name@, es.take(i as int)).archive == archive@,
            {
                let item = &items[i];
                proof {
                    assert(es.take(i + 1).drop_last() =~= es.take(i as int));
                    assert(es.take(i + 1).last() == item@);
                }
                let c = to_chars(item.content.as_str());
                let key = trim_chars(c.as_slice());
                if key.len() == 0 || contains_chars(&seen, key.as_slice()) {
                } else {
                    let checked = state_lookup(&existing.states, label_name, key.as_slice());
                    let ghost k = key@;
                    seen.push(key.clone());
                    if checked {
                        archived_keys.push(key);
                        push_checkbox_line(&mut archive, item, true);
                    } else {
                        push_checkbox_line(&mut active, item, false);
                    }
                    assert(chars_view(seen@) =~= entries_fold(sv, label_name@, es.take(i as int)).seen.push(k));
                    if checked {
                        assert(chars_view(archived_keys@) =~= entries_fold(sv, label_name@, es.take(i as int)).archived_keys.push(k));
                    }
                }
            }
            assert(es.take(items.len() as int) =~= es);
        },
        None => {
            assert(es =~= Seq::<AnnotationView>::empty());
        },
    }
    let ghost acc0 = entries_fold(sv, label_name@, es);
    assert(arv.take(0) =~= Seq::<(Seq<char>, Seq<char>, Seq<char>)>::empty());
    assert(archived_of(arv.take(0), label_name@) =~= Seq::<(Seq<char>, Seq<char>)>::empty());
    for i in 0..existing.archived.len()
        invariant
            arv == archived_view(existing.archived@),
            archived_fold(acc0, archived_of(arv.take(i as int), label_name@)).seen == chars_view(
                seen@,
            ),
            archived_fold(acc0, archived_of(arv.take(i as int), label_name@)).archived_keys
                == chars_view(archived_keys@),
            archived_fold(acc0, archived_of(arv.take(i as int), label_name@)).active == active@,
            archived_fold(acc0, archived_of(arv.take(i as int), label_name@)).archive == archive@,
    {
        let it = &existing.archived[i];
        proof {
            assert(arv.take(i + 1).drop_last() =~= arv.take(i as int));
            assert(arv.take(i + 1).last() == (it.label@, it.key@, it.line@));
        }
        let ghost prevl = archived_of(arv.take(i as int), label_name@);
        let ghost pacc = archived_fold(acc0, prevl);
        if chars_eq(it.label.as_slice(), label_name) {
            proof {
                let nl = archived_of(arv.take(i + 1), label_name@);
                assert(nl == prevl.push((it.key@, it.line@)));
                assert(nl.drop_last() =~= prevl);
                assert(archived_fold(acc0, nl) == archived_step(pacc, (it.key@, it.line@)));
            }
            if contains_chars(&seen, it.key.as_slice()) || contains_chars(&archived_keys, it.key.as_slice()) {
            } else {
                archived_keys.push(it.key.clone());
                push_all(&mut archive, it.line.as_slice());
                archive.push('\n');
                assert(chars_view(archived_keys@) =~= pacc.archived_keys.push(it.key@));
            }
        } else {
            assert(archived_of(arv.take(i + 1), label_name@) == prevl);
        }
    }
    assert(arv.take(existing.archived.len() as int) =~= arv);
    (active, archive)
}

/// The section of one label in an updated document.
pub open spec fn updated_section_spec(
    label: LabelView,
    groups: Seq<(Seq<char>, Seq<AnnotationView>)>,
    data: CheckScan,
    bodies: Seq<(Seq<char>, Seq<char>)>,
) -> Seq<char> {
    let header = newline() + header_spec(label.mark, label.label) + newline();
    if !label.enabled {
        Seq::empty()
    } else if !label.update {
        header + match section_body(bodies, label.label) {
            Some(b) => if b.len() > 0 {
                b + if b.last() == '\n' { Seq::empty() } else { newline() }
            } else {
                Seq::empty()
            },
            None => Seq::empty(),
        }
    } else if label.checkbox {
        let (a, r) = checkbox_sections_spec(
            lookup_group(groups, label.label),
            label.label,
            data.states,
            data.archived,
        );
        if a.len() == 0 && r.len() == 0 {
            Seq::empty()
        } else {
            header + a + if r.len() > 0 {
                archive_header_spec(label.label) + newline() + r
            } else {
                Seq::empty()
            }
        }
    } else {
        match lookup_group(groups, label.label) {
            None => Seq::empty(),
            Some(es) => header + plain_lines_spec(es),
        }
    }
}

/// The sections of `labels` in an updated document, in order.
pub open spec fn updated_sections_spec(
    labels: Seq<LabelView>,
    groups: Seq<(Seq<char>, Seq<AnnotationView>)>,
    data: CheckScan,
    bodies: Seq<(Seq<char>, Seq<char>)>,
) -> Seq<char>
    decreases labels.len(),
{
    if labels.len() == 0 {
        Seq::empty()
    } else {
        updated_sections_spec(labels.drop_last(), groups, data, bodies) + updated_section_spec(
            labels.last(),
            groups,
            data,
            bodies,
        )
    }
}

/// An updated document: the title, then the sections of the enabled labels in
/// the order of the configuration. A label without `update` keeps its
/// existing text; a checkbox label keeps the checked state of its items,
/// moving checked ones to its archive and keeping the existing archive; other
/// labels list their current annotations. Files are shown relative to the
/// root.
pub open spec fn updated_markdown_spec(
    existing: Seq<char>,
    root: Seq<char>,
    labels: Seq<LabelView>,
    anns: Seq<AnnotationView>,
) -> Seq<char> {
    title_spec(root) + updated_sections_spec(
        labels,
        group_annotations(labels, relative_items(root, anns)),
        check_scan(labels, lines(existing)),
        section_bodies_spec(labels, existing),
    )
}

/// The body of the section of `name`, if the document has one.
fn find_section_body<'a>(bodies: &'a Vec<SectionBody>, name: &[char]) -> (res: Option<&'a Vec<char>>)
    ensures
        match res {
            Some(b) => section_body(bodies_view(bodies@), name@) == Some(b@),
            None => section_body(bodies_view(bodies@), name@) is None,
        },
{
    match find_body(bodies, name) {
        Some(i) => Some(&bodies[i].body),
        None => None,
    }
}

/// Appends the section of one label in an updated document.
fn push_updated_section(
    out: &mut Vec<char>,
    label: &crate::model::LabelDefinition,
    grouped: &Vec<LabelGroup>,
    data: &ExistingCheckboxData,
    sections: &Vec<SectionBody>,
    Ghost(dv): Ghost<CheckScan>,
)
    requires
        dv.states == states_view(data.states@),
        dv.archived == archived_view(data.archived@),
    ensures
        final(out)@ == old(out)@ + updated_section_spec(
            label@,
            groups_view(grouped@),
            dv,
            bodies_view(sections@),
        ),
{
    let ghost start = out@;
    if label.enabled {
        let name = to_chars(label.label.as_str());
        let header = header_chars(opt_as_str(&label.mark), name.as_slice());
        if !label.update {
            out.push('\n');
            push_all(out, header.as_slice());
            out.push('\n');
            match find_section_body(sections, name.as_slice()) {
                Some(b) => {
                    if b.len() > 0 {
                        push_all(out, b.as_slice());
                        if b[b.len() - 1] != '\n' {
                            out.push('\n');
                        }
                    }
                },
                None => {},
            }
        } else if label.checkbox {
            let entries = get_group(grouped, &label.label);
            let (active, archive) = checkbox_sections_for_label(entries, name.as_slice(), data);
            if active.len() == 0 && archive.len() == 0 {
            } else {
                out.push('\n');
                push_all(out, header.as_slice());
                out.push('\n');
                push_all(out, active.as_slice());
                if archive.len() > 0 {
                    let ah = archive_header_chars(name.as_slice());
                    push_all(out, ah.as_slice());
                    out.push('\n');
                    push_all(out, archive.as_slice());
                }
            }
        } else {
            match get_group(grouped, &label.label) {
                None => {},
                Some(entries) => {
                    out.push('\n');
                    push_all(out, header.as_slice());
                    out.push('\n');
                    push_plain_lines(out, entries.as_slice());
                },
            }
        }
    }
    assert(out@ =~= start + updated_section_spec(
        label@,
        groups_view(grouped@),
        dv,
        bodies_view(sections@),
    ));
}

/// Builds the updated document from an existing one and the current
/// annotations.
pub fn build_updated_markdown(
    existing: &str,
    root: &str,
    config: &Config,
    annotations: &[Annotation],
) -> (res: String)
    ensures
        res@ == updated_markdown_spec(existing@, root@, config@.labels, annotations_view(annotations@)),
{
    let data = collect_existing_checkbox_data(existing, config);
    let sections = collect_existing_section_bodies(existing, config);
    let ghost dv = check_scan(config@.labels, lines(existing@));
    let ghost bv = bodies_view(sections@);
    let mut out: Vec<char> = Vec::new();
    push_title(&mut out, root);
    let relative = relative_annotations(root, annotations);
    let grouped = hashmap_annotations(config, relative.as_slice());
    let ghost gv = groups_view(grouped@);
    let ghost lv = config@.labels;
    let ghost t = out@;
    for i in 0..config.labels.len()
        invariant
            gv == groups_view(grouped@),
            lv == config@.labels,
            bv == bodies_view(sections@),
            bv == section_bodies_spec(lv, existing@),
            dv.states == states_view(data.states@),
            dv.archived == archived_view(data.archived@),
            dv == check_scan(lv, lines(existing@)),
            out@ == t + updated_sections_spec(lv.take(i as int), gv, dv, bv),
    {
        let label = &config.labels[i];
        proof {
            assert(lv.take(i + 1).drop_last() =~= lv.take(i as int));
            assert(lv.take(i + 1).last() == label@);
        }
        push_updated_section(&mut out, label, &grouped, &data, &sections, Ghost(dv));
        assert(out@ =~= t + updated_sections_spec(lv.take(i + 1), gv, dv, bv));
    }
    proof {
        assert(lv.take(config.labels.len() as int) =~= lv);
    }
    chars_to_string(out.as_slice())
}

// ---------------------------------------------------------------------------
// Laws
// ---------------------------------------------------------------------------

/// Whether every `" ("` in `s` is closed by a `')'` later in `s`.
pub open spec fn parens_closed(s: Seq<char>) -> bool {
    forall|i: int|
        #![trigger s[i], s[i + 1]]
        0 <= i && i + 1 < s.len() && s[i] == ' ' && s[i + 1] == '(' ==> exists|j: int|
            i + 1 < j < s.len() && #[trigger] s[j] == ')'
}

/// `first_location` finds `k` when no earlier `" ("` from `from` on starts a
/// location.
proof fn lemma_first_location_at(r: Seq<char>, from: int, k: int)
    requires
        0 <= from <= k,
        k + 1 < r.len(),
        r[k] == ' ',
        r[k + 1] == '(',
        is_location(r.skip(k)),
        forall|m: int|
            from <= m < k ==> !(r[m] == ' ' && r[m + 1] == '(' && is_location(#[trigger] r.skip(m))),
    ensures
        first_location(r, from) == Some(k),
    decreases k - from,
{
    if from < k {
        assert(!(r[from] == ' ' && r[from + 1] == '(' && is_location(r.skip(from))));
        lemma_first_location_at(r, from + 1, k);
    }
}

/// The last `':'` of `x + ":" + d` is the one before `d` when `d` has none.
proof fn lemma_last_colon(x: Seq<char>, d: Seq<char>)
    requires
        !d.contains(':'),
    ensures
        last_char(x + seq![':'] + d, ':') == Some(x.len() as int),
    decreases d.len(),
{
    let s = x + seq![':'] + d;
    if d.len() == 0 {
        assert(s.last() == ':');
    } else {
        assert(s.last() == d.last());
        assert(d.last() == d[d.len() - 1]);
        assert(s.drop_last() =~= x + seq![':'] + d.drop_last());
        if d.drop_last().contains(':') {
            let m = choose|m: int| 0 <= m < d.drop_last().len() && d.drop_last()[m] == ':';
            assert(d[m] == ':');
        }
        lemma_last_colon(x, d.drop_last());
    }
}

/// A location ` ({file}:{line})` is one when no `')'` of the file comes
/// before a `" ("` of it.
proof fn lemma_location_shape(a: AnnotationView)
    requires
        !closes_then_opens(a.file),
    ensures
        is_location(location_spec(a)),
{
    let loc = location_spec(a);
    let dec = decimal(a.line as nat);
    crate::text::lemma_decimal_digits(a.line as nat);
    let fl = a.file.len() as int;
    assert(loc =~= seq![' ', '('] + a.file + seq![':'] + dec + seq![')']);
    let inner = loc.subrange(2, loc.len() - 1);
    assert(inner =~= a.file + seq![':'] + dec);
    if dec.contains(':') {
        let m = choose|m: int| 0 <= m < dec.len() && dec[m] == ':';
        assert(crate::text::is_digit(dec[m]));
    }
    lemma_last_colon(a.file, dec);
    assert(inner.skip(fl + 1) =~= dec);
    assert(inner.take(fl) =~= a.file);
}

/// A `" ("` of the content that a `')'` closes does not start a location.
proof fn lemma_no_location_inside(a: AnnotationView, m: int)
    requires
        parens_closed(a.content),
        0 <= m,
        m + 1 < a.content.len(),
        a.content[m] == ' ',
        a.content[m + 1] == '(',
    ensures
        !is_location((a.content + location_spec(a)).skip(m)),
{
    let k = a.content.len() as int;
    let dec = decimal(a.line as nat);
    crate::text::lemma_decimal_digits(a.line as nat);
    if dec.contains(':') {
        let q = choose|q: int| 0 <= q < dec.len() && dec[q] == ':';
        assert(crate::text::is_digit(dec[q]));
    }
    let j = choose|j: int| m + 1 < j < a.content.len() && #[trigger] a.content[j] == ')';
    let t = (a.content + location_spec(a)).skip(m);
    let x = a.content.subrange(m + 2, k) + seq![' ', '('] + a.file;
    assert(t =~= seq![' ', '('] + x + seq![':'] + dec + seq![')']);
    let inner = t.subrange(2, t.len() - 1);
    assert(inner =~= x + seq![':'] + dec);
    lemma_last_colon(x, dec);
    assert(inner.take(x.len() as int) =~= x);
    let j2 = j - (m + 2);
    let k2 = k - (m + 2);
    assert(x[j2] == ')');
    assert(x[k2] == ' ' && x[k2 + 1] == '(');
    assert(closes_then_opens(x));
}

/// A checkbox line as the document holds it reads back with the key and the
/// check it was written with: the key is the trimmed content (none when that
/// is empty). A written line of content `c (x` in file `y` reads the same as
/// one of content `c` in file `x (y`; it is read as the latter, so the law
/// holds when every `" ("` of the content is closed by a `')'` after it, and
/// no `')'` of the file comes before a `" ("` of it.
pub proof fn lemma_written_line_reads_back(a: AnnotationView, check: bool)
    requires
        parens_closed(a.content),
        !closes_then_opens(a.file),
    ensures
        content_key_spec(trim_end(checkbox_line_spec(a, check).drop_last())) == (if trim(a.content).len() > 0 {
            Some(trim(a.content))
        } else {
            None::<Seq<char>>
        }),
        is_checked_spec(trim_end(checkbox_line_spec(a, check).drop_last())) == check,
{
    let c = if check { 'x' } else { ' ' };
    let loc = location_spec(a);
    let w = box_prefix(c) + a.content + loc;
    assert(checkbox_line_spec(a, check).drop_last() =~= w);
    assert(w.last() == ')');
    assert(w[0] == '-');
    lemma_trim_end_at(w, w.len() as int);
    assert(w.take(w.len() as int) =~= w);
    lemma_trim_start_at(w, 0);
    assert(w.skip(0) =~= w);
    assert(trim(w) == w);
    assert(w.take(6) =~= box_prefix(c));
    if check {
        assert(w.take(6)[3] != box_prefix(' ')[3]);
        assert(!starts_with(w, box_prefix(' ')));
    } else {
        assert(w.take(6)[3] != box_prefix('x')[3]);
        assert(w.take(6)[3] != box_prefix('X')[3]);
    }
    let rest = w.skip(6);
    assert(rest =~= a.content + loc);
    let k = a.content.len() as int;
    lemma_location_shape(a);
    assert(rest[k] == ' ' && rest[k + 1] == '(');
    assert(rest.skip(k) =~= loc);
    let dec = decimal(a.line as nat);
    crate::text::lemma_decimal_digits(a.line as nat);
    if dec.contains(':') {
        let m = choose|m: int| 0 <= m < dec.len() && dec[m] == ':';
        assert(crate::text::is_digit(dec[m]));
    }
    assert forall|m: int|
        0 <= m < k implies !(rest[m] == ' ' && rest[m + 1] == '(' && is_location(
        #[trigger] rest.skip(m),
    )) by {
        if rest[m] == ' ' && rest[m + 1] == '(' {
            if m + 1 == k {
                assert(rest[k] == ' ');
            } else {
                assert(a.content[m] == ' ' && a.content[m + 1] == '(');
                lemma_no_location_inside(a, m);
            }
        }
    }
    lemma_first_location_at(rest, 0, k);
    assert(without_location(rest) == rest.take(k));
    assert(rest.take(k) =~= a.content);
}

/// No text occurs twice in `s`.
pub open spec fn no_dups(s: Seq<Seq<char>>) -> bool {
    forall|i: int, j: int| 0 <= i < j < s.len() ==> #[trigger] s[i] != #[trigger] s[j]
}

/// Whether `piece` occurs in `t`.
pub open spec fn contains_text(t: Seq<char>, piece: Seq<char>) -> bool {
    exists|i: int| 0 <= i && i + piece.len() <= t.len() && #[trigger] t.subrange(i, i + piece.len()) == piece
}

proof fn lemma_contains_text_grows(t: Seq<char>, u: Seq<char>, piece: Seq<char>)
    requires
        contains_text(t, piece),
    ensures
        contains_text(t + u, piece),
{
    let i = choose|i: int| 0 <= i && i + piece.len() <= t.len() && #[trigger] t.subrange(i, i + piece.len()) == piece;
    assert((t + u).subrange(i, i + piece.len()) =~= t.subrange(i, i + piece.len()));
}

proof fn lemma_contains_text_end(t: Seq<char>, piece: Seq<char>)
    ensures
        contains_text(t + piece, piece),
{
    let i = t.len() as int;
    assert((t + piece).subrange(i, i + piece.len()) =~= piece);
}

proof fn lemma_contains_push(s: Seq<Seq<char>>, x: Seq<char>, k: Seq<char>)
    ensures
        s.push(x).contains(k) <==> (s.contains(k) || k == x),
{
    if s.contains(k) {
        let j = choose|j: int| 0 <= j < s.len() && s[j] == k;
        assert(s.push(x)[j] == k);
    }
    if k == x {
        assert(s.push(x)[s.len() as int] == x);
    }
    if s.push(x).contains(k) {
        let j = choose|j: int| 0 <= j < s.push(x).len() && s.push(x)[j] == k;
        if j < s.len() {
            assert(s[j] == k);
        }
    }
}

proof fn lemma_no_dups_push(s: Seq<Seq<char>>, k: Seq<char>)
    requires
        no_dups(s),
        !s.contains(k),
    ensures
        no_dups(s.push(k)),
{
    assert forall|i: int, j: int| 0 <= i < j < s.push(k).len() implies #[trigger] s.push(k)[i]
        != #[trigger] s.push(k)[j] by {
        if j == s.len() {
            assert(s.push(k)[i] == s[i]);
            assert(s.contains(s[i]));
        } else {
            assert(s.push(k)[i] == s[i]);
            assert(s.push(k)[j] == s[j]);
        }
    }
}

/// What holds after rendering the current annotations of a checkbox section.
pub open spec fn entries_done(
    states: Seq<(Seq<char>, Seq<char>, bool)>,
    label: Seq<char>,
    es: Seq<AnnotationView>,
    acc: SectionAcc,
) -> bool {
    &&& no_dups(acc.seen)
    &&& no_dups(acc.archived_keys)
    &&& forall|k: Seq<char>| #[trigger] acc.archived_keys.contains(k) ==> acc.seen.contains(k) && state_of(states, label, k)
    &&& forall|k: Seq<char>| #[trigger] acc.seen.contains(k) && state_of(states, label, k) ==> acc.archived_keys.contains(k)
    &&& forall|i: int| 0 <= i < es.len() && trim(#[trigger] es[i].content).len() > 0 ==> acc.seen.contains(trim(es[i].content))
    &&& forall|k: Seq<char>| #[trigger] acc.seen.contains(k) ==> exists|i: int|
        0 <= i < es.len() && trim(#[trigger] es[i].content) == k && (if state_of(states, label, k) {
            contains_text(acc.archive, checkbox_line_spec(es[i], true))
        } else {
            contains_text(acc.active, checkbox_line_spec(es[i], false))
        })
}

proof fn lemma_entries_fold(
    states: Seq<(Seq<char>, Seq<char>, bool)>,
    label: Seq<char>,
    es: Seq<AnnotationView>,
)
    ensures
        entries_done(states, label, es, entries_fold(states, label, es)),
    decreases es.len(),
{
    if es.len() == 0 {
        let acc = entries_fold(states, label, es);
        assert(acc.seen =~= Seq::<Seq<char>>::empty());
        assert(acc.archived_keys =~= Seq::<Seq<char>>::empty());
    } else {
        let pes = es.drop_last();
        lemma_entries_fold(states, label, pes);
        let prev = entries_fold(states, label, pes);
        let item = es.last();
        let acc = entries_fold(states, label, es);
        let key = trim(item.content);
        assert forall|i: int| 0 <= i < pes.len() implies #[trigger] pes[i] == es[i] by {}
        if key.len() == 0 || prev.seen.contains(key) {
            assert(acc == prev);
            assert forall|k: Seq<char>| #[trigger] acc.seen.contains(k) implies exists|i: int|
                0 <= i < es.len() && trim(#[trigger] es[i].content) == k && (if state_of(states, label, k) {
                    contains_text(acc.archive, checkbox_line_spec(es[i], true))
                } else {
                    contains_text(acc.active, checkbox_line_spec(es[i], false))
                }) by {
                let i = choose|i: int|
                    0 <= i < pes.len() && trim(#[trigger] pes[i].content) == k && (if state_of(states, label, k) {
                        contains_text(prev.archive, checkbox_line_spec(pes[i], true))
                    } else {
                        contains_text(prev.active, checkbox_line_spec(pes[i], false))
                    });
                assert(es[i] == pes[i]);
            }
            assert forall|i: int| 0 <= i < es.len() && trim(#[trigger] es[i].content).len() > 0 implies acc.seen.contains(trim(es[i].content)) by {
                if i < pes.len() {
                    assert(es[i] == pes[i]);
                }
            }
        } else {
            let checked = state_of(states, label, key);
            lemma_no_dups_push(prev.seen, key);
            assert(acc.seen == prev.seen.push(key));
            if checked {
                assert(!prev.archived_keys.contains(key));
                lemma_no_dups_push(prev.archived_keys, key);
                assert(acc.archived_keys == prev.archived_keys.push(key));
                assert(acc.archive == prev.archive + checkbox_line_spec(item, true));
                assert(acc.active == prev.active);
                lemma_contains_text_end(prev.archive, checkbox_line_spec(item, true));
            } else {
                assert(acc.archived_keys == prev.archived_keys);
                assert(acc.active == prev.active + checkbox_line_spec(item, false));
                assert(acc.archive == prev.archive);
                lemma_contains_text_end(prev.active, checkbox_line_spec(item, false));
            }
            assert forall|k: Seq<char>| #[trigger] acc.archived_keys.contains(k) implies acc.seen.contains(k)
                && state_of(states, label, k) by {
                lemma_contains_push(prev.seen, key, k);
                lemma_contains_push(prev.archived_keys, key, k);
            }
            assert forall|k: Seq<char>| #[trigger] acc.seen.contains(k) && state_of(states, label, k) implies acc.archived_keys.contains(k) by {
                lemma_contains_push(prev.seen, key, k);
                lemma_contains_push(prev.archived_keys, key, k);
            }
            assert forall|i: int| 0 <= i < es.len() && trim(#[trigger] es[i].content).len() > 0 implies acc.seen.contains(trim(es[i].content)) by {
                lemma_contains_push(prev.seen, key, trim(es[i].content));
                if i < pes.len() {
                    assert(es[i] == pes[i]);
                    assert(prev.seen.contains(trim(pes[i].content)));
                }
            }
            assert forall|k: Seq<char>| #[trigger] acc.seen.contains(k) implies exists|i: int|
                0 <= i < es.len() && trim(#[trigger] es[i].content) == k && (if state_of(states, label, k) {
                    contains_text(acc.archive, checkbox_line_spec(es[i], true))
                } else {
                    contains_text(acc.active, checkbox_line_spec(es[i], false))
                }) by {
                if k == key {
                    let i = es.len() - 1;
                    assert(es[i] == item);
                } else {
                    lemma_contains_push(prev.seen, key, k);
                    assert(prev.seen.contains(k));
                    let i = choose|i: int|
                        0 <= i < pes.len() && trim(#[trigger] pes[i].content) == k && (if state_of(states, label, k) {
                            contains_text(prev.archive, checkbox_line_spec(pes[i], true))
                        } else {
                            contains_text(prev.active, checkbox_line_spec(pes[i], false))
                        });
                    assert(es[i] == pes[i]);
                    if checked {
                        if state_of(states, label, k) {
                            lemma_contains_text_grows(prev.archive, checkbox_line_spec(item, true), checkbox_line_spec(pes[i], true));
                        }
                    } else {
                        if !state_of(states, label, k) {
                            lemma_contains_text_grows(prev.active, checkbox_line_spec(item, false), checkbox_line_spec(pes[i], false));
                        }
                    }
                }
            }
        }
    }
}

/// What holds after appending the items of the existing archive.
pub open spec fn archived_done(acc0: SectionAcc, items: Seq<(Seq<char>, Seq<char>)>, acc: SectionAcc) -> bool {
    &&& acc.seen == acc0.seen
    &&& acc.active == acc0.active
    &&& acc0.archive.len() <= acc.archive.len()
    &&& acc.archive.take(acc0.archive.len() as int) == acc0.archive
    &&& no_dups(acc0.archived_keys) ==> no_dups(acc.archived_keys)
    &&& forall|k: Seq<char>| #[trigger] acc0.archived_keys.contains(k) ==> acc.archived_keys.contains(k)
    &&& forall|k: Seq<char>|
        #[trigger] acc.archived_keys.contains(k) && !acc0.archived_keys.contains(k) ==> !acc.seen.contains(k)
            && exists|t: int| 0 <= t < items.len() && #[trigger] items[t].0 == k && contains_text(acc.archive, items[t].1 + newline())
    &&& forall|t: int| 0 <= t < items.len() ==> acc.seen.contains(#[trigger] items[t].0) || acc.archived_keys.contains(items[t].0)
}

proof fn lemma_contains_text_prefix(t: Seq<char>, u: Seq<char>, piece: Seq<char>)
    requires
        t.len() <= u.len(),
        u.take(t.len() as int) == t,
        contains_text(t, piece),
    ensures
        contains_text(u, piece),
{
    let i = choose|i: int| 0 <= i && i + piece.len() <= t.len() && #[trigger] t.subrange(i, i + piece.len()) == piece;
    assert(u.subrange(i, i + piece.len()) =~= t.subrange(i, i + piece.len()));
}

proof fn lemma_archived_fold(acc0: SectionAcc, items: Seq<(Seq<char>, Seq<char>)>)
    ensures
        archived_done(acc0, items, archived_fold(acc0, items)),
    decreases items.len(),
{
    let acc = archived_fold(acc0, items);
    if items.len() == 0 {
        assert(acc.archive.take(acc0.archive.len() as int) =~= acc0.archive);
    } else {
        let pit = items.drop_last();
        lemma_archived_fold(acc0, pit);
        let prev = archived_fold(acc0, pit);
        let it = items.last();
        assert forall|t: int| 0 <= t < pit.len() implies #[trigger] pit[t] == items[t] by {}
        if prev.seen.contains(it.0) || prev.archived_keys.contains(it.0) {
            assert(acc == prev);
            assert forall|k: Seq<char>|
                #[trigger] acc.archived_keys.contains(k) && !acc0.archived_keys.contains(k) implies !acc.seen.contains(k)
                    && exists|t: int| 0 <= t < items.len() && #[trigger] items[t].0 == k && contains_text(acc.archive, items[t].1 + newline()) by {
                let t = choose|t: int| 0 <= t < pit.len() && #[trigger] pit[t].0 == k && contains_text(prev.archive, pit[t].1 + newline());
                assert(items[t] == pit[t]);
            }
            assert forall|t: int| 0 <= t < items.len() implies acc.seen.contains(#[trigger] items[t].0) || acc.archived_keys.contains(items[t].0) by {
                if t < pit.len() {
                    assert(items[t] == pit[t]);
                }
            }
        } else {
            let piece = it.1 + newline();
            assert(acc.archived_keys == prev.archived_keys.push(it.0));
            assert(acc.archive == prev.archive + piece);
            lemma_contains_text_end(prev.archive, piece);
            assert(acc.archive.take(acc0.archive.len() as int) =~= prev.archive.take(acc0.archive.len() as int));
            if no_dups(acc0.archived_keys) {
                lemma_no_dups_push(prev.archived_keys, it.0);
            }
            assert forall|k: Seq<char>| #[trigger] acc0.archived_keys.contains(k) implies acc.archived_keys.contains(k) by {
                lemma_contains_push(prev.archived_keys, it.0, k);
            }
            assert forall|k: Seq<char>|
                #[trigger] acc.archived_keys.contains(k) && !acc0.archived_keys.contains(k) implies !acc.seen.contains(k)
                    && exists|t: int| 0 <= t < items.len() && #[trigger] items[t].0 == k && contains_text(acc.archive, items[t].1 + newline()) by {
                lemma_contains_push(prev.archived_keys, it.0, k);
                if k == it.0 {
                    assert(items[items.len() - 1].0 == k);
                } else {
                    let t = choose|t: int| 0 <= t < pit.len() && #[trigger] pit[t].0 == k && contains_text(prev.archive, pit[t].1 + newline());
                    assert(items[t] == pit[t]);
                    lemma_contains_text_grows(prev.archive, piece, pit[t].1 + newline());
                }
            }
            assert forall|t: int| 0 <= t < items.len() implies acc.seen.contains(#[trigger] items[t].0) || acc.archived_keys.contains(items[t].0) by {
                lemma_contains_push(prev.archived_keys, it.0, items[t].0);
                if t < pit.len() {
                    assert(items[t] == pit[t]);
                }
            }
        }
    }
}

/// The state of checkbox items survives an update, and archived items are
/// never dropped:
/// - every current item with a non-empty text is written, once per key: to
///   the archive as checked when the existing document had its key checked,
///   otherwise as unchecked among the active items;
/// - every checked or archived item of the existing document stays: its key
///   is that of a current item, or its line (or that of an earlier archived
///   item with the same key) is in the archive;
/// - no key is written twice among the current items, nor twice in the archive.
pub proof fn lemma_checkbox_sections_keep_state(
    entries: Seq<AnnotationView>,
    label: Seq<char>,
    states: Seq<(Seq<char>, Seq<char>, bool)>,
    archived: Seq<(Seq<char>, Seq<char>, Seq<char>)>,
)
    ensures
        forall|i: int|
            0 <= i < entries.len() && trim(#[trigger] entries[i].content).len() > 0 ==> exists|j: int|
                0 <= j < entries.len() && trim(#[trigger] entries[j].content) == trim(entries[i].content) && (
                if state_of(states, label, trim(entries[i].content)) {
                    contains_text(
                        checkbox_sections_spec(Some(entries), label, states, archived).1,
                        checkbox_line_spec(entries[j], true),
                    )
                } else {
                    contains_text(
                        checkbox_sections_spec(Some(entries), label, states, archived).0,
                        checkbox_line_spec(entries[j], false),
                    )
                }),
        forall|t: int|
            0 <= t < archived_of(archived, label).len() ==> (exists|i: int|
                0 <= i < entries.len() && trim(#[trigger] entries[i].content) == (#[trigger] archived_of(archived, label)[t]).0) || (exists|u: int|
                0 <= u < archived_of(archived, label).len() && (#[trigger] archived_of(archived, label)[u]).0 == archived_of(archived, label)[t].0
                    && contains_text(
                    checkbox_sections_spec(Some(entries), label, states, archived).1,
                    archived_of(archived, label)[u].1 + newline(),
                )),
        no_dups(entries_fold(states, label, entries).seen),
        no_dups(archived_fold(entries_fold(states, label, entries), archived_of(archived, label)).archived_keys),
{
    let acc0 = entries_fold(states, label, entries);
    let items = archived_of(archived, label);
    let acc = archived_fold(acc0, items);
    lemma_entries_fold(states, label, entries);
    lemma_archived_fold(acc0, items);
    assert(checkbox_sections_spec(Some(entries), label, states, archived) == (acc.active, acc.archive));
    assert forall|i: int|
        0 <= i < entries.len() && trim(#[trigger] entries[i].content).len() > 0 implies exists|j: int|
            0 <= j < entries.len() && trim(#[trigger] entries[j].content) == trim(entries[i].content) && (
            if state_of(states, label, trim(entries[i].content)) {
                contains_text(acc.archive, checkbox_line_spec(entries[j], true))
            } else {
                contains_text(acc.active, checkbox_line_spec(entries[j], false))
            }) by {
        let k = trim(entries[i].content);
        assert(acc0.seen.contains(k));
        let j = choose|j: int|
            0 <= j < entries.len() && trim(#[trigger] entries[j].content) == k && (if state_of(states, label, k) {
                contains_text(acc0.archive, checkbox_line_spec(entries[j], true))
            } else {
                contains_text(acc0.active, checkbox_line_spec(entries[j], false))
            });
        if state_of(states, label, k) {
            lemma_contains_text_prefix(acc0.archive, acc.archive, checkbox_line_spec(entries[j], true));
        }
    }
    assert forall|t: int|
        0 <= t < items.len() implies (exists|i: int|
            0 <= i < entries.len() && trim(#[trigger] entries[i].content) == (#[trigger] items[t]).0) || (exists|u: int|
            0 <= u < items.len() && (#[trigger] items[u]).0 == items[t].0 && contains_text(acc.archive, items[u].1 + newline())) by {
        let k = items[t].0;
        if acc.seen.contains(k) {
            assert(acc0.seen.contains(k));
        } else {
            assert(acc.archived_keys.contains(k));
            if acc0.archived_keys.contains(k) {
                assert(acc0.seen.contains(k));
            }
        }
    }
}

} // verus!
