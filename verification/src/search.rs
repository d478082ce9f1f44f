//! Finding annotations: the search pattern and arguments handed to ripgrep,
//! and the reading of its output into annotations.

use vstd::prelude::*;

use crate::model::{
    enabled_labels, labels_view, lemma_enabled_labels_last, strings_view, Annotation,
    AnnotationView, Config, LabelDefinition, LabelView,
};
use crate::text::{
    chars_to_string, chars_view, find_char, find_char_index, lemma_chars_view_push, lines,
    is_ws, lemma_trim_end_at, lemma_trim_start_at, parse_u64, parse_u64_chars, push_all,
    split_lines, starts_with, strip_prefix, strip_prefix_chars, to_chars, trim, trim_chars,
};

verus! {

// ---------------------------------------------------------------------------
// The search pattern
// ---------------------------------------------------------------------------

/// The words joined with `sep` between them.
pub open spec fn join(words: Seq<Seq<char>>, sep: Seq<char>) -> Seq<char>
    decreases words.len(),
{
    if words.len() == 0 {
        Seq::empty()
    } else if words.len() == 1 {
        words[0]
    } else {
        join(words.drop_last(), sep) + sep + words.last()
    }
}

/// The words that stand for the enabled labels: the aliases of each enabled
/// label, in order.
pub open spec fn enabled_terms(labels: Seq<LabelView>) -> Seq<Seq<char>>
    decreases labels.len(),
{
    if labels.len() == 0 {
        Seq::empty()
    } else {
        let rest = enabled_terms(labels.drop_last());
        if labels.last().enabled {
            rest + labels.last().alias
        } else {
            rest
        }
    }
}

/// `)\s*(`
pub open spec fn pattern_middle() -> Seq<char> {
    seq![')', '\\', 's', '*', '(']
}

/// `)\s*:\s*(.+)`
pub open spec fn pattern_tail() -> Seq<char> {
    seq![')', '\\', 's', '*', ':', '\\', 's', '*', '(', '.', '+', ')']
}

/// The search pattern `({comments})\s*({terms})\s*:\s*(.+)`, where the
/// comment markers and the words of the enabled labels are joined with `|`
/// as they are written.
pub open spec fn pattern_spec(comments: Seq<Seq<char>>, labels: Seq<LabelView>) -> Seq<char> {
    seq!['('] + join(comments, seq!['|']) + pattern_middle() + join(enabled_terms(labels), seq!['|'])
        + pattern_tail()
}

/// Whether the `regex` crate accepts `pattern` as a regular expression.
pub uninterp spec fn spec_regex_accepts(pattern: Seq<char>) -> bool;

/// Calls `regex::Regex::new` on `pattern` and tells whether it succeeded.
/// The contract names the outcome: the syntax and size limits that decide it
/// are `regex`'s.
#[verifier::external_body]
fn regex_accepts(pattern: &str) -> (res: bool)
    ensures
        res == spec_regex_accepts(pattern@),
{
    regex::Regex::new(pattern).is_ok()
}

/// A search pattern that the `regex` crate refused.
#[derive(Debug)]
pub struct PatternError {
    pub pattern: String,
}

/// Appends the words joined with `|`.
fn push_joined(out: &mut Vec<char>, words: &Vec<Vec<char>>)
    ensures
        final(out)@ == old(out)@ + join(chars_view(words@), seq!['|']),
{
    let ghost start = out@;
    let ghost wv = chars_view(words@);
    for i in 0..words.len()
        invariant
            wv == chars_view(words@),
            out@ == start + join(wv.take(i as int), seq!['|']),
    {
        proof {
            assert(wv.take(i + 1).drop_last() =~= wv.take(i as int));
            assert(wv.take(i + 1).last() == words@[i as int]@);
        }
        if i > 0 {
            out.push('|');
        } else {
            assert(wv.take(i as int) =~= Seq::<Seq<char>>::empty());
            assert(wv.take(i + 1) =~= seq![words@[i as int]@]);
        }
        push_all(out, words[i].as_slice());
        assert(out@ =~= start + join(wv.take(i + 1), seq!['|']));
    }
    assert(wv.take(words.len() as int) =~= wv);
}

/// The strings as char vectors.
fn strings_to_chars(v: &Vec<String>) -> (res: Vec<Vec<char>>)
    ensures
        chars_view(res@) == strings_view(v@),
{
    let mut res: Vec<Vec<char>> = Vec::new();
    for i in 0..v.len()
        invariant
            chars_view(res@) == strings_view(v@.take(i as int)),
    {
        let ghost prev = res@;
        let c = to_chars(v[i].as_str());
        res.push(c);
        proof {
            lemma_chars_view_push(prev, c);
            assert(strings_view(v@.take(i + 1)) =~= strings_view(v@.take(i as int)).push(v@[i as int]@));
        }
    }
    assert(v@.take(v.len() as int) =~= v@);
    res
}

/// The words of the enabled labels, as char vectors.
fn enabled_term_chars(labels: &Vec<LabelDefinition>) -> (res: Vec<Vec<char>>)
    ensures
        chars_view(res@) == enabled_terms(labels_view(labels@)),
{
    let ghost lv = labels_view(labels@);
    let mut res: Vec<Vec<char>> = Vec::new();
    assert(lv.take(0) =~= Seq::<LabelView>::empty());
    assert(chars_view(res@) =~= Seq::<Seq<char>>::empty());
    for i in 0..labels.len()
        invariant
            lv == labels_view(labels@),
            chars_view(res@) == enabled_terms(lv.take(i as int)),
    {
        proof {
            assert(lv.take(i + 1).drop_last() =~= lv.take(i as int));
            assert(lv.take(i + 1).last() == labels@[i as int]@);
        }
        if labels[i].enabled {
            let a = strings_to_chars(&labels[i].alias);
            let ghost prev = res@;
            for k in 0..a.len()
                invariant
                    chars_view(res@) == chars_view(prev)
                        + chars_view(a@).take(k as int),
            {
                let ghost before = res@;
                let x = a[k].clone();
                res.push(x);
                proof {
                    lemma_chars_view_push(before, x);
                    assert(x@ == chars_view(a@)[k as int]);
                    assert(chars_view(res@) =~= chars_view(prev) + chars_view(a@).take(k + 1));
                }
            }
            assert(chars_view(a@).take(a.len() as int) =~= a@.map_values(
                |w: Vec<char>| w@,
            ));
        }
    }
    assert(lv.take(labels.len() as int) =~= lv);
    res
}

/// The pattern's characters.
fn pattern_chars(comments: &Vec<String>, labels: &Vec<LabelDefinition>) -> (res: Vec<char>)
    ensures
        res@ == pattern_spec(strings_view(comments@), labels_view(labels@)),
{
    let mut out: Vec<char> = Vec::new();
    out.push('(');
    let cs = strings_to_chars(comments);
    push_joined(&mut out, &cs);
    out.push(')');
    out.push('\\');
    out.push('s');
    out.push('*');
    out.push('(');
    let ts = enabled_term_chars(labels);
    push_joined(&mut out, &ts);
    out.push(')');
    out.push('\\');
    out.push('s');
    out.push('*');
    out.push(':');
    out.push('\\');
    out.push('s');
    out.push('*');
    out.push('(');
    out.push('.');
    out.push('+');
    out.push(')');
    assert(out@ =~= pattern_spec(strings_view(comments@), labels_view(labels@)));
    out
}

/// Builds the search pattern `({comments})\s*({terms})\s*:\s*(.+)` from the
/// comment markers and the words of the enabled labels, and checks that the
/// `regex` crate accepts it.
pub fn rg_build_pattern(comments: &Vec<String>, labels: &Vec<LabelDefinition>) -> (res: Result<
    String,
    PatternError,
>)
    ensures
        match res {
            Ok(p) => p@ == pattern_spec(strings_view(comments@), labels_view(labels@))
                && spec_regex_accepts(p@),
            Err(e) => e.pattern@ == pattern_spec(strings_view(comments@), labels_view(labels@))
                && !spec_regex_accepts(e.pattern@),
        },
{
    let p = pattern_chars(comments, labels);
    let s = chars_to_string(p.as_slice());
    if regex_accepts(s.as_str()) {
        Ok(s)
    } else {
        Err(PatternError { pattern: s })
    }
}

/// The arguments of the ripgrep call: `-T {ext}` for each excluded file type,
/// then `--line-number --no-heading --with-filename --regexp {pattern} {root}`.
pub open spec fn rg_arguments_spec(root: Seq<char>, exclude: Seq<Seq<char>>, pattern: Seq<char>) -> Seq<
    Seq<char>,
>
    decreases exclude.len(),
{
    if exclude.len() == 0 {
        seq![
            seq!['-', '-', 'l', 'i', 'n', 'e', '-', 'n', 'u', 'm', 'b', 'e', 'r'],
            seq!['-', '-', 'n', 'o', '-', 'h', 'e', 'a', 'd', 'i', 'n', 'g'],
            seq!['-', '-', 'w', 'i', 't', 'h', '-', 'f', 'i', 'l', 'e', 'n', 'a', 'm', 'e'],
            seq!['-', '-', 'r', 'e', 'g', 'e', 'x', 'p'],
            pattern,
            root,
        ]
    } else {
        seq![seq!['-', 'T'], exclude[0]] + rg_arguments_spec(root, exclude.drop_first(), pattern)
    }
}

/// The arguments with which ripgrep is run over `root`, or the pattern that
/// the `regex` crate refused.
pub fn rg_arguments(root: &str, config: &Config) -> (res: Result<Vec<String>, PatternError>)
    ensures
        match res {
            Ok(args) => spec_regex_accepts(pattern_spec(config@.comments, config@.labels))
                && strings_view(args@) == rg_arguments_spec(
                root@,
                config@.exclude,
                pattern_spec(config@.comments, config@.labels),
            ),
            Err(e) => e.pattern@ == pattern_spec(config@.comments, config@.labels)
                && !spec_regex_accepts(e.pattern@),
        },
{
    let pattern = match rg_build_pattern(&config.comments, &config.labels) {
        Ok(p) => p,
        Err(e) => {
            return Err(e);
        },
    };
    let ghost ev = config@.exclude;
    let mut args: Vec<String> = Vec::new();
    assert(ev.skip(0) =~= ev);
    assert(strings_view(args@) =~= Seq::<Seq<char>>::empty());
    for i in 0..config.exclude.len()
        invariant
            ev == config@.exclude,
            rg_arguments_spec(root@, ev, pattern@) == strings_view(args@) + rg_arguments_spec(
                root@,
                ev.skip(i as int),
                pattern@,
            ),
    {
        let ghost prev = args@;
        args.push(String::from_str("-T"));
        args.push(config.exclude[i].clone());
        proof {
            reveal_strlit("-T");
            assert("-T"@ =~= seq!['-', 'T']);
            assert(ev.skip(i as int)[0] == config.exclude@[i as int]@);
            assert(ev.skip(i as int).drop_first() =~= ev.skip(i + 1));
            assert(strings_view(args@) =~= strings_view(prev) + seq![seq!['-', 'T'], ev.skip(i as int)[0]]);
        }
    }
    let ghost prev = args@;
    args.push(String::from_str("--line-number"));
    args.push(String::from_str("--no-heading"));
    args.push(String::from_str("--with-filename"));
    args.push(String::from_str("--regexp"));
    args.push(pattern);
    args.push(String::from_str(root));
    proof {
        reveal_strlit("--line-number");
        reveal_strlit("--no-heading");
        reveal_strlit("--with-filename");
        reveal_strlit("--regexp");
        assert(ev.skip(ev.len() as int) =~= Seq::<Seq<char>>::empty());
        assert("--line-number"@ =~= seq!['-', '-', 'l', 'i', 'n', 'e', '-', 'n', 'u', 'm', 'b', 'e', 'r']);
        assert("--no-heading"@ =~= seq!['-', '-', 'n', 'o', '-', 'h', 'e', 'a', 'd', 'i', 'n', 'g']);
        assert("--with-filename"@ =~= seq!['-', '-', 'w', 'i', 't', 'h', '-', 'f', 'i', 'l', 'e', 'n', 'a', 'm', 'e']);
        assert("--regexp"@ =~= seq!['-', '-', 'r', 'e', 'g', 'e', 'x', 'p']);
        assert(strings_view(args@) =~= strings_view(prev) + rg_arguments_spec(
            root@,
            ev.skip(ev.len() as int),
            pattern_spec(config@.comments, config@.labels),
        ));
    }
    Ok(args)
}

// ---------------------------------------------------------------------------
// Reading ripgrep's output
// ---------------------------------------------------------------------------

/// The text of ripgrep's output bytes, as `String::from_utf8_lossy` reads them.
pub uninterp spec fn spec_utf8_lossy(bytes: Seq<u8>) -> Seq<char>;

/// Calls `String::from_utf8_lossy`. The contract names the result and states
/// what its documentation promises: valid UTF-8 is decoded as it stands.
/// Which replacement characters stand for invalid sequences is left unsaid.
#[verifier::external_body]
fn utf8_lossy(bytes: &[u8]) -> (res: String)
    ensures
        res@ == spec_utf8_lossy(bytes@),
        vstd::utf8::valid_utf8(bytes@) ==> res@ == vstd::utf8::decode_utf8(bytes@),
{
    String::from_utf8_lossy(bytes).into_owned()
}

/// One match line of ripgrep: file, line number, label word and text.
#[derive(Debug, PartialEq, Eq)]
pub struct RgMatch {
    pub file: String,
    pub line: u64,
    pub label: String,
    pub text: String,
}

/// The mathematical value of an [`RgMatch`].
pub struct RgMatchView {
    pub file: Seq<char>,
    pub line: u64,
    pub label: Seq<char>,
    pub text: Seq<char>,
}

impl View for RgMatch {
    type V = RgMatchView;

    open spec fn view(&self) -> RgMatchView {
        RgMatchView { file: self.file@, line: self.line, label: self.label@, text: self.text@ }
    }
}

/// `line` without a leading `.\` or, failing that, `./`.
pub open spec fn strip_dot_prefix(line: Seq<char>) -> Seq<char> {
    match strip_prefix(line, seq!['.', '\\']) {
        Some(r) => r,
        None => match strip_prefix(line, seq!['.', '/']) {
            Some(r) => r,
            None => line,
        },
    }
}

/// The text before the first `':'` and, when there is one, the text after it.
pub open spec fn split_colon(s: Seq<char>) -> (Seq<char>, Option<Seq<char>>) {
    match find_char(s, ':') {
        Some(i) => (s.take(i as int), Some(s.skip(i + 1 as int))),
        None => (s, None),
    }
}

/// The parts of `s` as `s.splitn(4, ':')` gives them.
pub open spec fn splitn4(s: Seq<char>) -> Seq<Seq<char>> {
    let (p1, r1) = split_colon(s);
    match r1 {
        None => seq![p1],
        Some(r1) => {
            let (p2, r2) = split_colon(r1);
            match r2 {
                None => seq![p1, p2],
                Some(r2) => {
                    let (p3, r3) = split_colon(r2);
                    match r3 {
                        None => seq![p1, p2, p3],
                        Some(r3) => seq![p1, p2, p3, r3],
                    }
                },
            }
        },
    }
}

/// The label word after removing each comment marker in turn, when it starts
/// with it, trimming after each.
pub open spec fn strip_comments(label: Seq<char>, comments: Seq<Seq<char>>) -> Seq<char>
    decreases comments.len(),
{
    if comments.len() == 0 {
        label
    } else {
        let next = match strip_prefix(label, comments[0]) {
            Some(r) => trim(r),
            None => trim(label),
        };
        strip_comments(next, comments.drop_first())
    }
}

/// The `i`-th part, or nothing.
pub open spec fn part(parts: Seq<Seq<char>>, i: int) -> Seq<char> {
    if i < parts.len() {
        parts[i]
    } else {
        Seq::empty()
    }
}

/// What a line of ripgrep's output holds: `{file}:{line}:{comment label}:{text}`
/// after a leading `./` or `.\`; the line number is 0 when it does not parse,
/// the label loses the comment markers, and the line counts only when its
/// trimmed text is not empty.
pub open spec fn text_pattern_spec(line: Seq<char>, comments: Seq<Seq<char>>) -> Option<RgMatchView> {
    let parts = splitn4(strip_dot_prefix(line));
    let number = if parts.len() > 1 {
        match parse_u64(parts[1]) {
            Some(n) => n,
            None => 0u64,
        }
    } else {
        0u64
    };
    let text = trim(part(parts, 3));
    if text.len() > 0 {
        Some(
            RgMatchView {
                file: parts[0],
                line: number,
                label: strip_comments(trim(part(parts, 2)), comments),
                text,
            },
        )
    } else {
        None
    }
}

/// Splits at the first `':'`.
fn split_colon_exec(s: &[char]) -> (res: (Vec<char>, Option<Vec<char>>))
    ensures
        res.0@ == split_colon(s@).0,
        match res.1 {
            Some(r) => split_colon(s@).1 == Some(r@),
            None => split_colon(s@).1 is None,
        },
{
    match find_char_index(s, ':') {
        Some(i) => (crate::text::copy_range(s, 0, i), Some(crate::text::copy_range(s, i + 1, s.len()))),
        None => (crate::text::copy_range(s, 0, s.len()), None),
    }
}

/// Removes the comment markers from a label word.
fn strip_comments_exec(label: Vec<char>, comments: &Vec<Vec<char>>) -> (res: Vec<char>)
    ensures
        res@ == strip_comments(label@, chars_view(comments@)),
{
    let ghost cv = chars_view(comments@);
    let mut cur = label;
    assert(cv.skip(0) =~= cv);
    for i in 0..comments.len()
        invariant
            cv == chars_view(comments@),
            strip_comments(label@, cv) == strip_comments(cur@, cv.skip(i as int)),
    {
        assert(cv.skip(i as int)[0] == comments@[i as int]@);
        assert(cv.skip(i as int).drop_first() =~= cv.skip(i + 1));
        cur = match strip_prefix_chars(cur.as_slice(), comments[i].as_slice()) {
            Some(r) => trim_chars(r.as_slice()),
            None => trim_chars(cur.as_slice()),
        };
    }
    assert(cv.skip(comments.len() as int) =~= Seq::<Seq<char>>::empty());
    cur
}

/// Reads one line of ripgrep's output, on chars.
fn text_pattern_chars(line: &[char], comments: &Vec<Vec<char>>) -> (res: Option<RgMatch>)
    ensures
        match res {
            Some(m) => text_pattern_spec(line@, chars_view(comments@)) == Some(m@),
            None => text_pattern_spec(line@, chars_view(comments@)) is None,
        },
{
    let mut bs: Vec<char> = Vec::new();
    bs.push('.');
    bs.push('\\');
    let mut sl: Vec<char> = Vec::new();
    sl.push('.');
    sl.push('/');
    assert(bs@ =~= seq!['.', '\\']);
    assert(sl@ =~= seq!['.', '/']);
    let stripped = match strip_prefix_chars(line, bs.as_slice()) {
        Some(r) => r,
        None => match strip_prefix_chars(line, sl.as_slice()) {
            Some(r) => r,
            None => crate::text::copy_range(line, 0, line.len()),
        },
    };
    assert(stripped@ == strip_dot_prefix(line@));
    let ghost parts = splitn4(stripped@);
    let (p1, r1) = split_colon_exec(stripped.as_slice());
    let (number, label_part, text_part): (u64, Vec<char>, Vec<char>) = match r1 {
        None => (0, Vec::new(), Vec::new()),
        Some(r1) => {
            let (p2, r2) = split_colon_exec(r1.as_slice());
            let n = match parse_u64_chars(p2.as_slice()) {
                Some(n) => n,
                None => 0,
            };
            match r2 {
                None => (n, Vec::new(), Vec::new()),
                Some(r2) => {
                    let (p3, r3) = split_colon_exec(r2.as_slice());
                    match r3 {
                        None => (n, p3, Vec::new()),
                        Some(r3) => (n, p3, r3),
                    }
                },
            }
        },
    };
    assert(part(parts, 2) == label_part@);
    assert(part(parts, 3) == text_part@);
    assert(number == (if parts.len() > 1 {
        match parse_u64(parts[1]) {
            Some(n) => n,
            None => 0u64,
        }
    } else {
        0u64
    }));
    let text = trim_chars(text_part.as_slice());
    if text.len() == 0 {
        return None;
    }
    let label = strip_comments_exec(trim_chars(label_part.as_slice()), comments);
    Some(
        RgMatch {
            file: chars_to_string(p1.as_slice()),
            line: number,
            label: chars_to_string(label.as_slice()),
            text: chars_to_string(text.as_slice()),
        },
    )
}

/// Reads one line of ripgrep's output `{file}:{line}:{comment label}:{text}`.
///
/// A leading `./` or `.\` is dropped; the line number is 0 when it does not
/// parse; the label loses the comment markers (each in turn, trimming after
/// each); `None` when the trimmed text is empty.
pub fn text_pattern(line: &str, comments: &Vec<String>) -> (res: Option<RgMatch>)
    ensures
        match res {
            Some(m) => text_pattern_spec(line@, strings_view(comments@)) == Some(m@),
            None => text_pattern_spec(line@, strings_view(comments@)) is None,
        },
{
    let l = to_chars(line);
    let cs = strings_to_chars(comments);
    text_pattern_chars(l.as_slice(), &cs)
}

/// The matches among the lines, in order.
pub open spec fn matches_of(lns: Seq<Seq<char>>, comments: Seq<Seq<char>>) -> Seq<RgMatchView>
    decreases lns.len(),
{
    if lns.len() == 0 {
        Seq::empty()
    } else {
        let rest = matches_of(lns.drop_last(), comments);
        match text_pattern_spec(lns.last(), comments) {
            Some(m) => rest.push(m),
            None => rest,
        }
    }
}

/// The view of a list of matches.
pub open spec fn matches_view(v: Seq<RgMatch>) -> Seq<RgMatchView> {
    v.map_values(|m: RgMatch| m@)
}

/// Reads the matches from ripgrep's output: one per line that holds a
/// non-empty text, in order.
pub fn rg_matches(stdout: &[u8], comments: &Vec<String>) -> (res: Vec<RgMatch>)
    ensures
        matches_view(res@) == matches_of(lines(spec_utf8_lossy(stdout@)), strings_view(comments@)),
        forall|i: int| 0 <= i < res@.len() ==> (#[trigger] res@[i]).text@.len() > 0,
{
    let text = utf8_lossy(stdout);
    let chars = to_chars(text.as_str());
    let lns = split_lines(chars.as_slice());
    let cs = strings_to_chars(comments);
    let ghost lv = lines(spec_utf8_lossy(stdout@));
    let ghost cv = strings_view(comments@);
    let mut res: Vec<RgMatch> = Vec::new();
    assert(lv.take(0) =~= Seq::<Seq<char>>::empty());
    assert(matches_view(res@) =~= Seq::<RgMatchView>::empty());
    for i in 0..lns.len()
        invariant
            lns@.len() == lv.len(),
            forall|j: int| 0 <= j < lns@.len() ==> #[trigger] lns@[j]@ == lv[j],
            chars_view(cs@) == cv,
            matches_view(res@) == matches_of(lv.take(i as int), cv),
            forall|j: int| 0 <= j < res@.len() ==> (#[trigger] res@[j]).text@.len() > 0,
    {
        proof {
            assert(lv.take(i + 1).drop_last() =~= lv.take(i as int));
            assert(lv.take(i + 1).last() == lns@[i as int]@);
        }
        let ghost prev = res@;
        match text_pattern_chars(lns[i].as_slice(), &cs) {
            Some(m) => {
                res.push(m);
                assert(matches_view(res@) =~= matches_view(prev).push(m@));
            },
            None => {},
        }
    }
    assert(lv.take(lns.len() as int) =~= lv);
    res
}

/// The annotations that the matches stand for.
pub open spec fn annotations_of_matches(ms: Seq<RgMatchView>) -> Seq<AnnotationView> {
    ms.map_values(|m: RgMatchView| AnnotationView { file: m.file, line: m.line, label: m.label, content: m.text })
}

/// Collects the annotations from ripgrep's output: one per line
/// `{file}:{line}:{comment label}:{text}` with a non-empty text, in order.
pub fn collect_annotations(stdout: &[u8], config: &Config) -> (res: Vec<Annotation>)
    ensures
        crate::model::annotations_view(res@) == annotations_of_matches(
            matches_of(lines(spec_utf8_lossy(stdout@)), config@.comments),
        ),
{
    let matches = rg_matches(stdout, &config.comments);
    let ghost mv = matches_view(matches@);
    let mut annotations: Vec<Annotation> = Vec::new();
    for i in 0..matches.len()
        invariant
            mv == matches_view(matches@),
            crate::model::annotations_view(annotations@) == annotations_of_matches(mv.take(i as int)),
            forall|j: int| 0 <= j < matches@.len() ==> (#[trigger] matches@[j]).text@.len() > 0,
    {
        let m = &matches[i];
        if !m.text.as_str().is_empty() {
            let ghost prev = annotations@;
            annotations.push(Annotation {
                file: m.file.clone(),
                line: m.line,
                label: m.label.clone(),
                content: m.text.clone(),
            });
            proof {
                crate::model::lemma_annotations_view_push(prev, annotations@.last());
                assert(annotations@ == prev.push(annotations@.last()));
                assert(mv.take(i + 1) =~= mv.take(i as int).push(mv[i as int]));
                assert(annotations_of_matches(mv.take(i + 1)) =~= annotations_of_matches(mv.take(i as int)).push(
                    AnnotationView { file: mv[i as int].file, line: mv[i as int].line, label: mv[i as int].label, content: mv[i as int].text },
                ));
            }
        } else {
            assert(matches@[i as int].text@.len() > 0);
        }
    }
    assert(mv.take(matches.len() as int) =~= mv);
    annotations
}

// ---------------------------------------------------------------------------
// Label colours
// ---------------------------------------------------------------------------

/// The colours in which labels are printed.
#[derive(Debug, Clone, Copy, PartialEq, Eq)]
pub enum LabelColor {
    Yellow,
    Cyan,
    Magenta,
    Green,
    Blue,
    Red,
}

/// The colour at a position of the palette.
pub open spec fn palette(i: nat) -> LabelColor {
    if i == 0 {
        LabelColor::Yellow
    } else if i == 1 {
        LabelColor::Cyan
    } else if i == 2 {
        LabelColor::Magenta
    } else if i == 3 {
        LabelColor::Green
    } else if i == 4 {
        LabelColor::Blue
    } else {
        LabelColor::Red
    }
}

/// The sum of the bytes.
pub open spec fn byte_sum(b: Seq<u8>) -> nat
    decreases b.len(),
{
    if b.len() == 0 {
        0
    } else {
        byte_sum(b.drop_last()) + b.last() as nat
    }
}

/// The colour of a label: the sum of its UTF-8 bytes, wrapping at the width of
/// `usize`, picks one of six colours.
pub open spec fn label_color_spec(label: Seq<char>) -> LabelColor {
    palette(((byte_sum(vstd::utf8::encode_utf8(label)) % (usize::MAX as nat + 1)) % 6) as nat)
}

/// The colour in which `label` is printed; the same label always gets the
/// same colour.
pub fn deterministic_color(label: &str) -> (res: LabelColor)
    ensures
        res == label_color_spec(label@),
{
    let bytes = label.as_bytes();
    let ghost b = bytes@;
    let ghost r: nat = usize::MAX as nat + 1;
    let mut hash: usize = 0;
    for i in 0..bytes.len()
        invariant
            b == bytes@,
            b == vstd::utf8::encode_utf8(label@),
            r == usize::MAX as nat + 1,
            hash == byte_sum(b.take(i as int)) % r,
    {
        let x = bytes[i];
        proof {
            assert(b.take(i + 1).drop_last() =~= b.take(i as int));
            let sum = byte_sum(b.take(i as int));
            assert(byte_sum(b.take(i + 1)) == sum + x as nat);
            let h = hash as int;
            let xi = x as int;
            let ri = r as int;
            assert(((sum % r) + xi) % ri == (sum + xi) % ri) by {
                vstd::arithmetic::div_mod::lemma_add_mod_noop(sum as int, xi, ri);
                vstd::arithmetic::div_mod::lemma_small_mod(xi as nat, r);
            }
            assert(h + xi > usize::MAX ==> (h + xi) % ri == h + xi - ri) by {
                if h + xi > usize::MAX {
                    vstd::arithmetic::div_mod::lemma_mod_add_multiples_vanish(h + xi - ri, ri);
                    vstd::arithmetic::div_mod::lemma_small_mod((h + xi - ri) as nat, r);
                }
            }
            assert(h + xi <= usize::MAX ==> (h + xi) % ri == h + xi) by {
                if h + xi <= usize::MAX {
                    vstd::arithmetic::div_mod::lemma_small_mod((h + xi) as nat, r);
                }
            }
        }
        hash = hash.wrapping_add(x as usize);
    }
    assert(b.take(bytes.len() as int) =~= b);
    let idx = hash % 6;
    if idx == 0 {
        LabelColor::Yellow
    } else if idx == 1 {
        LabelColor::Cyan
    } else if idx == 2 {
        LabelColor::Magenta
    } else if idx == 3 {
        LabelColor::Green
    } else if idx == 4 {
        LabelColor::Blue
    } else {
        LabelColor::Red
    }
}

/// The words of the pattern's label group are the aliases of the enabled
/// labels, label after label in the order of the configuration, whatever
/// disabled labels stand between them; so a word is among them exactly when
/// some enabled label lists it.
pub proof fn lemma_terms_are_enabled_aliases(labels: Seq<LabelView>)
    ensures
        enabled_terms(labels) == enabled_labels(labels).map_values(|l: LabelView| l.alias).flatten(),
        forall|w: Seq<char>|
            #[trigger] enabled_terms(labels).contains(w) <==> exists|i: int|
                0 <= i < labels.len() && (#[trigger] labels[i]).enabled && labels[i].alias.contains(w),
    decreases labels.len(),
{
    lemma_enabled_labels_last(labels);
    if labels.len() > 0 {
        let init = labels.drop_last();
        let l = labels.last();
        lemma_terms_are_enabled_aliases(init);
        let e0 = enabled_labels(init);
        if l.enabled {
            assert(enabled_labels(labels).map_values(|l: LabelView| l.alias) =~= e0.map_values(
                |l: LabelView| l.alias,
            ).push(l.alias));
            e0.map_values(|l: LabelView| l.alias).lemma_flatten_push(l.alias);
        }
        let rest = enabled_terms(init);
        assert forall|w: Seq<char>| #[trigger] enabled_terms(labels).contains(w) <==> exists|i: int|
            0 <= i < labels.len() && (#[trigger] labels[i]).enabled && labels[i].alias.contains(w) by {
            if enabled_terms(labels).contains(w) {
                let t = enabled_terms(labels);
                let m = choose|m: int| 0 <= m < t.len() && t[m] == w;
                if m < rest.len() {
                    assert(t[m] == rest[m]);
                    assert(rest.contains(w));
                    let i = choose|i: int|
                        0 <= i < init.len() && (#[trigger] init[i]).enabled && init[i].alias.contains(w);
                    assert(labels[i] == init[i]);
                } else {
                    assert(l.enabled);
                    assert(t[m] == l.alias[m - rest.len()]);
                    assert(l.alias.contains(w));
                    assert(labels[labels.len() - 1] == l);
                }
            }
            if exists|i: int|
                0 <= i < labels.len() && (#[trigger] labels[i]).enabled && labels[i].alias.contains(w) {
                let i = choose|i: int|
                    0 <= i < labels.len() && (#[trigger] labels[i]).enabled && labels[i].alias.contains(w);
                let t = enabled_terms(labels);
                if i < init.len() {
                    assert(init[i] == labels[i]);
                    assert(rest.contains(w));
                    let m = choose|m: int| 0 <= m < rest.len() && rest[m] == w;
                    if l.enabled {
                        assert(t[m] == rest[m]);
                    }
                    assert(t.contains(w));
                } else {
                    assert(labels[i] == l);
                    let m = choose|m: int| 0 <= m < l.alias.len() && l.alias[m] == w;
                    assert(t[rest.len() + m] == w);
                }
            }
        }
    } else {
        assert(enabled_labels(labels).map_values(|l: LabelView| l.alias) =~= Seq::<Seq<Seq<char>>>::empty());
    }
}

/// A label without surrounding whitespace is left as it is by trimming.
proof fn lemma_trim_trimmed(s: Seq<char>)
    requires
        s.len() == 0 || (!is_ws(s[0]) && !is_ws(s.last())),
    ensures
        trim(s) == s,
{
    lemma_trim_start_at(s, 0);
    assert(s.skip(0) =~= s);
    lemma_trim_end_at(s, s.len() as int);
    assert(s.take(s.len() as int) =~= s);
}

/// A label that starts with none of the markers and has no surrounding
/// whitespace keeps all of it.
proof fn lemma_strip_comments_none(label: Seq<char>, comments: Seq<Seq<char>>)
    requires
        label.len() == 0 || (!is_ws(label[0]) && !is_ws(label.last())),
        forall|j: int| 0 <= j < comments.len() ==> !starts_with(label, #[trigger] comments[j]),
    ensures
        strip_comments(label, comments) == label,
    decreases comments.len(),
{
    if comments.len() > 0 {
        lemma_trim_trimmed(label);
        let rest = comments.drop_first();
        assert forall|j: int| 0 <= j < rest.len() implies !starts_with(label, #[trigger] rest[j]) by {
            assert(rest[j] == comments[j + 1]);
        }
        lemma_strip_comments_none(label, rest);
    }
}

/// The comment marker in front of a label word is removed, whether or not
/// whitespace follows it: for a label part `{marker}{word}`, where the word
/// has no surrounding whitespace and starts with none of the later markers,
/// and the part starts with none of the earlier markers, the label is the
/// word. So `//TODO` with the markers `//` and `#` is `TODO`.
pub proof fn lemma_label_loses_marker(comments: Seq<Seq<char>>, i: int, w: Seq<char>)
    requires
        0 <= i < comments.len(),
        w.len() > 0,
        !is_ws(w[0]),
        !is_ws(w.last()),
        comments[i].len() == 0 || !is_ws(comments[i][0]),
        forall|j: int| 0 <= j < i ==> !starts_with(comments[i] + w, #[trigger] comments[j]),
        forall|j: int| i < j < comments.len() ==> !starts_with(w, #[trigger] comments[j]),
    ensures
        strip_comments(comments[i] + w, comments) == w,
    decreases i,
{
    let x = comments[i] + w;
    let rest = comments.drop_first();
    if i == 0 {
        assert(x.take(comments[0].len() as int) =~= comments[0]);
        assert(x.skip(comments[0].len() as int) =~= w);
        lemma_trim_trimmed(w);
        assert forall|j: int| 0 <= j < rest.len() implies !starts_with(w, #[trigger] rest[j]) by {
            assert(rest[j] == comments[j + 1]);
        }
        lemma_strip_comments_none(w, rest);
    } else {
        assert(x.last() == w.last());
        if comments[i].len() == 0 {
            assert(x =~= w);
        } else {
            assert(x[0] == comments[i][0]);
        }
        lemma_trim_trimmed(x);
        assert(!starts_with(x, comments[0]));
        assert(rest[i - 1] == comments[i]);
        assert forall|j: int| 0 <= j < i - 1 implies !starts_with(rest[i - 1] + w, #[trigger] rest[j]) by {
            assert(rest[j] == comments[j + 1]);
        }
        assert forall|j: int| i - 1 < j < rest.len() implies !starts_with(w, #[trigger] rest[j]) by {
            assert(rest[j] == comments[j + 1]);
        }
        lemma_label_loses_marker(rest, i - 1, w);
    }
}

/// With a single marker, a label part that starts with it is what follows
/// the marker, trimmed, whatever follows it.
pub proof fn lemma_single_marker_removed(c: Seq<char>, rest: Seq<char>)
    ensures
        strip_comments(c + rest, seq![c]) == trim(rest),
{
    let x = c + rest;
    assert(x.take(c.len() as int) =~= c);
    assert(x.skip(c.len() as int) =~= rest);
    assert(seq![c][0] == c);
    assert(starts_with(x, c));
    assert(strip_prefix(x, c) == Some(rest));
    assert(seq![c].drop_first() =~= Seq::<Seq<char>>::empty());
    assert(strip_comments(trim(rest), Seq::<Seq<char>>::empty()) == trim(rest));
}

/// Splitting `a + ":" + b` at its first colon, where `a` has none.
proof fn lemma_split_colon_at(a: Seq<char>, b: Seq<char>)
    requires
        !a.contains(':'),
    ensures
        split_colon(a + seq![':'] + b) == (a, Some(b)),
{
    let s = a + seq![':'] + b;
    assert forall|i: int| 0 <= i < a.len() implies #[trigger] s[i] != ':' by {
        assert(s[i] == a[i]);
    }
    crate::text::lemma_find_char(s, ':', a.len() as int);
    assert(s.take(a.len() as int) =~= a);
    assert(s.skip(a.len() + 1 as int) =~= b);
}

/// A line of ripgrep's output, `{file}:{line}:{label part}:{text}` (with or
/// without a leading `./`), is read as the file, the line number, the label
/// part without its comment markers, and the trimmed text, when neither the
/// file nor the label part holds a colon (the text may) and the text is not
/// blank.
#[verifier::rlimit(60)]
pub proof fn lemma_match_line_read(
    file: Seq<char>,
    n: u64,
    label_part: Seq<char>,
    text: Seq<char>,
    comments: Seq<Seq<char>>,
)
    requires
        !file.contains(':'),
        !label_part.contains(':'),
        !(file.len() >= 2 && file[0] == '.' && (file[1] == '/' || file[1] == '\\')),
        trim(text).len() > 0,
    ensures
        text_pattern_spec(
            file + seq![':'] + crate::text::decimal(n as nat) + seq![':'] + label_part + seq![':'] + text,
            comments,
        ) == Some(
            RgMatchView {
                file,
                line: n,
                label: strip_comments(trim(label_part), comments),
                text: trim(text),
            },
        ),
        text_pattern_spec(
            seq!['.', '/'] + file + seq![':'] + crate::text::decimal(n as nat) + seq![':'] + label_part
                + seq![':'] + text,
            comments,
        ) == text_pattern_spec(
            file + seq![':'] + crate::text::decimal(n as nat) + seq![':'] + label_part + seq![':'] + text,
            comments,
        ),
{
    let d = crate::text::decimal(n as nat);
    crate::text::lemma_decimal_digits(n as nat);
    crate::text::lemma_parse_decimal(n);
    assert(!d.contains(':')) by {
        if d.contains(':') {
            let j = choose|j: int| 0 <= j < d.len() && d[j] == ':';
            assert(crate::text::is_digit(d[j]));
        }
    }
    let r3 = label_part + seq![':'] + text;
    let r2 = d + seq![':'] + r3;
    let line = file + seq![':'] + r2;
    assert(file + seq![':'] + d + seq![':'] + label_part + seq![':'] + text =~= line);
    assert(label_part + seq![':'] + text =~= r3);
    assert(d + seq![':'] + r3 =~= r2);
    lemma_split_colon_at(file, r2);
    lemma_split_colon_at(d, r3);
    lemma_split_colon_at(label_part, text);
    if line.len() >= 2 && line[0] == '.' && (line[1] == '/' || line[1] == '\\') {
        if file.len() == 0 {
            assert(line[0] == ':');
        } else if file.len() == 1 {
            assert(line[1] == ':');
        } else {
            assert(line[0] == file[0] && line[1] == file[1]);
        }
    }
    assert(!starts_with(line, seq!['.', '\\'])) by {
        if starts_with(line, seq!['.', '\\']) {
            assert(line.take(2)[0] == line[0] && line.take(2)[1] == line[1]);
        }
    }
    assert(!starts_with(line, seq!['.', '/'])) by {
        if starts_with(line, seq!['.', '/']) {
            assert(line.take(2)[0] == line[0] && line.take(2)[1] == line[1]);
        }
    }
    assert(strip_dot_prefix(line) == line);
    assert(splitn4(line) == seq![file, d, label_part, text]);
    let dotted = seq!['.', '/'] + line;
    assert(seq!['.', '/'] + file + seq![':'] + d + seq![':'] + label_part + seq![':'] + text =~= dotted);
    assert(dotted.take(2) =~= seq!['.', '/']);
    assert(dotted.skip(2) =~= line);
    assert(!starts_with(dotted, seq!['.', '\\'])) by {
        if starts_with(dotted, seq!['.', '\\']) {
            assert(dotted.take(2)[1] == dotted[1]);
        }
    }
    assert(strip_dot_prefix(dotted) == line);
}

/// Each line of ripgrep's output is read on its own: the matches of two
/// runs of lines are those of the first followed by those of the second,
/// and a single line gives its match when it has one and nothing otherwise.
pub proof fn lemma_matches_line_by_line(a: Seq<Seq<char>>, b: Seq<Seq<char>>, comments: Seq<Seq<char>>)
    ensures
        matches_of(a + b, comments) == matches_of(a, comments) + matches_of(b, comments),
        forall|line: Seq<char>|
            #[trigger] matches_of(seq![line], comments) == match text_pattern_spec(line, comments) {
                Some(m) => seq![m],
                None => Seq::<RgMatchView>::empty(),
            },
    decreases b.len(),
{
    assert forall|line: Seq<char>|
        #[trigger] matches_of(seq![line], comments) == match text_pattern_spec(line, comments) {
            Some(m) => seq![m],
            None => Seq::<RgMatchView>::empty(),
        } by {
        let one = seq![line];
        assert(one.drop_last() =~= Seq::<Seq<char>>::empty());
        assert(one.last() == line);
        assert(matches_of(one.drop_last(), comments) == Seq::<RgMatchView>::empty());
        match text_pattern_spec(line, comments) {
            Some(m) => {
                assert(Seq::<RgMatchView>::empty().push(m) =~= seq![m]);
            },
            None => {},
        }
    }
    if b.len() == 0 {
        assert(a + b =~= a);
        assert(matches_of(a, comments) + matches_of(b, comments) =~= matches_of(a, comments));
    } else {
        lemma_matches_line_by_line(a, b.drop_last(), comments);
        assert((a + b).drop_last() =~= a + b.drop_last());
        assert((a + b).last() == b.last());
        let ra = matches_of(a, comments);
        let rb = matches_of(b.drop_last(), comments);
        match text_pattern_spec(b.last(), comments) {
            Some(m) => {
                assert(ra + rb.push(m) =~= (ra + rb).push(m));
            },
            None => {},
        }
    }
}

/// Whether `args` hold `-T` at `2 * k` and `ty` right after it.
pub open spec fn passes_type(args: Seq<Seq<char>>, k: int, ty: Seq<char>) -> bool {
    &&& args[2 * k].len() == 2
    &&& args[2 * k][0] == '-'
    &&& args[2 * k][1] == 'T'
    &&& args[2 * k + 1] == ty
}

/// Every excluded file type is passed as `-T {type}`, in order, and the
/// arguments end with `--regexp {pattern} {root}`.
pub proof fn lemma_rg_arguments_shape(root: Seq<char>, exclude: Seq<Seq<char>>, pattern: Seq<char>)
    ensures
        rg_arguments_spec(root, exclude, pattern).len() == 2 * exclude.len() + 6,
        forall|k: int|
            0 <= k < exclude.len() ==> #[trigger] passes_type(
                rg_arguments_spec(root, exclude, pattern),
                k,
                exclude[k],
            ),
        rg_arguments_spec(root, exclude, pattern)[(2 * exclude.len() + 3) as int] == seq![
            '-',
            '-',
            'r',
            'e',
            'g',
            'e',
            'x',
            'p',
        ],
        rg_arguments_spec(root, exclude, pattern)[(2 * exclude.len() + 4) as int] == pattern,
        rg_arguments_spec(root, exclude, pattern)[(2 * exclude.len() + 5) as int] == root,
    decreases exclude.len(),
{
    if exclude.len() > 0 {
        let rest = exclude.drop_first();
        lemma_rg_arguments_shape(root, rest, pattern);
        let r = rg_arguments_spec(root, rest, pattern);
        let all = rg_arguments_spec(root, exclude, pattern);
        assert(all == seq![seq!['-', 'T'], exclude[0]] + r);
        assert forall|k: int| 0 <= k < exclude.len() implies #[trigger] passes_type(all, k, exclude[k]) by {
            if k == 0 {
                assert(all[0] == seq![seq!['-', 'T'], exclude[0]][0]);
            } else {
                assert(rest[k - 1] == exclude[k]);
                assert(passes_type(r, k - 1, rest[k - 1]));
                assert(all[2 * k] == r[2 * (k - 1)]);
                assert(all[2 * k + 1] == r[2 * (k - 1) + 1]);
            }
        }
        assert(all[(2 * exclude.len() + 3) as int] == r[(2 * rest.len() + 3) as int]);
        assert(all[(2 * exclude.len() + 4) as int] == r[(2 * rest.len() + 4) as int]);
        assert(all[(2 * exclude.len() + 5) as int] == r[(2 * rest.len() + 5) as int]);
    }
}

} // verus!
