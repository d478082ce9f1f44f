//! The data the library works on: the configuration, its label definitions,
//! and the annotations found in source files.

use vstd::prelude::*;

verus! {

/// The whole configuration.
#[derive(Debug)]
pub struct Config {
    /// Comment markers that may introduce an annotation (`//`, `#`, ...).
    pub comments: Vec<String>,
    /// File types that the search leaves out.
    pub exclude: Vec<String>,
    /// The label definitions, in the order of the configuration file.
    pub labels: Vec<LabelDefinition>,
}

/// One label section of the configuration, such as `[TODO]`.
#[derive(Debug)]
pub struct LabelDefinition {
    /// The label's name.
    pub label: String,
    /// Whether the label takes part in the output.
    pub enabled: bool,
    /// Whether an update rebuilds the section from the current annotations;
    /// when it does not, the section's existing text is kept.
    pub update: bool,
    /// The mark shown in front of the label in headers (for example `"✅"`).
    pub mark: Option<String>,
    /// Whether items are written as `- [ ]` checkboxes.
    pub checkbox: bool,
    /// The words that count as this label; the loader puts the label's own
    /// name first.
    pub alias: Vec<String>,
}

/// The settings of one label table as the configuration file states them.
#[derive(Debug)]
pub struct SerdeConfig {
    /// The mark; absent when the table has none.
    pub mark: Option<String>,
    /// `enabled`, `true` when the table leaves it out.
    pub enabled: bool,
    /// `update`, `true` when the table leaves it out.
    pub update: bool,
    /// `checkbox`, `false` when the table leaves it out.
    pub checkbox: bool,
    /// `alias`, empty when the table leaves it out.
    pub alias: Vec<String>,
}

/// One annotation comment found in a source file.
#[derive(Debug, PartialEq, Eq, Hash)]
pub struct Annotation {
    /// The file, as the search reported it.
    pub file: String,
    /// The line number.
    pub line: u64,
    /// The label word as written in the comment.
    pub label: String,
    /// The text after the label.
    pub content: String,
}

/// The mathematical value of a [`LabelDefinition`].
pub struct LabelView {
    pub label: Seq<char>,
    pub enabled: bool,
    pub update: bool,
    pub mark: Option<Seq<char>>,
    pub checkbox: bool,
    pub alias: Seq<Seq<char>>,
}

/// The enabled labels of a configuration, in its order.
pub open spec fn enabled_labels(labels: Seq<LabelView>) -> Seq<LabelView> {
    labels.filter(|l: LabelView| l.enabled)
}

/// The enabled labels of a configuration are those of all but its last label,
/// followed by the last one when it is enabled.
pub proof fn lemma_enabled_labels_last(labels: Seq<LabelView>)
    ensures
        labels.len() == 0 ==> enabled_labels(labels) == Seq::<LabelView>::empty(),
        labels.len() > 0 ==> enabled_labels(labels) == if labels.last().enabled {
            enabled_labels(labels.drop_last()).push(labels.last())
        } else {
            enabled_labels(labels.drop_last())
        },
{
    reveal(Seq::filter);
}

/// The mathematical value of an [`Annotation`].
pub struct AnnotationView {
    pub file: Seq<char>,
    pub line: u64,
    pub label: Seq<char>,
    pub content: Seq<char>,
}

/// The mathematical value of a [`Config`].
pub struct ConfigView {
    pub comments: Seq<Seq<char>>,
    pub exclude: Seq<Seq<char>>,
    pub labels: Seq<LabelView>,
}

/// The view of an optional string.
pub open spec fn opt_view(o: Option<String>) -> Option<Seq<char>> {
    match o {
        Some(s) => Some(s@),
        None => None,
    }
}

/// The views of a sequence of strings.
pub open spec fn strings_view(v: Seq<String>) -> Seq<Seq<char>> {
    v.map_values(|s: String| s@)
}

impl View for LabelDefinition {
    type V = LabelView;

    open spec fn view(&self) -> LabelView {
        LabelView {
            label: self.label@,
            enabled: self.enabled,
            update: self.update,
            mark: opt_view(self.mark),
            checkbox: self.checkbox,
            alias: strings_view(self.alias@),
        }
    }
}

impl View for Annotation {
    type V = AnnotationView;

    open spec fn view(&self) -> AnnotationView {
        AnnotationView {
            file: self.file@,
            line: self.line,
            label: self.label@,
            content: self.content@,
        }
    }
}

/// The views of a sequence of label definitions.
pub open spec fn labels_view(v: Seq<LabelDefinition>) -> Seq<LabelView> {
    v.map_values(|l: LabelDefinition| l@)
}

/// The views of a sequence of annotations.
pub open spec fn annotations_view(v: Seq<Annotation>) -> Seq<AnnotationView> {
    v.map_values(|a: Annotation| a@)
}

impl View for Config {
    type V = ConfigView;

    open spec fn view(&self) -> ConfigView {
        ConfigView {
            comments: strings_view(self.comments@),
            exclude: strings_view(self.exclude@),
            labels: labels_view(self.labels@),
        }
    }
}

/// Pushing a string pushes its view.
pub proof fn lemma_strings_view_push(v: Seq<String>, x: String)
    ensures
        strings_view(v.push(x)) == strings_view(v).push(x@),
{
    assert(strings_view(v.push(x)) =~= strings_view(v).push(x@));
}

/// Pushing an annotation pushes its view.
pub proof fn lemma_annotations_view_push(v: Seq<Annotation>, x: Annotation)
    ensures
        annotations_view(v.push(x)) == annotations_view(v).push(x@),
{
    assert(annotations_view(v.push(x)) =~= annotations_view(v).push(x@));
}

/// A copy of an optional string.
pub fn copy_opt_string(o: &Option<String>) -> (res: Option<String>)
    ensures
        res == *o,
{
    match o {
        Some(s) => Some(s.clone()),
        None => None,
    }
}

/// A copy of a vector of strings.
pub fn copy_strings(v: &Vec<String>) -> (res: Vec<String>)
    ensures
        res@ == v@,
{
    let mut res: Vec<String> = Vec::new();
    for i in 0..v.len()
        invariant
            res@ == v@.take(i as int),
    {
        res.push(v[i].clone());
        assert(res@ =~= v@.take(i + 1));
    }
    assert(v@.take(v.len() as int) =~= v@);
    res
}

impl Annotation {
    /// A copy of this annotation.
    pub fn duplicate(&self) -> (res: Self)
        ensures
            res == *self,
    {
        Annotation {
            file: self.file.clone(),
            line: self.line,
            label: self.label.clone(),
            content: self.content.clone(),
        }
    }
}

impl LabelDefinition {
    /// A copy of this label definition.
    pub fn duplicate(&self) -> (res: Self)
        ensures
            res@ == self@,
    {
        LabelDefinition {
            label: self.label.clone(),
            enabled: self.enabled,
            update: self.update,
            mark: copy_opt_string(&self.mark),
            checkbox: self.checkbox,
            alias: copy_strings(&self.alias),
        }
    }
}

/// The value that `enabled` and `update` take when a label table leaves them out.
pub fn default_true() -> (res: bool)
    ensures
        res,
{
    true
}

/// The configuration written by `init`, and when no configuration file exists yet.
pub const DEFAULT_CONFIG: &'static str = r##"comment = ["//", "#", "--"]
exclude = ["md"]

[TODO]
mark = "✅"
checkbox = true

[INFO]
mark = "📒"
alias = ["NOTE"]

[FIX]
mark = "🔥"
alias = ["FIXIT", "FIXME", "BUG", "ISSUE"]

[WARNING]
mark = "⚠️"
alias = ["WARN"]

[XXX]
mark = "？"

[HACK]
enabled = false
mark = "🔨"

[PERF]
mark = "⚡"
alias = ["OPTIMIZE"]
"##;

/// The kinds of output file.
#[derive(Debug, Clone, Copy, PartialEq, Eq)]
pub enum OutputFormat {
    Markdown,
    Json,
}

/// `c` with an ASCII capital letter made small.
pub open spec fn ascii_lower(c: char) -> char {
    if 'A' <= c <= 'Z' {
        ((c as u32) + 32) as char
    } else {
        c
    }
}

/// `s` with its ASCII capital letters made small.
pub open spec fn ascii_lower_seq(s: Seq<char>) -> Seq<char> {
    s.map_values(|c: char| ascii_lower(c))
}

/// The format that a format name selects, ignoring ASCII case: `markdown` or
/// `md` for Markdown, `json` for JSON.
pub open spec fn format_named(name: Seq<char>) -> Option<OutputFormat> {
    let l = ascii_lower_seq(name);
    if l == seq!['m', 'a', 'r', 'k', 'd', 'o', 'w', 'n'] || l == seq!['m', 'd'] {
        Some(OutputFormat::Markdown)
    } else if l == seq!['j', 's', 'o', 'n'] {
        Some(OutputFormat::Json)
    } else {
        None
    }
}

/// Whether `s`, with its ASCII capitals made small, is `lower`.
fn equals_ignoring_case(s: &str, lower: &str) -> (res: bool)
    ensures
        res == (ascii_lower_seq(s@) == lower@),
{
    let a = crate::text::to_chars(s);
    let b = crate::text::to_chars(lower);
    if a.len() != b.len() {
        assert(ascii_lower_seq(s@).len() != lower@.len());
        return false;
    }
    let mut i: usize = 0;
    while i < a.len()
        invariant
            i <= a.len(),
            a.len() == b.len(),
            a@ == s@,
            b@ == lower@,
            forall|j: int| 0 <= j < i ==> ascii_lower(#[trigger] a@[j]) == b@[j],
        decreases a.len() - i,
    {
        let c = a[i];
        let lc = if 'A' <= c && c <= 'Z' {
            let code = c as u8;
            assert(code as int == c as int);
            (code + 32) as char
        } else {
            c
        };
        assert(lc == ascii_lower(c));
        if lc != b[i] {
            assert(ascii_lower_seq(s@)[i as int] != lower@[i as int]);
            return false;
        }
        i += 1;
    }
    assert(ascii_lower_seq(s@) =~= lower@);
    true
}

/// The format that an optional name selects (Markdown when there is no
/// name), or the name that selects none.
pub open spec fn parsed_format(name: Option<Seq<char>>) -> Result<OutputFormat, Seq<char>> {
    match name {
        None => Ok(OutputFormat::Markdown),
        Some(n) => match format_named(n) {
            Some(f) => Ok(f),
            None => Err(n),
        },
    }
}

/// The text of an optional string slice.
pub open spec fn opt_str_view(o: Option<&str>) -> Option<Seq<char>> {
    match o {
        Some(s) => Some(s@),
        None => None,
    }
}

impl OutputFormat {
    /// The format named by `name` (Markdown when there is none), or the
    /// unknown name.
    pub fn parse(name: Option<&str>) -> (res: Result<OutputFormat, String>)
        ensures
            match parsed_format(opt_str_view(name)) {
                Ok(g) => res matches Ok(f) && f == g,
                Err(m) => res matches Err(e) && e@ == m,
            },
    {
        proof {
            reveal_strlit("markdown");
            reveal_strlit("md");
            reveal_strlit("json");
            assert("markdown"@ =~= seq!['m', 'a', 'r', 'k', 'd', 'o', 'w', 'n']);
            assert("md"@ =~= seq!['m', 'd']);
            assert("json"@ =~= seq!['j', 's', 'o', 'n']);
        }
        match name {
            None => Ok(OutputFormat::Markdown),
            Some(n) => {
                if equals_ignoring_case(n, "markdown") || equals_ignoring_case(n, "md") {
                    Ok(OutputFormat::Markdown)
                } else if equals_ignoring_case(n, "json") {
                    Ok(OutputFormat::Json)
                } else {
                    Err(String::from_str(n))
                }
            },
        }
    }
}

} // verus!
