//! Choosing the configuration file and turning its contents into a [`Config`].
//!
//! What touches the file system (whether a path exists, reading and creating
//! files) stays with the caller, which hands in what it found; the decisions
//! and the assembly of the configuration are made here.

use vstd::prelude::*;

use crate::model::{
    copy_opt_string, copy_strings, labels_view, opt_view, strings_view, Config, LabelDefinition,
    LabelView, SerdeConfig,
};

verus! {

/// A path and whether it existed when the caller looked.
#[derive(Debug)]
pub struct ProbedPath {
    pub path: String,
    pub exists: bool,
}

/// Which configuration file to use.
#[derive(Debug)]
pub enum ConfigPathChoice {
    /// Read the configuration from this existing path.
    Use(String),
    /// Write the default configuration to this path first, then read it.
    CreateDefault(String),
}

/// Why no configuration could be had.
#[derive(Debug)]
pub enum ConfigError {
    /// The configuration file that was asked for does not exist.
    NotFound(String),
    /// The default configuration would overwrite an existing file.
    AlreadyExists(String),
    /// The table of this label could not be read as label settings.
    InvalidLabel(String),
    /// The configuration defines no label table.
    NoLabels,
}

/// The view of a configuration path decision.
pub enum ChoiceView {
    Use(Seq<char>),
    CreateDefault(Seq<char>),
}

/// The view of a configuration error.
pub enum ConfigErrorView {
    NotFound(Seq<char>),
    AlreadyExists(Seq<char>),
    InvalidLabel(Seq<char>),
    NoLabels,
}

impl View for ConfigPathChoice {
    type V = ChoiceView;

    open spec fn view(&self) -> ChoiceView {
        match self {
            ConfigPathChoice::Use(p) => ChoiceView::Use(p@),
            ConfigPathChoice::CreateDefault(p) => ChoiceView::CreateDefault(p@),
        }
    }
}

impl View for ConfigError {
    type V = ConfigErrorView;

    open spec fn view(&self) -> ConfigErrorView {
        match self {
            ConfigError::NotFound(p) => ConfigErrorView::NotFound(p@),
            ConfigError::AlreadyExists(p) => ConfigErrorView::AlreadyExists(p@),
            ConfigError::InvalidLabel(k) => ConfigErrorView::InvalidLabel(k@),
            ConfigError::NoLabels => ConfigErrorView::NoLabels,
        }
    }
}

/// Chooses the configuration file: the given one, which must exist; else
/// `suppa.toml` in the current directory when it exists; else the one in the
/// home directory, which is created with the default configuration when it
/// does not exist yet.
pub fn resolve_config_path(
    config_path: Option<ProbedPath>,
    local_default: ProbedPath,
    home_default: ProbedPath,
) -> (res: Result<ConfigPathChoice, ConfigError>)
    ensures
        match config_path {
            Some(p) => if p.exists {
                res matches Ok(c) && c@ == ChoiceView::Use(p.path@)
            } else {
                res matches Err(e) && e@ == ConfigErrorView::NotFound(p.path@)
            },
            None => if local_default.exists {
                res matches Ok(c) && c@ == ChoiceView::Use(local_default.path@)
            } else if home_default.exists {
                res matches Ok(c) && c@ == ChoiceView::Use(home_default.path@)
            } else {
                res matches Ok(c) && c@ == ChoiceView::CreateDefault(home_default.path@)
            },
        },
{
    match config_path {
        Some(p) => {
            if p.exists {
                Ok(ConfigPathChoice::Use(p.path))
            } else {
                Err(ConfigError::NotFound(p.path))
            }
        },
        None => {
            if local_default.exists {
                Ok(ConfigPathChoice::Use(local_default.path))
            } else if home_default.exists {
                Ok(ConfigPathChoice::Use(home_default.path))
            } else {
                Ok(ConfigPathChoice::CreateDefault(home_default.path))
            }
        },
    }
}

/// The path where the default configuration is to be written: refused when
/// a file is there already.
pub fn create_default_config(path: ProbedPath) -> (res: Result<String, ConfigError>)
    ensures
        path.exists ==> (res matches Err(e) && e@ == ConfigErrorView::AlreadyExists(path.path@)),
        !path.exists ==> (res matches Ok(p) && p@ == path.path@),
{
    if path.exists {
        Err(ConfigError::AlreadyExists(path.path))
    } else {
        Ok(path.path)
    }
}

/// One top-level entry of a configuration file: its key, its value as a list
/// of strings (each element `None` when it is not a string; the whole `None`
/// when the value is not an array), and its value read as label settings
/// (`None` when that fails).
#[derive(Debug)]
pub struct RawEntry {
    pub key: String,
    pub strings: Option<Vec<Option<String>>>,
    pub label: Option<SerdeConfig>,
}

/// The top-level entries of a configuration file, in the file's order.
#[derive(Debug)]
pub struct RawConfig {
    pub entries: Vec<RawEntry>,
}

/// The view of a list of optional strings.
pub open spec fn opt_strings_view(v: Seq<Option<String>>) -> Seq<Option<Seq<char>>> {
    v.map_values(|o: Option<String>| opt_view(o))
}

/// The strings among `v`, in order.
pub open spec fn present_strings(v: Seq<Option<Seq<char>>>) -> Seq<Seq<char>>
    decreases v.len(),
{
    if v.len() == 0 {
        Seq::empty()
    } else {
        let rest = present_strings(v.drop_last());
        match v.last() {
            Some(s) => rest.push(s),
            None => rest,
        }
    }
}

/// `comment`
pub open spec fn comment_key() -> Seq<char> {
    seq!['c', 'o', 'm', 'm', 'e', 'n', 't']
}

/// `exclude`
pub open spec fn exclude_key() -> Seq<char> {
    seq!['e', 'x', 'c', 'l', 'u', 'd', 'e']
}

/// The default comment markers `//`, `#`, `--`.
pub open spec fn default_comments() -> Seq<Seq<char>> {
    seq![seq!['/', '/'], seq!['#'], seq!['-', '-']]
}

/// The default excluded file type `md`.
pub open spec fn default_exclude() -> Seq<Seq<char>> {
    seq![seq!['m', 'd']]
}

/// The string list stored under `key`: the strings of the first entry with
/// that key when its value is an array, else `default`.
pub open spec fn string_list(entries: Seq<RawEntry>, key: Seq<char>, default: Seq<Seq<char>>) -> Seq<
    Seq<char>,
>
    decreases entries.len(),
{
    if entries.len() == 0 {
        default
    } else if entries[0].key@ == key {
        match entries[0].strings {
            Some(v) => present_strings(opt_strings_view(v@)),
            None => default,
        }
    } else {
        string_list(entries.drop_first(), key, default)
    }
}

/// The label definition that the entry `key` with settings `cfg` gives: the
/// key is the name and the first alias, the settings' aliases follow.
pub open spec fn label_of_entry(key: Seq<char>, cfg: SerdeConfig) -> LabelView {
    LabelView {
        label: key,
        enabled: cfg.enabled,
        update: cfg.update,
        mark: opt_view(cfg.mark),
        checkbox: cfg.checkbox,
        alias: seq![key] + strings_view(cfg.alias@),
    }
}

/// The labels of the entries other than `comment` and `exclude`, in order,
/// or the key of the first of them whose settings could not be read.
pub open spec fn labels_of(entries: Seq<RawEntry>) -> Result<Seq<LabelView>, Seq<char>>
    decreases entries.len(),
{
    if entries.len() == 0 {
        Ok(Seq::empty())
    } else {
        match labels_of(entries.drop_last()) {
            Err(k) => Err(k),
            Ok(ls) => {
                let e = entries.last();
                if e.key@ == comment_key() || e.key@ == exclude_key() {
                    Ok(ls)
                } else {
                    match e.label {
                        None => Err(e.key@),
                        Some(cfg) => Ok(ls.push(label_of_entry(e.key@, cfg))),
                    }
                }
            },
        }
    }
}

/// Whether `s` holds the text `t`.
fn same_text(s: &String, t: &str) -> (res: bool)
    ensures
        res == (s@ == t@),
{
    let a = crate::text::to_chars(s.as_str());
    let b = crate::text::to_chars(t);
    crate::text::chars_eq(a.as_slice(), b.as_slice())
}

/// Appends the strings among `v`.
fn push_present(out: &mut Vec<String>, v: &Vec<Option<String>>)
    ensures
        strings_view(final(out)@) == strings_view(old(out)@) + present_strings(opt_strings_view(v@)),
{
    let ghost start = strings_view(out@);
    let ghost ov = opt_strings_view(v@);
    for i in 0..v.len()
        invariant
            ov == opt_strings_view(v@),
            strings_view(out@) == start + present_strings(ov.take(i as int)),
    {
        proof {
            assert(ov.take(i + 1).drop_last() =~= ov.take(i as int));
            assert(ov.take(i + 1).last() == opt_view(v@[i as int]));
        }
        let ghost prev = out@;
        match &v[i] {
            Some(s) => {
                out.push(s.clone());
                assert(strings_view(out@) =~= strings_view(prev).push(s@));
            },
            None => {},
        }
        assert(strings_view(out@) =~= start + present_strings(ov.take(i + 1)));
    }
    assert(ov.take(v.len() as int) =~= ov);
}

/// The string list stored under `key`, or `default`.
fn read_string_list(raw: &RawConfig, key: &str, default: Vec<String>) -> (res: Vec<String>)
    ensures
        strings_view(res@) == string_list(raw.entries@, key@, strings_view(default@)),
{
    let mut i: usize = 0;
    let ghost es = raw.entries@;
    assert(es.skip(0) =~= es);
    while i < raw.entries.len()
        invariant
            i <= raw.entries.len(),
            es == raw.entries@,
            string_list(es, key@, strings_view(default@)) == string_list(
                es.skip(i as int),
                key@,
                strings_view(default@),
            ),
        decreases raw.entries.len() - i,
    {
        let e = &raw.entries[i];
        assert(es.skip(i as int)[0] == *e);
        assert(es.skip(i as int).drop_first() =~= es.skip(i + 1));
        if same_text(&e.key, key) {
            match &e.strings {
                Some(v) => {
                    let mut out: Vec<String> = Vec::new();
                    push_present(&mut out, v);
                    assert(strings_view(out@) =~= present_strings(opt_strings_view(v@)));
                    return out;
                },
                None => {
                    return default;
                },
            }
        }
        i += 1;
    }
    default
}

/// Builds the configuration from the entries of a configuration file.
///
/// `comment` and `exclude` give the comment markers and excluded file types
/// (their string elements, in order; `//`, `#`, `--` and `md` when the key is
/// missing or not an array). Every other entry is a label table, in file
/// order; its key is the label's name and its first alias. A label table
/// whose settings could not be read gives `InvalidLabel` with its key, and a
/// file without label tables gives `NoLabels`.
pub fn load_config(raw: &RawConfig) -> (res: Result<Config, ConfigError>)
    ensures
        match labels_of(raw.entries@) {
            Err(k) => res matches Err(e) && e@ == ConfigErrorView::InvalidLabel(k),
            Ok(ls) => if ls.len() == 0 {
                res matches Err(e) && e@ == ConfigErrorView::NoLabels
            } else {
                res matches Ok(c) && c@.labels == ls && c@.comments == string_list(
                    raw.entries@,
                    comment_key(),
                    default_comments(),
                ) && c@.exclude == string_list(raw.entries@, exclude_key(), default_exclude())
            },
        },
{
    let mut dc: Vec<String> = Vec::new();
    dc.push(String::from_str("//"));
    dc.push(String::from_str("#"));
    dc.push(String::from_str("--"));
    proof {
        reveal_strlit("//");
        reveal_strlit("#");
        reveal_strlit("--");
        assert("//"@ =~= seq!['/', '/']);
        assert("#"@ =~= seq!['#']);
        assert("--"@ =~= seq!['-', '-']);
        assert(strings_view(dc@) =~= default_comments());
    }
    let mut de: Vec<String> = Vec::new();
    de.push(String::from_str("md"));
    proof {
        reveal_strlit("md");
        assert("md"@ =~= seq!['m', 'd']);
        assert(strings_view(de@) =~= default_exclude());
        reveal_strlit("comment");
        reveal_strlit("exclude");
        assert("comment"@ =~= comment_key());
        assert("exclude"@ =~= exclude_key());
    }
    let comments = read_string_list(raw, "comment", dc);
    let exclude = read_string_list(raw, "exclude", de);
    let mut labels: Vec<LabelDefinition> = Vec::new();
    let ghost es = raw.entries@;
    assert(es.take(0) =~= Seq::<RawEntry>::empty());
    assert(labels_view(labels@) =~= Seq::<LabelView>::empty());
    for i in 0..raw.entries.len()
        invariant
            es == raw.entries@,
            "comment"@ == comment_key(),
            "exclude"@ == exclude_key(),
            labels_of(es.take(i as int)) == Ok::<Seq<LabelView>, Seq<char>>(labels_view(labels@)),
    {
        let e = &raw.entries[i];
        proof {
            assert(es.take(i + 1).drop_last() =~= es.take(i as int));
            assert(es.take(i + 1).last() == *e);
        }
        if same_text(&e.key, "comment") || same_text(&e.key, "exclude") {
            assert(labels_of(es.take(i + 1)) == labels_of(es.take(i as int)));
        } else {
            match &e.label {
                None => {
                    proof {
                        lemma_labels_of_err(es, (i + 1) as int);
                        assert(es.take(es.len() as int) =~= es);
                    }
                    return Err(ConfigError::InvalidLabel(e.key.clone()));
                },
                Some(cfg) => {
                    let mut alias: Vec<String> = Vec::new();
                    alias.push(e.key.clone());
                    let rest = copy_strings(&cfg.alias);
                    let mut k: usize = 0;
                    while k < rest.len()
                        invariant
                            k <= rest.len(),
                            strings_view(alias@) == seq![e.key@] + strings_view(rest@).take(k as int),
                        decreases rest.len() - k,
                    {
                        let ghost prev = alias@;
                        alias.push(rest[k].clone());
                        assert(strings_view(alias@) =~= strings_view(prev).push(rest@[k as int]@));
                        assert(strings_view(alias@) =~= seq![e.key@] + strings_view(rest@).take(k + 1));
                        k += 1;
                    }
                    assert(strings_view(rest@).take(k as int) =~= strings_view(rest@));
                    let def = LabelDefinition {
                        label: e.key.clone(),
                        enabled: cfg.enabled,
                        update: cfg.update,
                        mark: copy_opt_string(&cfg.mark),
                        checkbox: cfg.checkbox,
                        alias,
                    };
                    let ghost prev = labels@;
                    assert(def@ == label_of_entry(e.key@, *cfg));
                    labels.push(def);
                    assert(labels_view(labels@) =~= labels_view(prev).push(def@));
                },
            }
        }
    }
    assert(es.take(raw.entries.len() as int) =~= es);
    if labels.len() == 0 {
        return Err(ConfigError::NoLabels);
    }
    Ok(Config { comments, exclude, labels })
}

/// Once the labels of a prefix of the entries fail, so do those of the whole.
proof fn lemma_labels_of_err(entries: Seq<RawEntry>, k: int)
    requires
        0 <= k <= entries.len(),
        labels_of(entries.take(k)) is Err,
    ensures
        labels_of(entries) == labels_of(entries.take(k)),
    decreases entries.len() - k,
{
    if k < entries.len() {
        let t = entries.take(k + 1);
        assert(t.drop_last() =~= entries.take(k));
        lemma_labels_of_err(entries, k + 1);
    } else {
        assert(entries.take(k) =~= entries);
    }
}

} // verus!
