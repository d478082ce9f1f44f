//! Grouping of annotations by the label they stand for.

use vstd::prelude::*;

use crate::model::{
    annotations_view, labels_view, strings_view, Annotation, AnnotationView, Config,
    LabelDefinition, LabelView,
};

verus! {

/// The label that the word `l` stands for: the name of the last label whose
/// alias list holds `l`, or `l` itself when no label lists it.
pub open spec fn canonical_label(labels: Seq<LabelView>, l: Seq<char>) -> Seq<char>
    decreases labels.len(),
{
    if labels.len() == 0 {
        l
    } else if labels.last().alias.contains(l) {
        labels.last().label
    } else {
        canonical_label(labels.drop_last(), l)
    }
}

/// The annotations of `anns`, in order, whose label stands for `key`.
pub open spec fn group_members(
    labels: Seq<LabelView>,
    anns: Seq<AnnotationView>,
    key: Seq<char>,
) -> Seq<AnnotationView>
    decreases anns.len(),
{
    if anns.len() == 0 {
        Seq::empty()
    } else {
        let rest = group_members(labels, anns.drop_last(), key);
        if canonical_label(labels, anns.last().label) == key {
            rest.push(anns.last())
        } else {
            rest
        }
    }
}

/// The group of `key` in a list of groups: the annotations of the first group
/// with that label.
pub open spec fn lookup_group(
    groups: Seq<(Seq<char>, Seq<AnnotationView>)>,
    key: Seq<char>,
) -> Option<Seq<AnnotationView>>
    decreases groups.len(),
{
    if groups.len() == 0 {
        None
    } else if groups[0].0 == key {
        Some(groups[0].1)
    } else {
        lookup_group(groups.drop_first(), key)
    }
}

/// Index of the first group with label `key`.
pub open spec fn group_index(groups: Seq<(Seq<char>, Seq<AnnotationView>)>, key: Seq<char>) -> Option<
    nat,
>
    decreases groups.len(),
{
    if groups.len() == 0 {
        None
    } else if groups[0].0 == key {
        Some(0)
    } else {
        match group_index(groups.drop_first(), key) {
            Some(i) => Some(i + 1),
            None => None,
        }
    }
}

/// The annotations grouped by the label they stand for: one group per label,
/// in the order in which the labels first occur, each group holding its
/// annotations in their order.
pub open spec fn group_annotations(labels: Seq<LabelView>, anns: Seq<AnnotationView>) -> Seq<
    (Seq<char>, Seq<AnnotationView>),
>
    decreases anns.len(),
{
    if anns.len() == 0 {
        Seq::empty()
    } else {
        let g = group_annotations(labels, anns.drop_last());
        let a = anns.last();
        let k = canonical_label(labels, a.label);
        match group_index(g, k) {
            Some(i) => g.update(i as int, (k, g[i as int].1.push(a))),
            None => g.push((k, seq![a])),
        }
    }
}

/// No two groups have the same label.
pub open spec fn distinct_keys(groups: Seq<(Seq<char>, Seq<AnnotationView>)>) -> bool {
    forall|i: int, j: int|
        0 <= i < groups.len() && 0 <= j < groups.len() && i != j ==> #[trigger] groups[i].0
            != #[trigger] groups[j].0
}

/// A label and the annotations that stand for it.
#[derive(Debug)]
pub struct LabelGroup {
    /// The canonical label.
    pub label: String,
    /// Its annotations, in the order in which they were found.
    pub annotations: Vec<Annotation>,
}

/// The views of a list of groups.
pub open spec fn groups_view(groups: Seq<LabelGroup>) -> Seq<(Seq<char>, Seq<AnnotationView>)> {
    groups.map_values(|g: LabelGroup| (g.label@, annotations_view(g.annotations@)))
}

proof fn lemma_group_index(groups: Seq<(Seq<char>, Seq<AnnotationView>)>, key: Seq<char>, k: int)
    requires
        0 <= k <= groups.len(),
        forall|i: int| 0 <= i < k ==> #[trigger] groups[i].0 != key,
    ensures
        k < groups.len() && groups[k].0 == key ==> group_index(groups, key) == Some(k as nat)
            && lookup_group(groups, key) == Some(groups[k].1),
        k == groups.len() ==> group_index(groups, key) is None && lookup_group(groups, key) is None,
    decreases k,
{
    if k > 0 {
        let t = groups.drop_first();
        assert forall|i: int| 0 <= i < k - 1 implies #[trigger] t[i].0 != key by {
            assert(t[i] == groups[i + 1]);
        }
        lemma_group_index(t, key, k - 1);
    }
}

proof fn lemma_group_index_found(groups: Seq<(Seq<char>, Seq<AnnotationView>)>, key: Seq<char>)
    ensures
        group_index(groups, key) matches Some(i) ==> i < groups.len() && groups[i as int].0 == key
            && forall|j: int| 0 <= j < i ==> #[trigger] groups[j].0 != key,
        group_index(groups, key) is None ==> forall|j: int|
            0 <= j < groups.len() ==> #[trigger] groups[j].0 != key,
        lookup_group(groups, key) == match group_index(groups, key) {
            Some(i) => Some(groups[i as int].1),
            None => None,
        },
    decreases groups.len(),
{
    if groups.len() > 0 && groups[0].0 != key {
        let t = groups.drop_first();
        lemma_group_index_found(t, key);
        assert forall|j: int| 0 <= j < groups.len() && #[trigger] groups[j].0 == key implies j > 0
            && t[j - 1].0 == key by {
            assert(t[j - 1] == groups[j]);
        }
    }
}

/// The groups have distinct labels, and the group of every label is exactly
/// the annotations that stand for it: a lookup gives them when there are any,
/// and nothing otherwise.
pub proof fn lemma_group_annotations(labels: Seq<LabelView>, anns: Seq<AnnotationView>)
    ensures
        distinct_keys(group_annotations(labels, anns)),
        forall|key: Seq<char>|
            #[trigger] lookup_group(group_annotations(labels, anns), key) == if group_members(
                labels,
                anns,
                key,
            ).len() > 0 {
                Some(group_members(labels, anns, key))
            } else {
                None::<Seq<AnnotationView>>
            },
    decreases anns.len(),
{
    if anns.len() > 0 {
        let rest = anns.drop_last();
        lemma_group_annotations(labels, rest);
        let g = group_annotations(labels, rest);
        let a = anns.last();
        let k = canonical_label(labels, a.label);
        let ng = group_annotations(labels, anns);
        lemma_group_index_found(g, k);
        match group_index(g, k) {
            Some(i) => {
                assert(ng == g.update(i as int, (k, g[i as int].1.push(a))));
                assert forall|x: int, y: int|
                    0 <= x < ng.len() && 0 <= y < ng.len() && x != y implies #[trigger] ng[x].0
                    != #[trigger] ng[y].0 by {
                    assert(ng[x].0 == g[x].0);
                    assert(ng[y].0 == g[y].0);
                }
                assert forall|key: Seq<char>|
                    #[trigger] lookup_group(ng, key) == if group_members(labels, anns, key).len()
                        > 0 {
                        Some(group_members(labels, anns, key))
                    } else {
                        None::<Seq<AnnotationView>>
                    } by {
                    lemma_group_index_found(g, key);
                    lemma_group_index_found(ng, key);
                    assert(lookup_group(g, key) == if group_members(labels, rest, key).len() > 0 {
                        Some(group_members(labels, rest, key))
                    } else {
                        None::<Seq<AnnotationView>>
                    });
                    if key == k {
                        lemma_group_index(ng, key, i as int);
                    } else {
                        match group_index(g, key) {
                            Some(j) => {
                                lemma_group_index(ng, key, j as int);
                            },
                            None => {
                                lemma_group_index(ng, key, ng.len() as int);
                            },
                        }
                    }
                }
            },
            None => {
                assert(ng == g.push((k, seq![a])));
                assert forall|x: int, y: int|
                    0 <= x < ng.len() && 0 <= y < ng.len() && x != y implies #[trigger] ng[x].0
                    != #[trigger] ng[y].0 by {
                    if x < g.len() && y < g.len() {
                        assert(ng[x].0 == g[x].0);
                        assert(ng[y].0 == g[y].0);
                    } else if x < g.len() {
                        assert(ng[x].0 == g[x].0);
                    } else {
                        assert(ng[y].0 == g[y].0);
                    }
                }
                assert forall|key: Seq<char>|
                    #[trigger] lookup_group(ng, key) == if group_members(labels, anns, key).len()
                        > 0 {
                        Some(group_members(labels, anns, key))
                    } else {
                        None::<Seq<AnnotationView>>
                    } by {
                    lemma_group_index_found(g, key);
                    assert(lookup_group(g, key) == if group_members(labels, rest, key).len() > 0 {
                        Some(group_members(labels, rest, key))
                    } else {
                        None::<Seq<AnnotationView>>
                    });
                    if key == k {
                        assert(forall|j: int| 0 <= j < g.len() ==> #[trigger] ng[j] == g[j]);
                        lemma_group_index(ng, key, g.len() as int);
                        assert(group_members(labels, rest, key).len() == 0);
                        assert(group_members(labels, anns, key) =~= seq![a]);
                    } else {
                        match group_index(g, key) {
                            Some(j) => {
                                lemma_group_index(ng, key, j as int);
                            },
                            None => {
                                assert(forall|j: int| 0 <= j < g.len() ==> #[trigger] ng[j] == g[j]);
                                lemma_group_index(ng, key, ng.len() as int);
                            },
                        }
                    }
                }
            },
        }
    }
}

/// A word that a label lists among its aliases stands for that label, unless
/// a later label of the configuration lists it too.
pub proof fn lemma_alias_stands_for_label(labels: Seq<LabelView>, i: int, w: Seq<char>)
    requires
        0 <= i < labels.len(),
        labels[i].alias.contains(w),
        forall|j: int| i < j < labels.len() ==> !(#[trigger] labels[j].alias).contains(w),
    ensures
        canonical_label(labels, w) == labels[i].label,
    decreases labels.len(),
{
    if i < labels.len() - 1 {
        let t = labels.drop_last();
        assert forall|j: int| i < j < t.len() implies !(#[trigger] t[j].alias).contains(w) by {
            assert(t[j] == labels[j]);
        }
        assert(!labels[labels.len() - 1].alias.contains(w));
        lemma_alias_stands_for_label(t, i, w);
    }
}

/// A word that no label lists stands for itself.
pub proof fn lemma_unlisted_word_stands_for_itself(labels: Seq<LabelView>, w: Seq<char>)
    requires
        forall|j: int| 0 <= j < labels.len() ==> !(#[trigger] labels[j].alias).contains(w),
    ensures
        canonical_label(labels, w) == w,
    decreases labels.len(),
{
    if labels.len() > 0 {
        let t = labels.drop_last();
        assert forall|j: int| 0 <= j < t.len() implies !(#[trigger] t[j].alias).contains(w) by {
            assert(t[j] == labels[j]);
        }
        assert(!labels[labels.len() - 1].alias.contains(w));
        lemma_unlisted_word_stands_for_itself(t, w);
    }
}

/// Whether `l` is among the strings of `v`.
pub fn contains_string(v: &Vec<String>, l: &String) -> (res: bool)
    ensures
        res == strings_view(v@).contains(l@),
{
    let ghost sv = strings_view(v@);
    for i in 0..v.len()
        invariant
            sv == strings_view(v@),
            forall|j: int| 0 <= j < i ==> sv[j] != l@,
    {
        if v[i] == *l {
            assert(sv[i as int] == l@);
            return true;
        }
    }
    assert forall|x: Seq<char>| #[trigger] sv.contains(x) implies x != l@ by {
        let j = choose|j: int| 0 <= j < sv.len() && sv[j] == x;
        assert(sv[j] != l@);
    }
    false
}

/// The label that the word `label` stands for.
pub fn canonical_label_of(labels: &Vec<LabelDefinition>, label: &String) -> (res: String)
    ensures
        res@ == canonical_label(labels_view(labels@), label@),
{
    let mut i = labels.len();
    let ghost lv = labels_view(labels@);
    assert(lv.take(i as int) =~= lv);
    while i > 0
        invariant
            i <= labels.len(),
            lv == labels_view(labels@),
            canonical_label(lv, label@) == canonical_label(lv.take(i as int), label@),
        decreases i,
    {
        let ghost t = lv.take(i as int);
        assert(t.drop_last() =~= lv.take(i - 1));
        assert(t.last() == labels@[i - 1]@);
        if contains_string(&labels[i - 1].alias, label) {
            return labels[i - 1].label.clone();
        }
        i -= 1;
    }
    label.clone()
}

/// Index of the group of `key` in `groups`.
fn find_group(groups: &Vec<LabelGroup>, key: &String) -> (res: Option<usize>)
    ensures
        res == match group_index(groups_view(groups@), key@) {
            Some(i) => Some(i as usize),
            None => None::<usize>,
        },
        res matches Some(i) ==> i < groups.len(),
{
    let ghost gv = groups_view(groups@);
    for i in 0..groups.len()
        invariant
            gv == groups_view(groups@),
            forall|j: int| 0 <= j < i ==> #[trigger] gv[j].0 != key@,
    {
        if groups[i].label == *key {
            proof {
                lemma_group_index(gv, key@, i as int);
            }
            return Some(i);
        }
    }
    proof {
        lemma_group_index(gv, key@, gv.len() as int);
    }
    None
}

/// Groups the annotations by the label they stand for, resolving aliases
/// through the configuration.
///
/// The result lists each label once, in the order in which it first occurs;
/// the group of a label holds exactly the annotations that stand for it, in
/// their order.
pub fn hashmap_annotations(config: &Config, annotations: &[Annotation]) -> (res: Vec<LabelGroup>)
    ensures
        groups_view(res@) == group_annotations(config@.labels, annotations_view(annotations@)),
        distinct_keys(groups_view(res@)),
        forall|key: Seq<char>|
            #[trigger] lookup_group(groups_view(res@), key) == if group_members(
                config@.labels,
                annotations_view(annotations@),
                key,
            ).len() > 0 {
                Some(group_members(config@.labels, annotations_view(annotations@), key))
            } else {
                None::<Seq<AnnotationView>>
            },
{
    let ghost lv = config@.labels;
    let ghost av = annotations_view(annotations@);
    let mut groups: Vec<LabelGroup> = Vec::new();
    for i in 0..annotations.len()
        invariant
            lv == config@.labels,
            av == annotations_view(annotations@),
            groups_view(groups@) == group_annotations(lv, av.take(i as int)),
    {
        let a = &annotations[i];
        let key = canonical_label_of(&config.labels, &a.label);
        let ghost g = groups_view(groups@);
        proof {
            assert(av.take(i + 1).drop_last() =~= av.take(i as int));
            assert(av.take(i + 1).last() == a@);
            lemma_group_index_found(g, key@);
        }
        match find_group(&groups, &key) {
            Some(j) => {
                let mut grp = groups.remove(j);
                grp.annotations.push(a.duplicate());
                groups.insert(j, grp);
                proof {
                    assert(annotations_view(grp.annotations@) =~= g[j as int].1.push(a@));
                    assert(groups_view(groups@) =~= g.update(j as int, (key@, g[j as int].1.push(a@))));
                }
            },
            None => {
                let mut anns: Vec<Annotation> = Vec::new();
                anns.push(a.duplicate());
                groups.push(LabelGroup { label: key, annotations: anns });
                proof {
                    assert(annotations_view(anns@) =~= seq![a@]);
                    assert(groups_view(groups@) =~= g.push((key@, seq![a@])));
                }
            },
        }
    }
    proof {
        assert(av.take(annotations.len() as int) =~= av);
        lemma_group_annotations(lv, av);
    }
    groups
}

/// The last component of `path` as `std::path::Path::file_name` gives it:
/// `None` when the path ends in `..` or has no components.
pub uninterp spec fn spec_path_file_name(path: Seq<char>) -> Option<Seq<char>>;

/// Calls `std::path::Path::file_name` on `path`. The contract names the
/// result; what a path's last component is (which separators count, how `.`
/// and `..` are treated) is left to `std`.
#[verifier::external_body]
fn path_file_name(path: &str) -> (res: Option<String>)
    ensures
        match res {
            Some(n) => spec_path_file_name(path@) == Some(n@),
            None => spec_path_file_name(path@) is None,
        },
{
    match std::path::Path::new(path).file_name() {
        Some(n) => Some(n.to_string_lossy().into_owned()),
        None => None,
    }
}

/// The project's name: the last component of the root path, or `Project`.
pub open spec fn project_name(root: Seq<char>) -> Seq<char> {
    match spec_path_file_name(root) {
        Some(n) => n,
        None => seq!['P', 'r', 'o', 'j', 'e', 'c', 't'],
    }
}

/// The project's name: the last component of `root`, or `Project` when it has none.
pub fn project_name_from_root(root: &str) -> (res: String)
    ensures
        res@ == project_name(root@),
{
    match path_file_name(root) {
        Some(n) => n,
        None => {
            let fallback = "Project";
            proof {
                reveal_strlit("Project");
            }
            assert(fallback@ =~= seq!['P', 'r', 'o', 'j', 'e', 'c', 't']);
            String::from_str(fallback)
        },
    }
}

/// The annotations of the group of `key`, if there is one.
pub fn get_group<'a>(groups: &'a Vec<LabelGroup>, key: &String) -> (res: Option<&'a Vec<Annotation>>)
    ensures
        match res {
            Some(v) => lookup_group(groups_view(groups@), key@) == Some(annotations_view(v@)),
            None => lookup_group(groups_view(groups@), key@) is None,
        },
{
    let ghost gv = groups_view(groups@);
    proof {
        lemma_group_index_found(gv, key@);
    }
    match find_group(groups, key) {
        Some(i) => Some(&groups[i].annotations),
        None => None,
    }
}

} // verus!
