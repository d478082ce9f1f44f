//! File paths, as `std::path::Path` treats them.

use vstd::prelude::*;

use crate::model::{annotations_view, Annotation, AnnotationView};

verus! {

/// The order of two paths as `std::path::Path` compares them (component by
/// component): -1, 0 or 1.
pub uninterp spec fn spec_path_order(a: Seq<char>, b: Seq<char>) -> int;

/// Compares two paths with `Ord` for `std::path::Path`. The contract names
/// the result, and states what `Ord` requires of a total order: the result is
/// -1, 0 or 1; swapping the paths negates it; a path before (or equal to) `a`
/// is before `b` when `a` is before `b`; and paths that compare equal compare
/// alike with every other path. How components are split and compared is
/// left to `std`.
#[verifier::external_body]
pub(crate) fn path_order(a: &str, b: &str) -> (res: i8)
    ensures
        res == spec_path_order(a@, b@),
        -1 <= res <= 1,
        spec_path_order(b@, a@) == -res,
        forall|c: Seq<char>| res < 0 && #[trigger] spec_path_order(c, a@) <= 0 ==> spec_path_order(c, b@) < 0,
        forall|c: Seq<char>| res == 0 ==> #[trigger] spec_path_order(c, a@) == spec_path_order(c, b@),
{
    match std::path::Path::new(a).cmp(std::path::Path::new(b)) {
        std::cmp::Ordering::Less => -1,
        std::cmp::Ordering::Equal => 0,
        std::cmp::Ordering::Greater => 1,
    }
}

/// `path` relative to `base`, as `std::path::Path::strip_prefix` gives it:
/// `None` when `base` is not a prefix of `path` component by component.
pub uninterp spec fn spec_path_strip_prefix(path: Seq<char>, base: Seq<char>) -> Option<Seq<char>>;

/// Calls `std::path::Path::strip_prefix`. The contract names the result; what
/// counts as a prefix (components, separators, `.`) is left to `std`.
#[verifier::external_body]
pub(crate) fn path_strip_prefix(path: &str, base: &str) -> (res: Option<String>)
    ensures
        match res {
            Some(r) => spec_path_strip_prefix(path@, base@) == Some(r@),
            None => spec_path_strip_prefix(path@, base@) is None,
        },
{
    match std::path::Path::new(path).strip_prefix(base) {
        Ok(p) => Some(p.to_string_lossy().into_owned()),
        Err(_) => None,
    }
}

/// The file of an item relative to the root, when the root is a prefix of it
/// (as `Path::strip_prefix` decides); the file itself otherwise.
pub open spec fn relative_file(root: Seq<char>, file: Seq<char>) -> Seq<char> {
    match spec_path_strip_prefix(file, root) {
        Some(r) => r,
        None => file,
    }
}

/// An annotation with its file shown relative to the root.
pub open spec fn relative_item(root: Seq<char>, a: AnnotationView) -> AnnotationView {
    AnnotationView { file: relative_file(root, a.file), ..a }
}

/// Annotations with their files shown relative to the root.
pub open spec fn relative_items(root: Seq<char>, s: Seq<AnnotationView>) -> Seq<AnnotationView> {
    s.map_values(|a: AnnotationView| relative_item(root, a))
}

/// The annotations with their files made relative to `root` where `root` is
/// a prefix of them.
pub fn relative_annotations(root: &str, annotations: &[Annotation]) -> (res: Vec<Annotation>)
    ensures
        annotations_view(res@) == relative_items(root@, annotations_view(annotations@)),
{
    let ghost av = annotations_view(annotations@);
    let mut res: Vec<Annotation> = Vec::new();
    for i in 0..annotations.len()
        invariant
            av == annotations_view(annotations@),
            annotations_view(res@) == relative_items(root@, av.take(i as int)),
    {
        let a = &annotations[i];
        let file = match path_strip_prefix(a.file.as_str(), root) {
            Some(r) => r,
            None => a.file.clone(),
        };
        let ghost prev = res@;
        res.push(Annotation { file, line: a.line, label: a.label.clone(), content: a.content.clone() });
        proof {
            assert(av.take(i + 1) =~= av.take(i as int).push(a@));
            assert(annotations_view(res@) =~= annotations_view(prev).push(relative_item(root@, a@)));
            assert(relative_items(root@, av.take(i + 1)) =~= relative_items(root@, av.take(i as int)).push(
                relative_item(root@, a@),
            ));
        }
    }
    assert(av.take(annotations.len() as int) =~= av);
    res
}

} // verus!
