use vstd::prelude::*;

verus! {

/// What `std::path::Path::parent` gives for a path, as text: the path without its
/// final component, or `None` for a root, a prefix or the empty path.
pub uninterp spec fn path_parent(p: Seq<char>) -> Option<Seq<char>>;

/// What `std::path::Path::join` gives for a base and a relative part, as text.
pub uninterp spec fn path_join(base: Seq<char>, part: Seq<char>) -> Seq<char>;

/// `Path::parent`, converted back to text. Its result is named `path_parent`; how
/// components are split (separators, roots, prefixes) is platform-specific and not
/// stated.
#[verifier::external_body]
pub(crate) fn parent_of(p: &str) -> (r: Option<String>)
    ensures
        match r {
            Some(q) => path_parent(p@) == Some(q@),
            None => path_parent(p@) is None,
        },
{
    match std::path::Path::new(p).parent() {
        Some(q) => Some(q.to_string_lossy().to_string()),
        None => None,
    }
}

/// `Path::join`, converted back to text. Its result is named `path_join`; which
/// separator is put between the parts, and what an absolute part does, is
/// platform-specific and not stated.
#[verifier::external_body]
pub(crate) fn join_path(base: &str, part: &str) -> (r: String)
    ensures
        r@ == path_join(base@, part@),
{
    std::path::Path::new(base).join(part).to_string_lossy().to_string()
}

} // verus!
