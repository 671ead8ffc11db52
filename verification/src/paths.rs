//! Path arithmetic on paths written as text, done by `std::path`.
//!
//! `std::path` splits a path into components with the separator rules of the
//! platform the crate is built for; the names below stand for what that
//! build's `std` gives, the text of each path taken as its characters.
use vstd::prelude::*;

verus! {

/// The text of `Path::parent` of the path written `p`: the path without its
/// last component, or `None` where `p` ends in a root or is empty.
pub uninterp spec fn parent_path(p: Seq<char>) -> Option<Seq<char>>;

/// The text of `Path::strip_prefix(p, base)`: what is left of `p` once the
/// leading components that make up `base` are taken off, or `None` where
/// `base` is not a prefix of `p` component by component.
pub uninterp spec fn stripped_path(p: Seq<char>, base: Seq<char>) -> Option<Seq<char>>;

/// The text of `Path::with_extension(p, ext)`: `p` with the extension of its
/// file name replaced by `ext` (or added).
pub uninterp spec fn path_with_extension(p: Seq<char>, ext: Seq<char>) -> Seq<char>;

/// Whether `Path::new(a) == Path::new(b)`, which compares the two paths
/// component by component.
pub uninterp spec fn same_path(a: Seq<char>, b: Seq<char>) -> bool;

/// Calls `std::path::Path::parent` on `p` and gives the result back as text.
/// The contract claims that the result is `parent_path` of `p`, and, as the
/// documentation of `parent` says, that an empty path has no parent.
#[verifier::external_body]
pub(crate) fn parent_of(p: &str) -> (r: Option<String>)
    ensures
        r.deep_view() == parent_path(p@),
        p@.len() == 0 ==> r is None,
{
    std::path::Path::new(p).parent().and_then(|q| q.to_str()).map(|q| q.to_string())
}

/// Calls `std::path::Path::strip_prefix` on `p` and `base` and gives the
/// result back as text. The contract claims that the result is
/// `stripped_path` of the two arguments.
#[verifier::external_body]
pub(crate) fn strip_path_prefix(p: &str, base: &str) -> (r: Option<String>)
    ensures
        r.deep_view() == stripped_path(p@, base@),
{
    std::path::Path::new(p).strip_prefix(base).ok().and_then(|q| q.to_str()).map(
        |q| q.to_string(),
    )
}

/// Whether `ext` holds no path separator on any platform that `std`
/// supports (neither `/` nor `\`): `Path::with_extension` panics on an
/// extension that holds a separator of the platform.
pub open spec fn no_separator(ext: Seq<char>) -> bool {
    !ext.contains('/') && !ext.contains('\\')
}

/// Tests whether `ext` can be given to `Path::with_extension`: it holds
/// neither `/` nor `\`.
pub fn is_extension(ext: &str) -> (b: bool)
    ensures
        b == no_separator(ext@),
{
    let chars = crate::text::chars_of(ext);
    let mut i: usize = 0;
    while i < chars.len()
        invariant
            chars@ == ext@,
            i <= chars.len(),
            forall|j: int| 0 <= j < i ==> ext@[j] != '/' && ext@[j] != '\\',
        decreases chars.len() - i,
    {
        if chars[i] == '/' || chars[i] == '\\' {
            assert(ext@[i as int] == chars@[i as int]);
            return false;
        }
        i = i + 1;
    }
    true
}

/// Calls `std::path::Path::with_extension` on `p` and `ext` and gives the
/// result back as text. The contract claims that the result is
/// `path_with_extension` of the two arguments. `with_extension` panics where
/// `ext` holds a path separator, so `ext` must hold none.
#[verifier::external_body]
pub(crate) fn with_extension(p: &str, ext: &str) -> (r: String)
    requires
        no_separator(ext@),
    ensures
        r@ == path_with_extension(p@, ext@),
{
    std::path::Path::new(p).with_extension(ext).to_string_lossy().into_owned()
}

/// Compares `Path::new(a)` and `Path::new(b)` with `==`. The contract claims
/// that the result is `same_path(a, b)`, and, since equal texts have equal
/// components, that equal texts are the same path.
#[verifier::external_body]
pub(crate) fn paths_equal(a: &str, b: &str) -> (r: bool)
    ensures
        r == same_path(a@, b@),
        a@ == b@ ==> r,
{
    std::path::Path::new(a) == std::path::Path::new(b)
}

} // verus!
