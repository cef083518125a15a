//! Path algebra borrowed from `std::path`.
//!
//! Paths travel through the library as strings. How a path splits into
//! components is the platform's business, so each operation is a call into
//! `std::path` whose result is given a name; the rest of the library states
//! its contracts over those names.

use std::path::Path;
use std::path::PathBuf;
use vstd::prelude::*;

verus! {

/// What `Path::parent` returns for `path`: the path without its final
/// component, or `None` where there is no such component to drop.
pub uninterp spec fn path_parent(path: Seq<char>) -> Option<Seq<char>>;

/// What `PathBuf::push` leaves in a buffer that held `base` after `rel` was
/// pushed onto it.
pub uninterp spec fn path_join(base: Seq<char>, rel: Seq<char>) -> Seq<char>;

/// Whether `Path` equality holds between `a` and `b`, which compares the two
/// component by component.
pub uninterp spec fn path_same(a: Seq<char>, b: Seq<char>) -> bool;

/// What `Path::file_name` returns for `path`: its final component where that
/// is a normal one.
pub uninterp spec fn path_file_name(path: Seq<char>) -> Option<Seq<char>>;

/// The components that `Path::iter` yields for `path`, in order.
pub uninterp spec fn path_components(path: Seq<char>) -> Seq<Seq<char>>;

/// Whether `Path::starts_with` holds: `base` is a prefix of `path`, taken
/// component by component.
pub uninterp spec fn path_starts_with(path: Seq<char>, base: Seq<char>) -> bool;

/// Calls `Path::parent`. Trusted: the result is `path_parent` of the
/// argument, with `None` carried over as `None`.
#[verifier::external_body]
pub(crate) fn parent_of(path: &str) -> (parent: Option<String>)
    ensures
        match parent {
            Some(p) => path_parent(path@) == Some(p@),
            None => path_parent(path@) is None,
        },
{
    Path::new(path).parent().map(|p| p.to_string_lossy().into_owned())
}

/// Calls `PathBuf::push` on a buffer made from `base`. Trusted: the buffer
/// then holds `path_join` of the two arguments.
#[verifier::external_body]
pub(crate) fn join(base: &str, rel: &str) -> (joined: String)
    ensures
        joined@ == path_join(base@, rel@),
{
    let mut buffer = PathBuf::from(base);
    buffer.push(rel);
    buffer.to_string_lossy().into_owned()
}

/// Calls `Path::eq`. Trusted: the result is `path_same` of the two
/// arguments.
#[verifier::external_body]
pub(crate) fn same(a: &str, b: &str) -> (equal: bool)
    ensures
        equal == path_same(a@, b@),
{
    Path::new(a).eq(Path::new(b))
}

/// Calls `Path::file_name`. Trusted: the result is `path_file_name` of the
/// argument, with `None` carried over as `None`.
#[verifier::external_body]
pub(crate) fn file_name_of(path: &str) -> (name: Option<String>)
    ensures
        match name {
            Some(n) => path_file_name(path@) == Some(n@),
            None => path_file_name(path@) is None,
        },
{
    Path::new(path).file_name().map(|n| n.to_string_lossy().into_owned())
}

/// Calls `Path::iter`. Trusted: the items it yields are `path_components` of
/// the argument, in the same order.
#[verifier::external_body]
pub(crate) fn components_of(path: &str) -> (parts: Vec<String>)
    ensures
        parts.deep_view() == path_components(path@),
{
    Path::new(path).iter().map(|c| c.to_string_lossy().into_owned()).collect()
}

/// Calls `Path::starts_with`. Trusted: the result is `path_starts_with` of
/// the two arguments.
#[verifier::external_body]
pub(crate) fn starts_with(path: &str, base: &str) -> (inside: bool)
    ensures
        inside == path_starts_with(path@, base@),
{
    Path::new(path).starts_with(Path::new(base))
}

} // verus!
