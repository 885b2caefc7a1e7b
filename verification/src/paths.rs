//! Path arithmetic on plain strings.
//!
//! Paths are kept as `String`s. What a path operation yields is computed by
//! the `camino`, `pathdiff` and `std::path` implementations; the functions in
//! this module call them, and each result is given a name that the contracts
//! of the rest of the library are stated over. None of them touches the file
//! system.

use vstd::prelude::*;

verus! {

/// The kind of one component of a path.
#[derive(Clone, Copy, Debug, PartialEq, Eq)]
pub enum Part {
    /// A drive or share prefix.
    Prefix,
    /// The root directory.
    RootDir,
    /// A reference to the current directory, `.`.
    CurDir,
    /// A reference to the parent directory, `..`.
    ParentDir,
    /// An ordinary name.
    Normal,
}

/// The view of an optional string.
pub open spec fn opt_view(s: Option<String>) -> Option<Seq<char>> {
    match s {
        Some(s) => Some(s@),
        None => None,
    }
}

/// The path without its final component, as `camino::Utf8Path::parent` gives it.
pub uninterp spec fn parent_of(path: Seq<char>) -> Option<Seq<char>>;

/// The final component of the path, as `camino::Utf8Path::file_name` gives it.
pub uninterp spec fn file_name_of(path: Seq<char>) -> Option<Seq<char>>;

/// `path` adjoined to `base`, as `camino::Utf8Path::join` gives it.
pub uninterp spec fn joined(base: Seq<char>, path: Seq<char>) -> Seq<char>;

/// The relative path that leads from the directory `base` to `path`, as
/// `pathdiff::diff_paths` gives it.
pub uninterp spec fn relative_to(path: Seq<char>, base: Seq<char>) -> Option<Seq<char>>;

/// The kinds of the components of the path, as `std::path::Path::components`
/// yields them.
pub uninterp spec fn parts_of(path: Seq<char>) -> Seq<Part>;

/// Calls `camino::Utf8Path::parent`. The contract only names the result:
/// the directory part of `path`, or `None` where the path ends in a root or
/// is empty.
#[verifier::external_body]
pub(crate) fn parent(path: &str) -> (res: Option<String>)
    ensures
        opt_view(res) == parent_of(path@),
{
    camino::Utf8Path::new(path).parent().map(|p| p.as_str().to_owned())
}

/// Calls `camino::Utf8Path::file_name`. The contract only names the result:
/// the last component of `path`, or `None` where there is none.
#[verifier::external_body]
pub(crate) fn file_name(path: &str) -> (res: Option<String>)
    ensures
        opt_view(res) == file_name_of(path@),
{
    camino::Utf8Path::new(path).file_name().map(|n| n.to_owned())
}

/// Calls `camino::Utf8Path::join`. The contract only names the result.
#[verifier::external_body]
pub(crate) fn join(base: &str, path: &str) -> (res: String)
    ensures
        res@ == joined(base@, path@),
{
    camino::Utf8Path::new(base).join(path).into_string()
}

/// Calls `pathdiff::diff_paths`. The contract only names the result: the
/// relative path from `base` to `path`, or `None` where the two cannot be
/// compared.
#[verifier::external_body]
pub(crate) fn relative(path: &str, base: &str) -> (res: Option<String>)
    ensures
        opt_view(res) == relative_to(path@, base@),
{
    pathdiff::diff_paths(path, base).and_then(|p| p.into_os_string().into_string().ok())
}

/// Calls `std::path::Path::components` and keeps the kind of each component.
/// The contract only names the result.
#[verifier::external_body]
pub(crate) fn parts(path: &str) -> (res: Vec<Part>)
    ensures
        res@ == parts_of(path@),
{
    std::path::Path::new(path).components().map(|c| match c {
        std::path::Component::Prefix(_) => Part::Prefix,
        std::path::Component::RootDir => Part::RootDir,
        std::path::Component::CurDir => Part::CurDir,
        std::path::Component::ParentDir => Part::ParentDir,
        std::path::Component::Normal(_) => Part::Normal,
    }).collect()
}

} // verus!
