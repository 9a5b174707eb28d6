//! File-system paths as `std::path` reads them, and what the disk says about them.
use vstd::prelude::*;

verus! {

/// `std::path::Path::is_absolute` of a path.
pub uninterp spec fn absolute_path(p: Seq<char>) -> bool;

/// `std::path::Path::parent` of a path, as text.
pub uninterp spec fn path_parent(p: Seq<char>) -> Option<Seq<char>>;

/// `std::path::Path::join` of two paths, as text.
pub uninterp spec fn path_join(base: Seq<char>, rel: Seq<char>) -> Seq<char>;

/// `std::path::Path::extension` of a path, as text.
pub uninterp spec fn path_extension(p: Seq<char>) -> Option<Seq<char>>;

/// `std::path::Path::file_name` of a path, as text.
pub uninterp spec fn path_file_name(p: Seq<char>) -> Option<Seq<char>>;

/// `a < b` for two `std::path::Path`s: paths are ordered component by component.
pub uninterp spec fn path_before(a: Seq<char>, b: Seq<char>) -> bool;

/// `a == b` for two `std::path::Path`s: paths are equal when their components are.
pub uninterp spec fn path_equal(a: Seq<char>, b: Seq<char>) -> bool;

/// Calls `<` on two `Path`s. `PartialOrd` documents that `a < b` holds exactly when `b > a`,
/// so a path that comes before another never also comes after it; that is the one fact
/// stated of the order.
#[verifier::external_body]
pub(crate) fn precedes(a: &str, b: &str) -> (r: bool)
    ensures
        r == path_before(a@, b@),
        r ==> !path_before(b@, a@),
{
    std::path::Path::new(a) < std::path::Path::new(b)
}

/// Calls `==` on two `Path`s.
#[verifier::external_body]
pub(crate) fn same_path(a: &str, b: &str) -> (r: bool)
    ensures
        r == path_equal(a@, b@),
{
    std::path::Path::new(a) == std::path::Path::new(b)
}

/// Whether `path` names an existing directory (`Path::is_dir`); the answer depends on the
/// disk, so nothing is stated of it.
#[verifier::external_body]
pub(crate) fn directory_exists(path: &str) -> (b: bool) {
    std::path::Path::new(path).is_dir()
}

/// Whether something exists at `path` (`Path::exists`); the answer depends on the disk, so
/// nothing is stated of it.
#[verifier::external_body]
pub(crate) fn path_exists(path: &str) -> (b: bool) {
    std::path::Path::new(path).exists()
}

/// Calls `Path::is_absolute`.
#[verifier::external_body]
pub(crate) fn is_absolute(path: &str) -> (b: bool)
    ensures
        b == absolute_path(path@),
{
    std::path::Path::new(path).is_absolute()
}

/// Calls `Path::parent`; the text of the parent, if there is one.
#[verifier::external_body]
pub(crate) fn parent(path: &str) -> (r: Option<String>)
    ensures
        match r {
            Some(x) => path_parent(path@) == Some(x@),
            None => path_parent(path@) is None,
        },
{
    std::path::Path::new(path).parent().map(|p| p.to_string_lossy().into_owned())
}

/// Calls `Path::join`.
#[verifier::external_body]
pub(crate) fn join(base: &str, rel: &str) -> (r: String)
    ensures
        r@ == path_join(base@, rel@),
{
    std::path::Path::new(base).join(rel).to_string_lossy().into_owned()
}

/// Calls `Path::extension`.
#[verifier::external_body]
pub(crate) fn extension(path: &str) -> (r: Option<String>)
    ensures
        match r {
            Some(x) => path_extension(path@) == Some(x@),
            None => path_extension(path@) is None,
        },
{
    std::path::Path::new(path).extension().map(|e| e.to_string_lossy().into_owned())
}

/// Calls `Path::file_name`.
#[verifier::external_body]
pub(crate) fn file_name(path: &str) -> (r: Option<String>)
    ensures
        match r {
            Some(x) => path_file_name(path@) == Some(x@),
            None => path_file_name(path@) is None,
        },
{
    std::path::Path::new(path).file_name().map(|n| n.to_string_lossy().into_owned())
}

} // verus!
