//! Filesystem path types of std, carried through the library as opaque values.

use vstd::prelude::*;
use std::path::{Path, PathBuf};

verus! {

/// std's owned path type.
#[verifier::external_type_specification]
#[verifier::external_body]
pub struct ExPathBuf(PathBuf);

/// std's borrowed path type.
#[verifier::external_type_specification]
#[verifier::external_body]
pub struct ExPath(Path);

/// std's I/O error type.
#[verifier::external_type_specification]
#[verifier::external_body]
pub struct ExIoError(std::io::Error);

/// `PathBuf::clone`: nothing is claimed of the copy.
pub assume_specification[ <PathBuf as Clone>::clone ](p: &PathBuf) -> PathBuf;

/// The owned path that `Path::to_path_buf` makes of a path.
pub uninterp spec fn owned_path(p: &Path) -> PathBuf;

/// The path that `PathBuf::as_path` borrows from an owned path.
pub uninterp spec fn borrowed_path(p: &PathBuf) -> &Path;

/// Calls `Path::to_path_buf`: the copy is named by the path it was made
/// from, and borrowing it back gives that same path.
#[verifier::external_body]
pub(crate) fn path_to_path_buf(p: &Path) -> (r: PathBuf)
    ensures
        r == owned_path(p),
        borrowed_path(&r) == p,
{
    p.to_path_buf()
}

/// Calls `PathBuf::as_path`: the borrowed path is named by the owned path.
#[verifier::external_body]
pub(crate) fn path_buf_as_path(p: &PathBuf) -> (r: &Path)
    ensures
        r == borrowed_path(p),
{
    p.as_path()
}

/// Whether std's `==` holds of two paths: it compares them component by
/// component, so `a/b`, `a//b`, `a/./b` and `a/b/` are all the same path.
pub uninterp spec fn same_path(a: PathBuf, b: PathBuf) -> bool;

/// Calls `<PathBuf as PartialEq>::eq`: the result is named by the two paths,
/// and a path is the same path as itself (`PathBuf` is `Eq`).
#[verifier::external_body]
pub(crate) fn path_eq(a: &PathBuf, b: &PathBuf) -> (r: bool)
    ensures
        r == same_path(*a, *b),
        *a == *b ==> r,
{
    a == b
}

} // verus!
