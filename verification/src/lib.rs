//! Lists every source file a build depends on, by scanning a directory tree
//! for compiler-generated `.d` dependency files, parsing each one, and
//! resolving symbolic links in the referenced paths to their real targets.
//!
//! The directory tree itself is a value of type [`fs_model::FileSystem`]: a
//! finite table from path strings to entries (directory listings, link
//! targets, file bytes). All navigation, link resolution and parsing is
//! verified against that table; turning a real on-disk tree into such a table
//! is left to the (unverified) caller.

use vstd::prelude::*;

pub mod dep_set;
pub mod file_navigation;
pub mod laws;
pub mod fs_model;
pub mod paths;

verus! {

/// From a directory, read all `.d` files and collect all the dependencies
/// listed in them, with every symbolic link resolved to its final target.
pub fn get_all_dependencies_from_dir(fs: &fs_model::FileSystem, dir_path: &str) -> (r: Result<
    dep_set::DepSet,
    DependencyListerError,
>)
    ensures
        match file_navigation::deps_result(fs@, dir_path@) {
            Ok(ps) => r matches Ok(s) && s@ == dep_set::insert_all(Seq::empty(), ps) && s.wf(),
            Err(e) => r matches Err(a) && a@ == e,
        },
{
    file_navigation::get_all_dependencies_from_dir(fs, dir_path)
}

/// Errors that the dependency listing can raise. Every one is fatal to the
/// whole listing: no partial result is returned.
#[derive(Debug, PartialEq, Eq)]
pub enum DependencyListerError {
    /// A file name or a line fragment is not valid text.
    UnsuportedFileEncoding(Vec<u8>),
    /// A file's contents cannot be read.
    UnableToRead(String),
    /// The metadata of a path (the link test) cannot be obtained.
    NotALink(String),
    /// There is an error manipulating a file name.
    UnsuportedFileName(String),
    /// A directory cannot be listed.
    DirectoryReadingError(String),
    /// A chain of symbolic links starting at this path revisits a link, so
    /// following it would never end.
    LinkCycleError(String),
}

/// The mathematical value of a [`DependencyListerError`]: the same variants
/// over sequences instead of allocated strings and vectors.
#[verifier::ext_equal]
pub enum ErrorView {
    UnsuportedFileEncoding(Seq<u8>),
    UnableToRead(Seq<char>),
    NotALink(Seq<char>),
    UnsuportedFileName(Seq<char>),
    DirectoryReadingError(Seq<char>),
    LinkCycleError(Seq<char>),
}

impl View for DependencyListerError {
    type V = ErrorView;

    open spec fn view(&self) -> ErrorView {
        match self {
            DependencyListerError::UnsuportedFileEncoding(b) => ErrorView::UnsuportedFileEncoding(
                b@,
            ),
            DependencyListerError::UnableToRead(s) => ErrorView::UnableToRead(s@),
            DependencyListerError::NotALink(s) => ErrorView::NotALink(s@),
            DependencyListerError::UnsuportedFileName(s) => ErrorView::UnsuportedFileName(s@),
            DependencyListerError::DirectoryReadingError(s) => ErrorView::DirectoryReadingError(
                s@,
            ),
            DependencyListerError::LinkCycleError(s) => ErrorView::LinkCycleError(s@),
        }
    }
}

} // verus!
