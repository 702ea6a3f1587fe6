//! File records: what is known of one discovered file before it is indexed.

use vstd::prelude::*;

verus! {

/// One discovered file: its path, its size in bytes, and the path of the
/// directory that holds it.
#[derive(Clone, Debug, PartialEq, Eq)]
pub struct FileRecord {
    pub path: String,
    pub size: usize,
    pub directory: String,
}

/// A discovered file with what was read of it: the leading bytes of its
/// content, or nothing where the file could not be read.
#[derive(Clone, Debug, PartialEq, Eq)]
pub struct ScannedFile {
    pub record: FileRecord,
    pub content: Option<Vec<u8>>,
}

/// `std::path::Path::parent`, on a path given as text: the path without its
/// final component, where it has one. Which part that is depends on the
/// platform's path syntax, so nothing is claimed of the result.
#[verifier::external_body]
fn parent_of(path: &str) -> (parent: Option<String>) {
    match std::path::Path::new(path).parent() {
        Some(parent) => Some(String::from(parent.to_string_lossy())),
        None => None,
    }
}

/// The directory under which a file is filed, given the parent of its path:
/// the parent, or the empty path where there is none.
pub open spec fn directory_of(parent: Option<String>) -> Seq<char> {
    match parent {
        Some(directory) => directory@,
        None => Seq::<char>::empty(),
    }
}

impl FileRecord {
    /// The record of the file at `path` with `size` bytes, given the parent of
    /// the path; a path without a parent is filed under the empty directory.
    pub fn with_parent(path: &str, size: usize, parent: Option<String>) -> (record: FileRecord)
        ensures
            record.path@ == path@,
            record.size == size,
            record.directory@ == directory_of(parent),
    {
        let directory = match parent {
            Some(directory) => directory,
            None => String::new(),
        };
        FileRecord { path: path.to_owned(), size, directory }
    }

    /// The record of the file at `path` with `size` bytes, filed under the
    /// parent directory that the platform's path syntax gives.
    pub fn new(path: &str, size: usize) -> (record: FileRecord)
        ensures
            record.path@ == path@,
            record.size == size,
    {
        FileRecord::with_parent(path, size, parent_of(path))
    }
}

} // verus!
