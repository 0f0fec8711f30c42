//! What is told to whoever follows the work on a batch of archives.

use vstd::prelude::*;
use crate::error::SevenzError;
use crate::fs_tree::FsTree;
use crate::unzip::UnzipedArchiveStatus;

verus! {

/// The status of the extraction of the archive at a path.
#[derive(Debug, Clone)]
pub struct UnzipedArchiveEvent {
    pub path: String,
    pub status: UnzipedArchiveStatus,
}

/// That the archive at a path was deleted, or why it was not.
#[derive(Debug, Clone)]
pub struct DeletedArchiveEvent {
    pub path: String,
    pub error: Option<String>,
}

/// What was found in a file that was dropped onto the window.
#[derive(Debug)]
pub struct DragDropFileContents {
    pub path: String,
    pub result: Result<FsTree, SevenzError>,
}

impl UnzipedArchiveEvent {
    /// The event for a status of the archive at `path`.
    pub fn new(path: String, status: UnzipedArchiveStatus) -> (r: Self)
        ensures
            r.path == path,
            r.status == status,
    {
        UnzipedArchiveEvent { path, status }
    }
}

impl DeletedArchiveEvent {
    /// The event for the end of a deletion: it carries the complaint
    /// where there was one.
    pub fn new(path: String, result: Result<(), String>) -> (r: Self)
        ensures
            r.path == path,
            r.error == match result {
                Ok(_) => None,
                Err(e) => Some(e),
            },
    {
        match result {
            Ok(_) => DeletedArchiveEvent { path, error: None },
            Err(e) => DeletedArchiveEvent { path, error: Some(e) },
        }
    }
}

} // verus!
