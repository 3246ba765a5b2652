//! `FileHandle`: how a file's bytes are reached. For now it carries the path
//! and the length that was read when the file was opened.
use vstd::prelude::*;
use std::path::PathBuf;

verus! {

/// `std::path::PathBuf`, carried opaquely.
#[verifier::external_type_specification]
#[verifier::external_body]
pub struct ExPathBuf(std::path::PathBuf);

/// An opened file: its path and its length in bytes.
pub struct FileHandle {
    path: PathBuf,
    size: u64,
}

impl FileHandle {
    /// The length recorded for the file.
    pub closed spec fn recorded_size(&self) -> u64 {
        self.size
    }

    /// The path recorded for the file.
    pub closed spec fn recorded_path(&self) -> PathBuf {
        self.path
    }

    /// A handle for the file at `path`, whose length is `size` bytes (read
    /// from the file system by the caller).
    pub fn with_size(path: PathBuf, size: u64) -> (h: Self)
        ensures
            h.recorded_size() == size,
            h.recorded_path() == path,
    {
        FileHandle { path, size }
    }

    /// The file's path.
    pub fn path(&self) -> (p: &PathBuf)
        ensures
            *p == self.recorded_path(),
    {
        &self.path
    }

    /// The file's length in bytes.
    pub fn size(&self) -> (s: u64)
        ensures
            s == self.recorded_size(),
    {
        self.size
    }
}

} // verus!
