//! The real filesystem beneath the overlay, as the dispatch layer uses it.

use vstd::prelude::*;
use crate::err::DispatchError;
use crate::node::FileKind;
use crate::path::VfsPath;

verus! {

/// An entry of a real directory: its name and file type.
pub struct RealDirEntry {
    pub name: String,
    pub file_type: FileKind,
}

/// A change to the real filesystem, by the views of its paths.
pub ghost enum FsCall {
    Write(Seq<Seq<char>>, Seq<char>),
    Rename(Seq<Seq<char>>, Seq<Seq<char>>),
    Unlink(Seq<Seq<char>>),
    Rmdir(Seq<Seq<char>>),
    CreateFile(Seq<Seq<char>>),
    Mkdir(Seq<Seq<char>>),
}

/// Access to the real files under the mount, by virtual path. What a
/// change returns depends on what is on disk; each change only promises
/// that its result is an outcome of that very change.
pub trait RealFs {
    /// `r` is an outcome the filesystem can give for the change `call`;
    /// unspecified for an implementation that does not describe it.
    closed spec fn spec_outcome(&self, call: FsCall, r: Result<(), DispatchError>) -> bool {
        arbitrary()
    }

    /// The entries of the directory `path`.
    fn read_dir(&self, path: &VfsPath) -> Result<Vec<RealDirEntry>, DispatchError>;

    /// Whether anything exists at `path`.
    fn path_exists(&self, path: &VfsPath) -> bool;

    /// Whether a directory exists at `path`.
    fn is_dir(&self, path: &VfsPath) -> bool;

    /// The file type of what exists at `path`.
    fn file_type(&self, path: &VfsPath) -> Result<FileKind, DispatchError>;

    /// Replace the content of the file `path` with the text `content`.
    fn write(&self, path: &VfsPath, content: &str) -> (r: Result<(), DispatchError>)
        ensures
            self.spec_outcome(FsCall::Write(path@, content@), r);

    /// Rename `from` to `to`.
    fn rename(&self, from: &VfsPath, to: &VfsPath) -> (r: Result<(), DispatchError>)
        ensures
            self.spec_outcome(FsCall::Rename(from@, to@), r);

    /// Remove the file `path`.
    fn unlink(&self, path: &VfsPath) -> (r: Result<(), DispatchError>)
        ensures
            self.spec_outcome(FsCall::Unlink(path@), r);

    /// Remove the empty directory `path`.
    fn rmdir(&self, path: &VfsPath) -> (r: Result<(), DispatchError>)
        ensures
            self.spec_outcome(FsCall::Rmdir(path@), r);

    /// Create the empty file `path`.
    fn create_file(&self, path: &VfsPath) -> (r: Result<(), DispatchError>)
        ensures
            self.spec_outcome(FsCall::CreateFile(path@), r);

    /// Create the directory `path`.
    fn mkdir(&self, path: &VfsPath) -> (r: Result<(), DispatchError>)
        ensures
            self.spec_outcome(FsCall::Mkdir(path@), r);
}

} // verus!
