//! The working directory, as the engine sees it: the files below the
//! repository root, each under its path relative to the root.
//!
//! A directory is there as long as a file lies below it, and need not be
//! listed; a directory in which nothing lies is seen only where it is
//! listed. The metadata directory of the repository is no part of it.

use crate::bytemap::ByteMap;
use vstd::prelude::*;

verus! {

/// What kind of file stands at a path, by its own metadata (a symbolic link
/// is not followed).
#[derive(Clone, Copy, Debug, PartialEq, Eq, Structural)]
pub enum FileKind {
    /// A regular file.
    Regular,
    /// A symbolic link.
    Symlink,
    /// A directory.
    Directory,
    /// Anything else: a socket, a pipe, a device.
    Other,
}

/// One file of the working directory.
#[derive(Debug)]
pub struct WorkFile {
    pub kind: FileKind,
    /// The permission bits.
    pub mode: u32,
    /// The content of a regular file; the target of a symbolic link;
    /// nothing for a directory.
    pub data: Vec<u8>,
}

/// The mathematical value of a `WorkFile`.
pub struct WorkFileView {
    pub kind: FileKind,
    pub mode: u32,
    pub data: Seq<u8>,
}

impl View for WorkFile {
    type V = WorkFileView;

    open spec fn view(&self) -> WorkFileView {
        WorkFileView { kind: self.kind, mode: self.mode, data: self.data@ }
    }
}

impl WorkFile {
    /// A copy of this file.
    pub fn duplicate(&self) -> (r: WorkFile)
        ensures
            r@ == self@,
    {
        WorkFile { kind: self.kind, mode: self.mode, data: self.data.clone() }
    }
}

/// The working directory: where it is, and the files in it.
pub struct Workspace {
    /// The absolute path of the repository root.
    pub root: Vec<u8>,
    /// The files, each under its path relative to the root.
    pub files: ByteMap<WorkFile>,
}

impl Workspace {
    /// The invariant of the working directory.
    pub open spec fn wf(&self) -> bool {
        self.files.wf()
    }

    /// A working directory at `root` without files.
    pub fn new(root: Vec<u8>) -> (ws: Self)
        ensures
            ws.wf(),
            ws.root@ == root@,
            ws.files@ == Map::<Seq<u8>, WorkFileView>::empty(),
    {
        Workspace { root, files: ByteMap::new() }
    }
}

/// The permission bits that make a file executable for its owner, its group
/// or anyone.
pub const EXECUTE_BITS: u32 = 0o111;

/// The permission bits given to an executable file that is written out.
pub const EXECUTABLE_MODE: u32 = 0o755;

/// The permission bits given to a regular file that is newly written out.
pub const REGULAR_MODE: u32 = 0o644;

/// The name of the metadata directory below the repository root: `.git`.
pub open spec fn git_dir_name() -> Seq<u8> {
    seq![46u8, 103u8, 105u8, 116u8]
}

/// The name of the metadata directory.
pub fn git_dir() -> (name: Vec<u8>)
    ensures
        name@ == git_dir_name(),
{
    let name: [u8; 4] = [46u8, 103u8, 105u8, 116u8];
    let v = vstd::slice::slice_to_vec(name.as_slice());
    assert(v@ =~= git_dir_name());
    v
}

} // verus!
