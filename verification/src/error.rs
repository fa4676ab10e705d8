//! The ways in which an operation of the engine can fail.

use vstd::prelude::*;

verus! {

/// Why an operation was given up. An operation that returns one of these
/// has changed no reference, no index file and no working file.
#[derive(Clone, Copy, Debug, PartialEq, Eq, Structural)]
pub enum GitError {
    /// A path given by the user does not lie under the repository root.
    OutsideRepository,
    /// A checkout target that is neither a branch nor a commit.
    UnknownTarget,
    /// A directory was named where recursion was not asked for.
    DirectoryWithoutRecursion,
    /// A working file that is neither a regular file nor a symbolic link.
    UnsupportedFileType,
    /// The operation needs `HEAD` to be on a branch, and it is detached.
    DetachedHead,
    /// The working directory differs from the last commit.
    DirtyWorkspace,
    /// Two or more common ancestors are equally near to both tips.
    AmbiguousMergeBase,
    /// Two commits without any common ancestor.
    NoCommonAncestor,
    /// One commit lists a path twice, with different entries.
    InternalConflict,
    /// An object that is present but cannot be decoded.
    CorruptObject,
    /// An object that is referred to but absent.
    BrokenObject,
    /// `HEAD` holds neither a branch reference nor a commit id.
    MalformedHead,
    /// The index file cannot be decoded.
    MalformedIndex,
    /// A branch that is referred to but does not exist.
    UnknownBranch,
    /// A branch that was to be created exists already.
    BranchExists,
    /// A working file that is referred to but absent.
    MissingFile,
    /// An object, or the index, too large to be encoded on this machine.
    TooLarge,
    /// A working file stands where another was to be written.
    PathOccupied,
    /// A branch that was to be deleted is no ancestor of the current branch.
    NotAncestor,
    /// The current branch was to be deleted.
    CurrentBranch,
    /// A request that the command does not accept as given.
    InvalidArgument,
}

} // verus!
