//! The typed errors that every operation of the engine reports.

use vstd::prelude::*;

verus! {

/// The kinds of failure an operation can end in.
#[derive(Clone, Copy, Debug, PartialEq, Eq, Structural)]
pub enum Error {
    /// The store holds bytes that are not a sound object of the expected kind,
    /// or two different contents met under one digest.
    Io,
    /// A referenced handle is absent from the store.
    NotFound,
    /// An absolute path does not lie under the repository root.
    PathOutsideRepo,
    /// A path holds an empty segment, `.`, `..` or starts at a filesystem root.
    PathInvalid,
    /// An addition would place an entry under something that is not a tree.
    PathShadowed,
    /// A file could not be opened after its fingerprint was taken.
    FileVanished,
    /// A commit was asked for while no candidate exists.
    NoCandidate,
    /// A commit would reproduce the subtree of the head and was not forced.
    NoChanges,
    /// An amendment was asked for in a repository without a head.
    NoParentToAmend,
    /// A snapshot was resolved that the cache did not issue.
    CacheInconsistent,
}

impl Error {
    /// A short human-readable message for this kind of failure.
    pub fn message(&self) -> (text: &'static str)
        ensures
            text@ == Self::message_of(*self),
    {
        match self {
            Error::Io => "The object store holds unreadable or conflicting data.",
            Error::NotFound => "A referenced object is missing from the store.",
            Error::PathOutsideRepo => "The path lies outside the repository.",
            Error::PathInvalid => "The path is not a valid repository path.",
            Error::PathShadowed => "The path lies below an entry that is not a tree.",
            Error::FileVanished => "File removed during processing!",
            Error::NoCandidate => "No virtual workspace to commit. Add some files to the virtual workspace first!",
            Error::NoChanges => "Previous commit is identical to virtual workspace! No changes will be committed - use --force to override.",
            Error::NoParentToAmend => "No previous commit to amend!",
            Error::CacheInconsistent => "The cache was handed a snapshot it did not issue.",
        }
    }

    /// The text that [`Error::message`] returns for each kind.
    pub open spec fn message_of(e: Error) -> Seq<char> {
        match e {
            Error::Io => "The object store holds unreadable or conflicting data."@,
            Error::NotFound => "A referenced object is missing from the store."@,
            Error::PathOutsideRepo => "The path lies outside the repository."@,
            Error::PathInvalid => "The path is not a valid repository path."@,
            Error::PathShadowed => "The path lies below an entry that is not a tree."@,
            Error::FileVanished => "File removed during processing!"@,
            Error::NoCandidate => "No virtual workspace to commit. Add some files to the virtual workspace first!"@,
            Error::NoChanges => "Previous commit is identical to virtual workspace! No changes will be committed - use --force to override."@,
            Error::NoParentToAmend => "No previous commit to amend!"@,
            Error::CacheInconsistent => "The cache was handed a snapshot it did not issue."@,
        }
    }
}

} // verus!
