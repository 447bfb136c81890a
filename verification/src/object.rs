//! The object model: typed references, blobs and commits.

use vstd::prelude::*;
use crate::digest::DIGEST_LEN;
use crate::digest::Digest;

verus! {

/// What a reference points at, so that a caller knows how to decode it.
#[derive(Clone, Copy, Debug, PartialEq, Eq, Structural)]
pub enum ObjectKind {
    /// A blob whose bytes are stored directly.
    SmallBlob,
    /// A blob stored as a flat list of small blobs.
    Blob,
    /// A tree.
    Tree,
    /// A commit.
    Commit,
}

/// A typed reference to an object in a store.
#[derive(Debug)]
pub struct ObjectRef {
    pub kind: ObjectKind,
    pub digest: Digest,
}

/// The mathematical value of an [`ObjectRef`].
pub struct ObjectRefView {
    pub kind: ObjectKind,
    pub digest: Seq<u8>,
}

impl View for ObjectRef {
    type V = ObjectRefView;

    open spec fn view(&self) -> ObjectRefView {
        ObjectRefView { kind: self.kind, digest: self.digest@ }
    }
}

impl ObjectRef {
    /// A reference of the given kind to the object with the given digest.
    pub fn new(kind: ObjectKind, digest: Digest) -> (r: ObjectRef)
        ensures
            r@ == (ObjectRefView { kind, digest: digest@ }),
    {
        ObjectRef { kind, digest }
    }

    /// A copy of this reference.
    pub fn duplicate(&self) -> (r: ObjectRef)
        ensures
            r@ == self@,
    {
        ObjectRef { kind: self.kind, digest: self.digest.duplicate() }
    }

    /// Whether two references are of one kind and hold one digest.
    pub fn same(&self, other: &ObjectRef) -> (b: bool)
        ensures
            b == (self@ == other@),
    {
        self.kind == other.kind && self.digest.same(&other.digest)
    }

    /// Whether this reference points at a tree.
    pub fn is_tree(&self) -> (b: bool)
        ensures
            b == (self.kind == ObjectKind::Tree),
    {
        self.kind == ObjectKind::Tree
    }
}

/// Whether a reference value holds a digest of the right width.
pub open spec fn ref_wf(r: ObjectRefView) -> bool {
    r.digest.len() == DIGEST_LEN
}

/// A blob object as it lies in a store: the bytes themselves, or the digests
/// of the small blobs whose contents, one after the other, are the bytes.
#[derive(Debug)]
pub enum Blob {
    Small(Vec<u8>),
    Large(Vec<Digest>),
}

/// The mathematical value of a [`Blob`].
pub enum BlobView {
    Small(Seq<u8>),
    Large(Seq<Seq<u8>>),
}

impl View for Blob {
    type V = BlobView;

    open spec fn view(&self) -> BlobView {
        match self {
            Blob::Small(data) => BlobView::Small(data@),
            Blob::Large(chunks) => BlobView::Large(digests_view(chunks@)),
        }
    }
}

/// The author of a commit.
#[derive(Debug)]
pub struct CommitAuthor {
    pub name: Option<String>,
    pub mbox: Option<String>,
}

/// The mathematical value of a [`CommitAuthor`].
pub struct CommitAuthorView {
    pub name: Option<Seq<char>>,
    pub mbox: Option<Seq<char>>,
}

/// The text of an optional string.
pub open spec fn text_view(t: Option<String>) -> Option<Seq<char>> {
    match t {
        Some(s) => Some(s@),
        None => None,
    }
}

impl View for CommitAuthor {
    type V = CommitAuthorView;

    open spec fn view(&self) -> CommitAuthorView {
        CommitAuthorView { name: text_view(self.name), mbox: text_view(self.mbox) }
    }
}

/// A copy of an optional string.
pub fn text_copy(t: &Option<String>) -> (r: Option<String>)
    ensures
        text_view(r) == text_view(*t),
{
    match t {
        Some(s) => Some(s.clone()),
        None => None,
    }
}

impl CommitAuthor {
    /// A copy of this author.
    pub fn duplicate(&self) -> (a: CommitAuthor)
        ensures
            a@ == self@,
    {
        CommitAuthor { name: text_copy(&self.name), mbox: text_copy(&self.mbox) }
    }
}

/// The view of an optional author.
pub open spec fn author_view(a: Option<CommitAuthor>) -> Option<CommitAuthorView> {
    match a {
        Some(x) => Some(x@),
        None => None,
    }
}

/// The views of a list of digests.
pub open spec fn digests_view(ds: Seq<Digest>) -> Seq<Seq<u8>> {
    ds.map_values(|d: Digest| d@)
}

/// A copy of a list of digests.
pub fn digests_copy(ds: &Vec<Digest>) -> (out: Vec<Digest>)
    ensures
        digests_view(out@) == digests_view(ds@),
{
    let mut out: Vec<Digest> = Vec::new();
    let mut i: usize = 0;
    while i < ds.len()
        invariant
            i <= ds@.len(),
            out@.len() == i,
            forall|j: int| 0 <= j < i ==> out@[j]@ == ds@[j]@,
        decreases ds@.len() - i,
    {
        out.push(ds[i].duplicate());
        i = i + 1;
    }
    assert(digests_view(out@) =~= digests_view(ds@));
    out
}

/// An immutable record that freezes a tree and links it to its parents.
#[derive(Debug)]
pub struct Commit {
    subtree: Digest,
    parents: Vec<Digest>,
    author: Option<CommitAuthor>,
    timestamp: u64,
    message: Option<String>,
}

/// The mathematical value of a [`Commit`].
pub struct CommitView {
    /// The digest of the tree that the commit freezes.
    pub subtree: Seq<u8>,
    /// The digests of the parent commits, in order; none for a root commit.
    pub parents: Seq<Seq<u8>>,
    pub author: Option<CommitAuthorView>,
    /// Seconds since the epoch at which the commit was made.
    pub timestamp: u64,
    pub message: Option<Seq<char>>,
}

impl View for Commit {
    type V = CommitView;

    closed spec fn view(&self) -> CommitView {
        CommitView {
            subtree: self.subtree@,
            parents: digests_view(self.parents@),
            author: author_view(self.author),
            timestamp: self.timestamp,
            message: text_view(self.message),
        }
    }
}

/// Whether a commit value holds digests of the right width only.
pub open spec fn commit_wf(c: CommitView) -> bool {
    &&& c.subtree.len() == DIGEST_LEN
    &&& forall|i: int| 0 <= i < c.parents.len() ==> (#[trigger] c.parents[i]).len() == DIGEST_LEN
}

impl Commit {
    /// The tree that this commit freezes.
    pub fn as_subtree(&self) -> (r: ObjectRef)
        ensures
            r@ == (ObjectRefView { kind: ObjectKind::Tree, digest: self@.subtree }),
    {
        ObjectRef { kind: ObjectKind::Tree, digest: self.subtree.duplicate() }
    }

    /// The digests of the parents, in order.
    pub fn as_parents(&self) -> (ps: &Vec<Digest>)
        ensures
            digests_view(ps@) == self@.parents,
    {
        &self.parents
    }

    /// The author, if one was recorded.
    pub fn as_author(&self) -> (a: &Option<CommitAuthor>)
        ensures
            author_view(*a) == self@.author,
    {
        &self.author
    }

    /// The moment of creation.
    pub fn as_timestamp(&self) -> (t: u64)
        ensures
            t == self@.timestamp,
    {
        self.timestamp
    }

    /// The message, if one was recorded.
    pub fn as_message(&self) -> (m: &Option<String>)
        ensures
            text_view(*m) == self@.message,
    {
        &self.message
    }

    /// Clones this commit back into its builder form, every field kept.
    pub fn diverge(&self) -> (b: CommitBuilder)
        ensures
            b@ == (CommitBuilderView {
                subtree: Some(self@.subtree),
                parents: self@.parents,
                author: self@.author,
                timestamp: self@.timestamp,
                message: self@.message,
            }),
    {
        CommitBuilder {
            subtree: Some(self.subtree.duplicate()),
            parents: digests_copy(&self.parents),
            author: match &self.author {
                Some(a) => Some(a.duplicate()),
                None => None,
            },
            timestamp: self.timestamp,
            message: text_copy(&self.message),
        }
    }

    /// Puts a commit together from its parts.
    pub(crate) fn assemble(
        subtree: Digest,
        parents: Vec<Digest>,
        author: Option<CommitAuthor>,
        timestamp: u64,
        message: Option<String>,
    ) -> (c: Commit)
        ensures
            c@ == (CommitView {
                subtree: subtree@,
                parents: digests_view(parents@),
                author: author_view(author),
                timestamp,
                message: text_view(message),
            }),
    {
        Commit { subtree, parents, author, timestamp, message }
    }
}

/// A commit in the making: every field can still be set.
#[derive(Debug)]
pub struct CommitBuilder {
    subtree: Option<Digest>,
    parents: Vec<Digest>,
    author: Option<CommitAuthor>,
    timestamp: u64,
    message: Option<String>,
}

/// The mathematical value of a [`CommitBuilder`].
pub struct CommitBuilderView {
    pub subtree: Option<Seq<u8>>,
    pub parents: Seq<Seq<u8>>,
    pub author: Option<CommitAuthorView>,
    pub timestamp: u64,
    pub message: Option<Seq<char>>,
}

impl View for CommitBuilder {
    type V = CommitBuilderView;

    closed spec fn view(&self) -> CommitBuilderView {
        CommitBuilderView {
            subtree: match self.subtree {
                Some(d) => Some(d@),
                None => None,
            },
            parents: digests_view(self.parents@),
            author: author_view(self.author),
            timestamp: self.timestamp,
            message: text_view(self.message),
        }
    }
}

impl CommitBuilder {
    /// A builder without subtree, parents, author or message, made at
    /// `timestamp`.
    pub fn new(timestamp: u64) -> (b: CommitBuilder)
        ensures
            b@ == (CommitBuilderView {
                subtree: None,
                parents: Seq::empty(),
                author: None,
                timestamp,
                message: None,
            }),
    {
        let b = CommitBuilder {
            subtree: None,
            parents: Vec::new(),
            author: None,
            timestamp,
            message: None,
        };
        assert(digests_view(b.parents@) =~= Seq::empty());
        b
    }

    /// Sets the tree that the commit freezes.
    pub fn subtree(&mut self, tree: Digest)
        ensures
            final(self)@ == (CommitBuilderView { subtree: Some(tree@), ..old(self)@ }),
    {
        self.subtree = Some(tree);
    }

    /// Replaces the parents.
    pub fn parents(&mut self, parents: Vec<Digest>)
        ensures
            final(self)@ == (CommitBuilderView {
                parents: digests_view(parents@),
                ..old(self)@
            }),
    {
        self.parents = parents;
    }

    /// Sets the author.
    pub fn author(&mut self, author: CommitAuthor)
        ensures
            final(self)@ == (CommitBuilderView { author: Some(author@), ..old(self)@ }),
    {
        self.author = Some(author);
    }

    /// Sets the moment of creation.
    pub fn timestamp(&mut self, timestamp: u64)
        ensures
            final(self)@ == (CommitBuilderView { timestamp, ..old(self)@ }),
    {
        self.timestamp = timestamp;
    }

    /// Sets the message.
    pub fn message(&mut self, message: String)
        ensures
            final(self)@ == (CommitBuilderView { message: Some(message@), ..old(self)@ }),
    {
        self.message = Some(message);
    }

    /// Freezes the builder. A commit needs a subtree: without one there is
    /// nothing to freeze.
    pub fn into_commit(self) -> (c: Option<Commit>)
        ensures
            c is Some <==> self@.subtree is Some,
            c matches Some(x) ==> x@ == (CommitView {
                subtree: self@.subtree->0,
                parents: self@.parents,
                author: self@.author,
                timestamp: self@.timestamp,
                message: self@.message,
            }),
    {
        match self.subtree {
            Some(subtree) => Some(
                Commit {
                    subtree,
                    parents: self.parents,
                    author: self.author,
                    timestamp: self.timestamp,
                    message: self.message,
                },
            ),
            None => None,
        }
    }
}

} // verus!
