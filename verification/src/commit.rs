//! Committing: how the candidate is frozen into a commit that becomes the
//! head.

use vstd::prelude::*;
use crate::digest::Digest;
use crate::error::Error;
use crate::hierarchy::ref_view;
use crate::object::CommitAuthor;
use crate::object::CommitAuthorView;
use crate::object::CommitBuilder;
use crate::object::CommitView;
use crate::object::ObjectKind;
use crate::object::ObjectRef;
use crate::object::ObjectRefView;
use crate::object::text_view;
use crate::repository::Repository;
use crate::repository::StateView;
use crate::store::Objects;
use crate::store::commit_ref;
use crate::store::extends;
use crate::store::lemma_put_extends;
use crate::store::load_commit;
use crate::store::store_put;
use crate::wire::commit_fits;
use crate::wire::encode_commit;
use crate::wire::lemma_commit_round_trip;

verus! {

/// How to commit.
#[derive(Debug)]
pub struct CommitArgs {
    /// Add a commit message.
    pub message: Option<String>,
    /// Add a commit author.
    pub author: Option<String>,
    /// Instead of making a new commit, load the previous commit and update it.
    pub amend: bool,
    /// Commit even where nothing has changed.
    pub force: bool,
}

/// The mathematical value of [`CommitArgs`].
pub struct CommitArgsView {
    pub message: Option<Seq<char>>,
    pub author: Option<Seq<char>>,
    pub amend: bool,
    pub force: bool,
}

impl View for CommitArgs {
    type V = CommitArgsView;

    open spec fn view(&self) -> CommitArgsView {
        CommitArgsView {
            message: text_view(self.message),
            author: text_view(self.author),
            amend: self.amend,
            force: self.force,
        }
    }
}

/// What committing gives: the reference to the commit that is now the head.
#[derive(Debug)]
pub struct CommitOut {
    pub commit: ObjectRef,
}

/// The commit of the head: none in a repository without head.
pub open spec fn head_commit_spec(objs: Objects, head: Option<ObjectRefView>) -> Result<
    Option<CommitView>,
    Error,
> {
    match head {
        None => Ok(None),
        Some(h) => match load_commit(objs, h.digest) {
            Ok(c) => Ok(Some(c)),
            Err(e) => Err(e),
        },
    }
}

/// The message of the new commit: the one asked for, else the one kept.
pub open spec fn message_of(args: CommitArgsView, kept: Option<Seq<char>>) -> Option<Seq<char>> {
    match args.message {
        Some(m) => Some(m),
        None => kept,
    }
}

/// The author of the new commit: the one asked for, else the one kept.
pub open spec fn author_of(args: CommitArgsView, kept: Option<CommitAuthorView>) -> Option<
    CommitAuthorView,
> {
    match args.author {
        Some(a) => Some(CommitAuthorView { name: Some(a), mbox: None }),
        None => kept,
    }
}

/// The commit that is built. An amendment keeps parents, author, timestamp
/// and message of the head commit unless the arguments say otherwise; a
/// fresh commit has the head as its only parent, or no parent where there is
/// no head, and is made at `now`. The subtree is the candidate.
pub open spec fn build_commit(
    head: Option<ObjectRefView>,
    head_commit: Option<CommitView>,
    candidate: ObjectRefView,
    args: CommitArgsView,
    now: u64,
) -> Result<CommitView, Error> {
    if args.amend {
        match head_commit {
            Some(hc) => Ok(
                CommitView {
                    subtree: candidate.digest,
                    parents: hc.parents,
                    author: author_of(args, hc.author),
                    timestamp: hc.timestamp,
                    message: message_of(args, hc.message),
                },
            ),
            None => Err(Error::NoParentToAmend),
        }
    } else {
        Ok(
            CommitView {
                subtree: candidate.digest,
                parents: match head {
                    Some(h) => seq![h.digest],
                    None => Seq::empty(),
                },
                author: author_of(args, None),
                timestamp: now,
                message: message_of(args, None),
            },
        )
    }
}

/// What a commit leaves behind.
pub struct Committed {
    pub objs: Objects,
    pub state: StateView,
    pub commit: CommitView,
}

/// Whether the head commit freezes the very tree that is the candidate.
pub open spec fn unchanged(head_commit: Option<CommitView>, candidate: ObjectRefView) -> bool {
    head_commit matches Some(hc) && candidate == (ObjectRefView {
        kind: ObjectKind::Tree,
        digest: hc.subtree,
    })
}

/// Committing. It fails with `NoCandidate` where there is no candidate, with
/// what fetching the head fails with, with `NoChanges` where the head
/// freezes the candidate already and `force` is not set, and with
/// `NoParentToAmend` where an amendment finds no head. Else the commit is
/// kept and becomes the head; the candidate stays.
pub open spec fn commit_spec(objs: Objects, state: StateView, args: CommitArgsView, now: u64) -> Result<
    Committed,
    Error,
> {
    match state.candidate {
        None => Err(Error::NoCandidate),
        Some(candidate) => match head_commit_spec(objs, state.head) {
            Err(e) => Err(e),
            Ok(head_commit) => if unchanged(head_commit, candidate) && !args.force {
                Err(Error::NoChanges)
            } else {
                match build_commit(state.head, head_commit, candidate, args, now) {
                    Err(e) => Err(e),
                    Ok(c) => match store_put(objs, encode_commit(c)) {
                        Err(e) => Err(e),
                        Ok(m) => Ok(
                            Committed {
                                objs: m,
                                state: StateView { head: Some(commit_ref(c)), candidate: Some(candidate) },
                                commit: c,
                            },
                        ),
                    },
                }
            },
        },
    }
}

/// Every commit that is made freezes the candidate of the moment, becomes
/// the head, and leaves the candidate in place.
pub proof fn lemma_commit_freezes_candidate(objs: Objects, state: StateView, args: CommitArgsView, now: u64)
    ensures
        commit_spec(objs, state, args, now) matches Ok(c) ==> {
            &&& state.candidate is Some
            &&& c.commit.subtree == state.candidate->0.digest
            &&& c.state.head == Some(commit_ref(c.commit))
            &&& c.state.candidate == state.candidate
            &&& extends(c.objs, objs)
        },
{
    if let Ok(c) = commit_spec(objs, state, args, now) {
        lemma_put_extends(objs, encode_commit(c.commit));
    }
}

/// After a commit, the store gives that commit under the head.
pub proof fn lemma_commit_is_head(objs: Objects, state: StateView, args: CommitArgsView, now: u64)
    ensures
        commit_spec(objs, state, args, now) matches Ok(c) ==> (commit_fits(c.commit)
            ==> load_commit(c.objs, c.state.head->0.digest) == Ok::<CommitView, Error>(c.commit)),
{
    if let Ok(c) = commit_spec(objs, state, args, now) {
        if commit_fits(c.commit) {
            lemma_commit_round_trip(c.commit);
            lemma_put_extends(objs, encode_commit(c.commit));
        }
    }
}

/// In a repository whose head freezes the candidate, a commit that is not
/// forced fails with `NoChanges`.
pub proof fn lemma_commit_without_changes(objs: Objects, state: StateView, args: CommitArgsView, now: u64)
    requires
        state.head is Some,
        state.candidate is Some,
        load_commit(objs, state.head->0.digest) matches Ok(hc) && state.candidate->0 == (
        ObjectRefView { kind: ObjectKind::Tree, digest: hc.subtree }),
        !args.force,
    ensures
        commit_spec(objs, state, args, now) == Err::<Committed, Error>(Error::NoChanges),
{
}

/// A fresh commit has the head of the moment as its only parent; the first
/// commit of a repository has none. An amendment keeps the parents of the
/// commit it replaces.
pub proof fn lemma_commit_parents(objs: Objects, state: StateView, args: CommitArgsView, now: u64)
    ensures
        commit_spec(objs, state, args, now) matches Ok(c) ==> c.commit.parents == (if args.amend {
            load_commit(objs, state.head->0.digest)->Ok_0.parents
        } else {
            match state.head {
                Some(h) => seq![h.digest],
                None => Seq::empty(),
            }
        }),
{
}

impl Repository {
    /// Saves the candidate as a commit on top of the head, or in place of
    /// the head where `amend` is set. `now` is the moment of the call, in
    /// seconds since the epoch.
    ///
    /// Where the call fails, the state is left as it is.
    pub fn commit(&mut self, args: CommitArgs, now: u64) -> (r: Result<CommitOut, Error>)
        ensures
            extends(final(self)@.objs, old(self)@.objs),
            final(self)@.root == old(self)@.root,
            final(self)@.cache == old(self)@.cache,
            match commit_spec(old(self)@.objs, old(self)@.state, args@, now) {
                Ok(c) => r is Ok && r->Ok_0.commit@ == commit_ref(c.commit) && final(self)@.objs
                    == c.objs && final(self)@.state == c.state,
                Err(e) => r is Err && r->Err_0 == e && final(self)@ == old(self)@,
            },
    {
        let candidate = match &self.state.candidate {
            Some(candidate) => candidate.duplicate(),
            None => {
                return Err(Error::NoCandidate);
            },
        };
        let maybe_head = match &self.state.head {
            Some(head_ref) => match self.store.get_commit(&head_ref.digest) {
                Ok(head_commit) => Some(head_commit),
                Err(e) => {
                    return Err(e);
                },
            },
            None => None,
        };
        match &maybe_head {
            Some(head_commit) => {
                if head_commit.as_subtree().same(&candidate) && !args.force {
                    return Err(Error::NoChanges);
                }
            },
            None => {},
        }
        let mut commit_builder = if args.amend {
            match &maybe_head {
                Some(head_commit) => head_commit.diverge(),
                None => {
                    return Err(Error::NoParentToAmend);
                },
            }
        } else {
            let mut builder = CommitBuilder::new(now);
            let mut parents: Vec<Digest> = Vec::new();
            match &self.state.head {
                Some(head_ref) => {
                    parents.push(head_ref.digest.duplicate());
                },
                None => {},
            }
            proof {
                let ghost head = ref_view(self.state.head);
                if head is Some {
                    assert(crate::object::digests_view(parents@) =~= seq![head->0.digest]);
                } else {
                    assert(crate::object::digests_view(parents@) =~= Seq::<Seq<u8>>::empty());
                }
            }
            builder.parents(parents);
            builder
        };
        commit_builder.subtree(candidate.digest);
        match args.message {
            Some(message) => {
                commit_builder.message(message);
            },
            None => {},
        }
        match args.author {
            Some(author) => {
                commit_builder.author(CommitAuthor { name: Some(author), mbox: None });
            },
            None => {},
        }
        let commit = match commit_builder.into_commit() {
            Some(commit) => commit,
            None => {
                return Err(Error::NoCandidate);
            },
        };
        proof {
            lemma_put_extends(self.store@, encode_commit(commit@));
        }
        let commit_ref = match self.store.put_commit(&commit) {
            Ok(commit_ref) => commit_ref,
            Err(e) => {
                return Err(e);
            },
        };
        self.state.head = Some(commit_ref.duplicate());
        Ok(CommitOut { commit: commit_ref })
    }
}

} // verus!
