//! Cloning: a fresh repository takes over the objects of another store and
//! starts at the commit of its `master` branch.

use vstd::prelude::*;
use crate::digest::Digest;
use crate::error::Error;
use crate::object::ObjectKind;
use crate::object::ObjectRef;
use crate::object::ObjectRefView;
use crate::repository::Repository;
use crate::repository::RepositoryView;
use crate::repository::StateView;
use crate::store::Objects;
use crate::store::Store;
use crate::store::agree;
use crate::store::extends;
use crate::store::load_commit;

verus! {

/// What to clone, and where to.
#[derive(Debug)]
pub struct CloneArgs {
    /// URL of the repository to clone.
    pub url: String,
    /// Path to a directory to initialize as a repository. Where none is
    /// given, the current directory is taken.
    pub path: Option<String>,
}

/// What cloning gives: the new repository.
#[derive(Debug)]
pub struct CloneOut {
    pub repository: Repository,
}

/// A named commit of a store.
#[derive(Debug)]
pub struct Branch {
    pub name: String,
    pub commit: Digest,
}

/// The mathematical value of a [`Branch`].
pub struct BranchView {
    pub name: Seq<char>,
    pub commit: Seq<u8>,
}

impl View for Branch {
    type V = BranchView;

    open spec fn view(&self) -> BranchView {
        BranchView { name: self.name@, commit: self.commit@ }
    }
}

/// The values of a list of branches.
pub open spec fn branches_view(bs: Seq<Branch>) -> Seq<BranchView> {
    bs.map_values(|b: Branch| b@)
}

/// The commit of the first branch of the name, from position `i` on.
pub open spec fn find_branch(bs: Seq<BranchView>, name: Seq<char>, i: int) -> Option<Seq<u8>>
    decreases bs.len() - i,
{
    if i < 0 || i >= bs.len() {
        None
    } else if bs[i].name == name {
        Some(bs[i].commit)
    } else {
        find_branch(bs, name, i + 1)
    }
}

/// A store and a state.
pub struct Cloned {
    pub objs: Objects,
    pub state: StateView,
}

/// Cloning into a store: it fails with `NotFound` where the other store has
/// no branch `master`, with `Io` where the two stores hold different bytes
/// under one digest, and with what fetching the commit of `master` fails
/// with. Else the store holds the objects of both, the commit of `master` is
/// the head, and its tree is the candidate.
pub open spec fn clone_spec(local: Objects, remote: Objects, branches: Seq<BranchView>) -> Result<
    Cloned,
    Error,
> {
    match find_branch(branches, "master"@, 0) {
        None => Err(Error::NotFound),
        Some(master) => if !agree(local, remote) {
            Err(Error::Io)
        } else {
            let objs = local.union_prefer_right(remote);
            match load_commit(objs, master) {
                Err(e) => Err(e),
                Ok(c) => Ok(
                    Cloned {
                        objs,
                        state: StateView {
                            head: Some(ObjectRefView { kind: ObjectKind::Commit, digest: master }),
                            candidate: Some(
                                ObjectRefView { kind: ObjectKind::Tree, digest: c.subtree },
                            ),
                        },
                    },
                ),
            }
        },
    }
}

/// The commit of the first branch called `name`.
pub fn branch_named(branches: &Vec<Branch>, name: &str) -> (r: Option<Digest>)
    ensures
        match r {
            Some(d) => find_branch(branches_view(branches@), name@, 0) == Some(d@),
            None => find_branch(branches_view(branches@), name@, 0) is None,
        },
{
    let wanted = name.to_owned();
    let mut i: usize = 0;
    while i < branches.len()
        invariant
            i <= branches@.len(),
            wanted@ == name@,
            find_branch(branches_view(branches@), name@, 0) == find_branch(
                branches_view(branches@),
                name@,
                i as int,
            ),
        decreases branches@.len() - i,
    {
        assert(branches_view(branches@)[i as int] == branches@[i as int]@);
        if branches[i].name == wanted {
            return Some(branches[i].commit.duplicate());
        }
        i = i + 1;
    }
    None
}

/// Makes `this` a clone of the repository whose objects are in `remote` and
/// whose branches are `branches`.
///
/// Where the call fails, the state is as it was; objects that were taken
/// over stay.
pub fn clone_from(this: &mut Repository, remote: &Store, branches: &Vec<Branch>) -> (r: Result<
    (),
    Error,
>)
    ensures
        extends(final(this)@.objs, old(this)@.objs),
        final(this)@.root == old(this)@.root,
        final(this)@.cache == old(this)@.cache,
        match clone_spec(old(this)@.objs, remote@, branches_view(branches@)) {
            Ok(c) => r is Ok && final(this)@.objs == c.objs && final(this)@.state == c.state,
            Err(e) => r is Err && r->Err_0 == e && final(this)@.state == old(this)@.state,
        },
{
    let master = match branch_named(branches, "master") {
        Some(master) => master,
        None => {
            return Err(Error::NotFound);
        },
    };
    match this.store.absorb(remote) {
        Ok(()) => {},
        Err(e) => {
            return Err(e);
        },
    }
    let commit = match this.store.get_commit(&master) {
        Ok(commit) => commit,
        Err(e) => {
            return Err(e);
        },
    };
    this.state.head = Some(ObjectRef::new(ObjectKind::Commit, master));
    this.state.candidate = Some(commit.as_subtree());
    Ok(())
}

/// Creates a repository at the path of `args`, or at `current_dir` where
/// `args` names none, and makes it a clone of the repository whose objects
/// are in `remote` and whose branches are `branches`.
pub fn clone(args: CloneArgs, current_dir: String, remote: &Store, branches: &Vec<Branch>) -> (r:
    Result<CloneOut, Error>)
    ensures
        match clone_spec(Objects::empty(), remote@, branches_view(branches@)) {
            Ok(c) => r is Ok && r->Ok_0.repository@ == (RepositoryView {
                objs: c.objs,
                cache: crate::cache::CacheMap::empty(),
                state: c.state,
                root: vstd::utf8::encode_utf8(
                    match args.path {
                        Some(p) => p@,
                        None => current_dir@,
                    },
                ),
            }),
            Err(e) => r is Err && r->Err_0 == e,
        },
{
    let path = match args.path {
        Some(path) => path,
        None => current_dir,
    };
    let mut repository = Repository::new(path);
    match clone_from(&mut repository, remote, branches) {
        Ok(()) => Ok(CloneOut { repository }),
        Err(e) => Err(e),
    }
}

} // verus!
