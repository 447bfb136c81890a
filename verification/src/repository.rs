//! The repository: a store, a cache and the pair of head and candidate; and
//! the workspace, which is what a caller saw on the filesystem.

use vstd::prelude::*;
use vstd::utf8::encode_utf8;
use crate::cache::Cache;
use crate::cache::CacheMap;
use crate::cache::FileKind;
use crate::cache::Fingerprint;
use crate::hierarchy::ref_copy;
use crate::hierarchy::ref_view;
use crate::object::ObjectRef;
use crate::object::ObjectRefView;
use crate::path::ObjectPath;
use crate::store::Objects;
use crate::store::Store;

verus! {

/// The mutable part of a repository: the latest commit and the tree that is
/// being prepared as the next one. Neither, either or both may be there, and
/// a commit leaves the candidate as it is.
#[derive(Debug)]
pub struct State {
    pub head: Option<ObjectRef>,
    pub candidate: Option<ObjectRef>,
}

/// The mathematical value of a [`State`].
pub struct StateView {
    pub head: Option<ObjectRefView>,
    pub candidate: Option<ObjectRefView>,
}

impl View for State {
    type V = StateView;

    open spec fn view(&self) -> StateView {
        StateView { head: ref_view(self.head), candidate: ref_view(self.candidate) }
    }
}

impl State {
    /// The state of an empty repository.
    pub fn new() -> (s: State)
        ensures
            s@ == (StateView { head: None, candidate: None }),
    {
        State { head: None, candidate: None }
    }

    /// A copy of this state.
    pub fn duplicate(&self) -> (s: State)
        ensures
            s@ == self@,
    {
        State { head: ref_copy(&self.head), candidate: ref_copy(&self.candidate) }
    }

    /// Whether there is neither head nor candidate.
    pub fn is_empty(&self) -> (b: bool)
        ensures
            b == (self@.head is None && self@.candidate is None),
    {
        self.head.is_none() && self.candidate.is_none()
    }
}

/// One thing that was seen on the filesystem: where it lies, its
/// fingerprint, and its bytes if they were read. Bytes that are missing when
/// they are needed mean that the file could not be opened.
#[derive(Debug)]
pub struct WorkEntry {
    pub path: ObjectPath,
    pub fingerprint: Fingerprint,
    pub content: Option<Vec<u8>>,
}

/// The mathematical value of a [`WorkEntry`].
pub struct WorkEntryView {
    pub path: Seq<Seq<u8>>,
    pub fingerprint: Fingerprint,
    pub content: Option<Seq<u8>>,
}

/// The bytes of an optional byte vector.
pub open spec fn content_view(c: Option<Vec<u8>>) -> Option<Seq<u8>> {
    match c {
        Some(v) => Some(v@),
        None => None,
    }
}

impl View for WorkEntry {
    type V = WorkEntryView;

    open spec fn view(&self) -> WorkEntryView {
        WorkEntryView {
            path: self.path@,
            fingerprint: self.fingerprint,
            content: content_view(self.content),
        }
    }
}

/// The values of a list of entries.
pub open spec fn work_view(es: Seq<WorkEntry>) -> Seq<WorkEntryView> {
    es.map_values(|e: WorkEntry| e@)
}

/// The position of the first entry at `path`, looking from `from` on.
pub open spec fn first_at(ws: Seq<WorkEntryView>, path: Seq<Seq<u8>>, from: int) -> Option<int>
    decreases ws.len() - from,
{
    if from < 0 || from >= ws.len() {
        None
    } else if ws[from].path == path {
        Some(from)
    } else {
        first_at(ws, path, from + 1)
    }
}

/// What was seen at `path`: the first entry that lies there, if any does.
pub open spec fn observe(ws: Seq<WorkEntryView>, path: Seq<Seq<u8>>) -> Option<WorkEntryView> {
    match first_at(ws, path, 0) {
        Some(i) => Some(ws[i]),
        None => None,
    }
}

/// What a caller saw on the filesystem, in the order in which it walked. A
/// path that is not listed does not exist.
#[derive(Debug)]
pub struct Workspace {
    pub entries: Vec<WorkEntry>,
}

impl View for Workspace {
    type V = Seq<WorkEntryView>;

    open spec fn view(&self) -> Seq<WorkEntryView> {
        work_view(self.entries@)
    }
}

impl Workspace {
    /// The workspace in which nothing was seen.
    pub fn new() -> (w: Workspace)
        ensures
            w@ == Seq::<WorkEntryView>::empty(),
    {
        let w = Workspace { entries: Vec::new() };
        assert(w@ =~= Seq::<WorkEntryView>::empty());
        w
    }

    /// Lists one more thing that was seen.
    pub fn push(&mut self, entry: WorkEntry)
        ensures
            final(self)@ == old(self)@.push(entry@),
    {
        self.entries.push(entry);
        assert(self@ =~= old(self)@.push(entry@));
    }

    /// The number of entries.
    pub fn len(&self) -> (n: usize)
        ensures
            n == self@.len(),
    {
        self.entries.len()
    }

    /// The first entry at `path`, if there is one.
    pub fn find(&self, path: &ObjectPath) -> (r: Option<&WorkEntry>)
        ensures
            match r {
                Some(e) => observe(self@, path@) == Some(e@),
                None => observe(self@, path@) is None,
            },
    {
        let mut i: usize = 0;
        while i < self.entries.len()
            invariant
                i <= self.entries@.len(),
                first_at(self@, path@, 0) == first_at(self@, path@, i as int),
            decreases self.entries@.len() - i,
        {
            assert(self@[i as int] == self.entries@[i as int]@);
            if self.entries[i].path.same(path) {
                return Some(&self.entries[i]);
            }
            i = i + 1;
        }
        None
    }
}

/// Whether an entry is a file that a walk of the directory `dir` comes by:
/// it lies below `dir` and is not itself a directory.
pub open spec fn walked(e: WorkEntryView, dir: Seq<Seq<u8>>) -> bool {
    &&& crate::path::is_prefix(dir, e.path)
    &&& e.path.len() > dir.len()
    &&& e.fingerprint.kind != FileKind::Directory
}

/// A repository.
#[derive(Debug)]
pub struct Repository {
    pub store: Store,
    pub cache: Cache,
    pub state: State,
    /// The absolute path of the directory that the repository tracks.
    pub path: String,
}

/// The mathematical value of a [`Repository`].
pub struct RepositoryView {
    pub objs: Objects,
    pub cache: CacheMap,
    pub state: StateView,
    pub root: Seq<u8>,
}

impl View for Repository {
    type V = RepositoryView;

    open spec fn view(&self) -> RepositoryView {
        RepositoryView {
            objs: self.store@,
            cache: self.cache@,
            state: self.state@,
            root: encode_utf8(self.path@),
        }
    }
}

impl Repository {
    /// An empty repository that tracks the directory at `path`.
    pub fn new(path: String) -> (r: Repository)
        ensures
            r@ == (RepositoryView {
                objs: Objects::empty(),
                cache: CacheMap::empty(),
                state: StateView { head: None, candidate: None },
                root: encode_utf8(path@),
            }),
    {
        Repository { store: Store::new(), cache: Cache::new(), state: State::new(), path }
    }

    /// A repository put together from what a caller has persisted.
    pub fn open(store: Store, cache: Cache, state: State, path: String) -> (r: Repository)
        ensures
            r@ == (RepositoryView {
                objs: store@,
                cache: cache@,
                state: state@,
                root: encode_utf8(path@),
            }),
    {
        Repository { store, cache, state, path }
    }

    /// The state as it stands.
    pub fn get_state(&self) -> (s: State)
        ensures
            s@ == self@.state,
    {
        self.state.duplicate()
    }

    /// Replaces the state.
    pub fn set_state(&mut self, state: State)
        ensures
            final(self)@ == (RepositoryView { state: state@, ..old(self)@ }),
    {
        self.state = state;
    }
}

} // verus!
