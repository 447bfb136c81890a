//! Staging and unstaging: how the candidate tree follows the workspace and
//! the head.

use vstd::prelude::*;
use vstd::utf8::encode_utf8;
use crate::batch::ObjectBatch;
use crate::batch::ObjectOperation;
use crate::batch::OperationView;
use crate::batch::run_spec;
use crate::batch_laws::independent;
use crate::batch_laws::lemma_fits_empty;
use crate::batch_laws::lemma_graft;
use crate::batch_laws::lemma_last_write_wins;
use crate::batch_laws::lemma_loaded_fits;
use crate::batch_laws::lemma_run_fits;
use crate::batch_laws::lemma_walk_in_stable;
use crate::batch_laws::lemma_walk_through;
use crate::batch_laws::operation_fits;
use crate::batch_laws::operation_leaves;
use crate::batch_laws::operation_path;
use crate::blob::lemma_share_kept;
use crate::blob::share;
use crate::blob::share_spec;
use crate::bytes::bytes_eq;
use crate::cache::Cache;
use crate::cache::CacheMap;
use crate::cache::Certainty;
use crate::cache::FileKind;
use crate::cache::Fingerprint;
use crate::cache::SnapshotView;
use crate::cache::Status;
use crate::cache::StatusView;
use crate::cache::resolve_spec;
use crate::cache::status_spec;
use crate::error::Error;
use crate::hierarchy::Hierarchy;
use crate::hierarchy::hierarchy_get;
use crate::hierarchy::ref_copy;
use crate::hierarchy::ref_view;
use crate::hierarchy::tree_of;
use crate::hierarchy::walk_result;
use crate::object::ObjectKind;
use crate::object::ObjectRef;
use crate::object::ObjectRefView;
use crate::path::ObjectPath;
use crate::path::parse_path;
use crate::repository::Repository;
use crate::repository::RepositoryView;
use crate::repository::StateView;
use crate::repository::WorkEntryView;
use crate::repository::Workspace;
use crate::repository::content_view;
use crate::repository::observe;
use crate::repository::walked;
use crate::store::Objects;
use crate::store::Store;
use crate::store::extends;
use crate::store::lemma_extends_trans;
use crate::store::lemma_put_extends;
use crate::store::load_commit;
use crate::store::store_put;
use crate::store::tree_ref;
use crate::tree::SEPARATOR;
use crate::tree::Tree;
use crate::tree::TreeBuilder;
use crate::tree::lemma_listing_of;
use crate::tree::listing_of;
use crate::wire::encode_tree;

verus! {

/// What to stage: paths, and whether to take them from the previous commit
/// instead of the workspace.
#[derive(Debug)]
pub struct StageArgs {
    /// Paths of files to load.
    pub paths: Vec<String>,
    /// Load files from the previous commit into the candidate instead.
    pub previous: bool,
    /// Do not track progress.
    pub quiet: bool,
}

/// The progress made on one file.
#[derive(Debug)]
pub struct FileProgress {
    file_path: String,
    object_path: ObjectPath,
    processed_bytes: u64,
    total_bytes: u64,
}

/// The mathematical value of a [`FileProgress`].
pub struct FileProgressView {
    pub file_path: Seq<char>,
    pub object_path: Seq<Seq<u8>>,
    pub processed_bytes: u64,
    pub total_bytes: u64,
}

impl View for FileProgress {
    type V = FileProgressView;

    closed spec fn view(&self) -> FileProgressView {
        FileProgressView {
            file_path: self.file_path@,
            object_path: self.object_path@,
            processed_bytes: self.processed_bytes,
            total_bytes: self.total_bytes,
        }
    }
}

impl FileProgress {
    /// The progress made on the file at `file_path`, which is tracked as
    /// `object_path`: `processed_bytes` of its `total_bytes`.
    pub fn new(file_path: String, object_path: ObjectPath, processed_bytes: u64, total_bytes: u64) -> (p:
        FileProgress)
        ensures
            p@ == (FileProgressView {
                file_path: file_path@,
                object_path: object_path@,
                processed_bytes,
                total_bytes,
            }),
    {
        FileProgress { file_path, object_path, processed_bytes, total_bytes }
    }

    /// Where the file lies on the filesystem.
    pub fn file_path(&self) -> (p: &String)
        ensures
            p@ == self@.file_path,
    {
        &self.file_path
    }

    /// Where the file lies in the repository.
    pub fn object_path(&self) -> (p: &ObjectPath)
        ensures
            p@ == self@.object_path,
    {
        &self.object_path
    }

    /// How many bytes have been processed.
    pub fn processed_bytes(&self) -> (n: u64)
        ensures
            n == self@.processed_bytes,
    {
        self.processed_bytes
    }

    /// How many bytes the file has.
    pub fn total_bytes(&self) -> (n: u64)
        ensures
            n == self@.total_bytes,
    {
        self.total_bytes
    }

    /// How many bytes are left to process; none where more were processed
    /// than the file was said to have.
    pub fn remaining_bytes(&self) -> (n: u64)
        ensures
            n == if self@.total_bytes >= self@.processed_bytes {
                self@.total_bytes - self@.processed_bytes
            } else {
                0
            },
    {
        if self.total_bytes >= self.processed_bytes {
            self.total_bytes - self.processed_bytes
        } else {
            0
        }
    }
}

/// What staging gives: the progress records, of which there are none, and
/// the candidate as it now stands.
#[derive(Debug)]
pub struct StageOut {
    pub progress: Vec<FileProgress>,
    pub candidate: Option<ObjectRef>,
}

/// The two kinds of operation on the candidate tree.
#[derive(Clone, Copy, Debug, PartialEq, Eq, Structural)]
pub enum OpKind {
    /// Bring a child of the candidate tree in line with the workspace.
    Stage,
    /// Reset a child of the candidate tree to what the head holds.
    Unstage,
}

/// One staging or unstaging operation.
#[derive(Debug)]
pub struct BatchOp {
    /// An absolute or relative path. It need not lead to a file: staging a
    /// path at which nothing lies deletes it from the candidate, and
    /// unstaging looks at the head only.
    pub path: String,
    /// The kind of the operation.
    pub op: OpKind,
}

/// The mathematical value of a [`BatchOp`]: the bytes of its path, and its
/// kind.
pub struct BatchOpView {
    pub path: Seq<u8>,
    pub op: OpKind,
}

impl View for BatchOp {
    type V = BatchOpView;

    open spec fn view(&self) -> BatchOpView {
        BatchOpView { path: encode_utf8(self.path@), op: self.op }
    }
}

impl BatchOp {
    /// The operation that stages `path`.
    pub fn stage(path: String) -> (op: BatchOp)
        ensures
            op@ == (BatchOpView { path: encode_utf8(path@), op: OpKind::Stage }),
    {
        BatchOp { path, op: OpKind::Stage }
    }

    /// The operation that unstages `path`.
    pub fn unstage(path: String) -> (op: BatchOp)
        ensures
            op@ == (BatchOpView { path: encode_utf8(path@), op: OpKind::Unstage }),
    {
        BatchOp { path, op: OpKind::Unstage }
    }
}

/// The values of a list of operations.
pub open spec fn batch_view(ops: Seq<BatchOp>) -> Seq<BatchOpView> {
    ops.map_values(|op: BatchOp| op@)
}

/// A store and a cache together with something that was computed over them.
pub struct Step<T> {
    pub objs: Objects,
    pub cache: CacheMap,
    pub value: T,
}

/// What processing one file gives: the object that stands for its contents,
/// and whether the contents had to be hashed for it.
#[derive(Debug)]
pub struct FileOutcome {
    pub object: ObjectRef,
    pub hashed: bool,
}

/// The mathematical value of a [`FileOutcome`].
pub struct FileOutcomeView {
    pub object: ObjectRefView,
    pub hashed: bool,
}

impl View for FileOutcome {
    type V = FileOutcomeView;

    open spec fn view(&self) -> FileOutcomeView {
        FileOutcomeView { object: self.object@, hashed: self.hashed }
    }
}

/// The object that the cache vouches for: the one remembered for a file
/// whose fingerprint is unchanged, if the store still holds it.
pub open spec fn cache_hit(objs: Objects, status: StatusView) -> Option<ObjectRefView> {
    match status {
        StatusView::Extant(Certainty::Positive, snapshot) => match snapshot.object {
            Some(r) => if objs.dom().contains(r.digest) {
                Some(r)
            } else {
                None
            },
            None => None,
        },
        _ => None,
    }
}

/// Hashing a file: its contents are shared into the store and the cache
/// records what the snapshot hashed to. Contents that could not be read mean
/// that the file has vanished.
pub open spec fn hash_spec(
    objs: Objects,
    cache: CacheMap,
    snapshot: SnapshotView,
    content: Option<Seq<u8>>,
) -> Result<Step<FileOutcomeView>, Error> {
    match content {
        None => Err(Error::FileVanished),
        Some(c) => match share_spec(objs, c) {
            Err(e) => Err(e),
            Ok(s) => match resolve_spec(cache, snapshot, s.value) {
                Err(e) => Err(e),
                Ok(c2) => Ok(
                    Step {
                        objs: s.objs,
                        cache: c2,
                        value: FileOutcomeView { object: s.value, hashed: true },
                    },
                ),
            },
        },
    }
}

/// Processing one file. Where the cache vouches for an object, that object
/// is the result and neither store nor cache changes, whatever the contents
/// are. Else a present file is hashed, and an absent one has vanished.
pub open spec fn file_spec(
    objs: Objects,
    cache: CacheMap,
    path: Seq<Seq<u8>>,
    observed: Option<Fingerprint>,
    content: Option<Seq<u8>>,
) -> Result<Step<FileOutcomeView>, Error> {
    let status = status_spec(cache, path, observed);
    match cache_hit(objs, status) {
        Some(r) => Ok(Step { objs, cache, value: FileOutcomeView { object: r, hashed: false } }),
        None => match status {
            StatusView::New(snapshot) => hash_spec(objs, cache, snapshot, content),
            StatusView::Extant(_, snapshot) => hash_spec(objs, cache, snapshot, content),
            _ => Err(Error::FileVanished),
        },
    }
}

/// Whether the cache remembers for `path` the fingerprint `f` and an object
/// that the store holds.
pub open spec fn remembered(objs: Objects, cache: CacheMap, path: Seq<Seq<u8>>, f: Fingerprint) -> bool {
    &&& cache.dom().contains(path)
    &&& cache[path].fingerprint == f
    &&& objs.dom().contains(cache[path].object.digest)
}

/// A file that the cache remembers with its present fingerprint is not
/// hashed: the remembered object is the result, neither store nor cache
/// changes, and the contents play no part.
pub proof fn lemma_remembered_is_hit(
    objs: Objects,
    cache: CacheMap,
    path: Seq<Seq<u8>>,
    f: Fingerprint,
    content: Option<Seq<u8>>,
)
    requires
        remembered(objs, cache, path, f),
    ensures
        file_spec(objs, cache, path, Some(f), content) == Ok::<Step<FileOutcomeView>, Error>(
            Step {
                objs,
                cache,
                value: FileOutcomeView { object: cache[path].object, hashed: false },
            },
        ),
{
}

/// After a file has been processed, the cache remembers it with the
/// fingerprint it was processed with, and the store holds its object.
pub proof fn lemma_processed_is_remembered(
    objs: Objects,
    cache: CacheMap,
    path: Seq<Seq<u8>>,
    f: Fingerprint,
    content: Option<Seq<u8>>,
)
    ensures
        file_spec(objs, cache, path, Some(f), content) matches Ok(s) ==> remembered(
            s.objs,
            s.cache,
            path,
            f,
        ) && s.cache[path].object == s.value.object && extends(s.objs, objs),
{
    if let Ok(s) = file_spec(objs, cache, path, Some(f), content) {
        if cache_hit(objs, status_spec(cache, path, Some(f))) is None {
            lemma_share_kept(objs, content->0);
        }
    }
}

/// Processing one file leaves what the cache remembers of every other path,
/// and keeps all that the store held.
pub proof fn lemma_processing_keeps_others(
    objs: Objects,
    cache: CacheMap,
    path: Seq<Seq<u8>>,
    observed: Option<Fingerprint>,
    content: Option<Seq<u8>>,
    other: Seq<Seq<u8>>,
    f: Fingerprint,
)
    requires
        other != path,
        remembered(objs, cache, other, f),
    ensures
        file_spec(objs, cache, path, observed, content) matches Ok(s) ==> remembered(
            s.objs,
            s.cache,
            other,
            f,
        ) && s.cache[other] == cache[other],
{
    if let Ok(s) = file_spec(objs, cache, path, observed, content) {
        if cache_hit(objs, status_spec(cache, path, observed)) is None {
            lemma_share_kept(objs, content->0);
        }
    }
}

/// A file whose fingerprint does not change is hashed at most once: when it
/// is processed a second time, whatever its contents are said to be, the
/// object of the first time is the result, nothing is hashed, and neither
/// store nor cache changes.
pub proof fn lemma_unchanged_file_hashed_once(
    objs: Objects,
    cache: CacheMap,
    path: Seq<Seq<u8>>,
    f: Fingerprint,
    first: Option<Seq<u8>>,
    second: Option<Seq<u8>>,
)
    ensures
        file_spec(objs, cache, path, Some(f), first) matches Ok(s) ==> file_spec(
            s.objs,
            s.cache,
            path,
            Some(f),
            second,
        ) == Ok::<Step<FileOutcomeView>, Error>(
            Step {
                objs: s.objs,
                cache: s.cache,
                value: FileOutcomeView { object: s.value.object, hashed: false },
            },
        ),
{
    if let Ok(s) = file_spec(objs, cache, path, Some(f), first) {
        lemma_processed_is_remembered(objs, cache, path, f, first);
        lemma_remembered_is_hit(s.objs, s.cache, path, f, second);
    }
}

/// Walking a directory: each file below `dir`, in the order of the
/// workspace, is processed and entered into a batch under its path relative
/// to `dir`.
pub open spec fn walk_dir_spec(
    objs: Objects,
    cache: CacheMap,
    ws: Seq<WorkEntryView>,
    dir: Seq<Seq<u8>>,
    i: int,
    ops: Seq<OperationView>,
) -> Result<Step<Seq<OperationView>>, Error>
    decreases ws.len() - i,
{
    if i < 0 || i >= ws.len() {
        Ok(Step { objs, cache, value: ops })
    } else if walked(ws[i], dir) {
        match file_spec(objs, cache, ws[i].path, Some(ws[i].fingerprint), ws[i].content) {
            Err(e) => Err(e),
            Ok(s) => walk_dir_spec(
                s.objs,
                s.cache,
                ws,
                dir,
                i + 1,
                ops.push(OperationView::Add(ws[i].path.skip(dir.len() as int), s.value.object)),
            ),
        }
    } else {
        walk_dir_spec(objs, cache, ws, dir, i + 1, ops)
    }
}

/// Keeping a tree in the store.
pub open spec fn keep_tree(objs: Objects, tree: Map<Seq<u8>, ObjectRefView>) -> Result<
    (Objects, ObjectRefView),
    Error,
> {
    let listing = listing_of(tree);
    match store_put(objs, encode_tree(listing)) {
        Ok(m) => Ok((m, tree_ref(listing))),
        Err(e) => Err(e),
    }
}

/// Processing a directory: its files are walked, the batch is run over an
/// empty tree, and the tree that results is kept.
pub open spec fn dir_spec(objs: Objects, cache: CacheMap, ws: Seq<WorkEntryView>, dir: Seq<Seq<u8>>) -> Result<
    Step<ObjectRefView>,
    Error,
> {
    match walk_dir_spec(objs, cache, ws, dir, 0, Seq::empty()) {
        Err(e) => Err(e),
        Ok(s) => match run_spec(s.objs, Map::empty(), s.value) {
            Err(e) => Err(e),
            Ok(a) => match keep_tree(a.objs, a.tree) {
                Err(e) => Err(e),
                Ok((m, r)) => Ok(Step { objs: m, cache: s.cache, value: r }),
            },
        },
    }
}

/// Processing a path of the workspace: nothing where nothing lies, the
/// object of a file or a symlink, the tree of a directory.
pub open spec fn process_spec(objs: Objects, cache: CacheMap, ws: Seq<WorkEntryView>, path: Seq<Seq<u8>>) -> Result<
    Step<Option<ObjectRefView>>,
    Error,
> {
    match observe(ws, path) {
        None => Ok(Step { objs, cache, value: None }),
        Some(e) => if e.fingerprint.kind == FileKind::Directory {
            match dir_spec(objs, cache, ws, path) {
                Err(e) => Err(e),
                Ok(s) => Ok(Step { objs: s.objs, cache: s.cache, value: Some(s.value) }),
            }
        } else {
            match file_spec(objs, cache, path, Some(e.fingerprint), e.content) {
                Err(e) => Err(e),
                Ok(s) => Ok(Step { objs: s.objs, cache: s.cache, value: Some(s.value.object) }),
            }
        },
    }
}

/// Whether a raw path starts at the filesystem root.
pub open spec fn is_absolute(raw: Seq<u8>) -> bool {
    raw.len() > 0 && raw[0] == SEPARATOR
}

/// What is left of an absolute path when the repository root is taken off
/// its front; nothing where the path does not lie under the root.
pub open spec fn strip_root(root: Seq<u8>, raw: Seq<u8>) -> Option<Seq<u8>> {
    if raw == root {
        Some(Seq::empty())
    } else if root.len() < raw.len() && raw.take(root.len() as int) == root {
        if root.len() > 0 && root.last() == SEPARATOR {
            Some(raw.skip(root.len() as int))
        } else if raw[root.len() as int] == SEPARATOR {
            Some(raw.skip(root.len() as int + 1))
        } else {
            None
        }
    } else {
        None
    }
}

/// The object path of a raw path: an absolute one must lie under the root,
/// and what is left, or a relative one as it is, must be a valid path.
pub open spec fn normalize_spec(root: Seq<u8>, raw: Seq<u8>) -> Result<Seq<Seq<u8>>, Error> {
    let relative = if is_absolute(raw) {
        strip_root(root, raw)
    } else {
        Some(raw)
    };
    match relative {
        None => Err(Error::PathOutsideRepo),
        Some(r) => match parse_path(r) {
            Some(p) => Ok(p),
            None => Err(Error::PathInvalid),
        },
    }
}

/// The operation on objects that an operation on paths comes to: an
/// addition of what was found, a deletion where nothing was.
pub open spec fn found_operation(path: Seq<Seq<u8>>, found: Option<ObjectRefView>) -> OperationView {
    match found {
        Some(r) => OperationView::Add(path, r),
        None => OperationView::Delete(path),
    }
}

/// Resolving one operation: unstaging looks the path up in the tree of the
/// head, staging processes it in the workspace.
pub open spec fn operation_spec(
    objs: Objects,
    cache: CacheMap,
    head_tree: Option<ObjectRefView>,
    ws: Seq<WorkEntryView>,
    root: Seq<u8>,
    op: BatchOpView,
) -> Result<Step<OperationView>, Error> {
    match normalize_spec(root, op.path) {
        Err(e) => Err(e),
        Ok(p) => match op.op {
            OpKind::Unstage => match hierarchy_get(objs, head_tree, p) {
                Err(e) => Err(e),
                Ok(found) => Ok(Step { objs, cache, value: found_operation(p, found) }),
            },
            OpKind::Stage => match process_spec(objs, cache, ws, p) {
                Err(e) => Err(e),
                Ok(s) => Ok(
                    Step { objs: s.objs, cache: s.cache, value: found_operation(p, s.value) },
                ),
            },
        },
    }
}

/// Resolving operations in input order into a batch.
pub open spec fn resolve_spec_all(
    objs: Objects,
    cache: CacheMap,
    head_tree: Option<ObjectRefView>,
    ws: Seq<WorkEntryView>,
    root: Seq<u8>,
    ops: Seq<BatchOpView>,
    i: int,
    acc: Seq<OperationView>,
) -> Result<Step<Seq<OperationView>>, Error>
    decreases ops.len() - i,
{
    if i < 0 || i >= ops.len() {
        Ok(Step { objs, cache, value: acc })
    } else {
        match operation_spec(objs, cache, head_tree, ws, root, ops[i]) {
            Err(e) => Err(e),
            Ok(s) => resolve_spec_all(
                s.objs,
                s.cache,
                head_tree,
                ws,
                root,
                ops,
                i + 1,
                acc.push(s.value),
            ),
        }
    }
}

/// The tree of the head: nothing in a repository without head.
pub open spec fn head_tree_spec(objs: Objects, head: Option<ObjectRefView>) -> Result<
    Option<ObjectRefView>,
    Error,
> {
    match head {
        None => Ok(None),
        Some(h) => match load_commit(objs, h.digest) {
            Ok(c) => Ok(Some(ObjectRefView { kind: ObjectKind::Tree, digest: c.subtree })),
            Err(e) => Err(e),
        },
    }
}

/// A store and a state.
pub struct Staged {
    pub objs: Objects,
    pub state: StateView,
}

/// Applying a batch to the candidate. The batch runs over the candidate's
/// tree, or over the empty tree where there is no candidate. An empty result
/// in a repository without head leaves no candidate; any other result is
/// kept and becomes the candidate.
pub open spec fn stage_objects_spec(objs: Objects, state: StateView, batch: Seq<OperationView>) -> Result<
    Staged,
    Error,
> {
    let base = match state.candidate {
        Some(c) => tree_of(objs, c.digest),
        None => Ok(Map::empty()),
    };
    match base {
        Err(e) => Err(e),
        Ok(b) => match run_spec(objs, b, batch) {
            Err(e) => Err(e),
            Ok(a) => if a.tree == Map::<Seq<u8>, ObjectRefView>::empty() && state.head is None {
                Ok(Staged { objs: a.objs, state: StateView { candidate: None, ..state } })
            } else {
                match keep_tree(a.objs, a.tree) {
                    Err(e) => Err(e),
                    Ok((m, r)) => Ok(
                        Staged { objs: m, state: StateView { candidate: Some(r), ..state } },
                    ),
                }
            },
        },
    }
}

/// The candidate that staging leaves is the tree that the run of the batch
/// gave: the store gives that tree under the candidate's reference. No
/// candidate is left only where the run gave the empty tree in a repository
/// without head.
pub proof fn lemma_staged_candidate(objs: Objects, state: StateView, batch: Seq<OperationView>)
    requires
        forall|i: int| 0 <= i < batch.len() ==> operation_fits(#[trigger] batch[i]),
    ensures
        stage_objects_spec(objs, state, batch) matches Ok(st) ==> {
            let base = match state.candidate {
                Some(c) => tree_of(objs, c.digest)->Ok_0,
                None => Map::empty(),
            };
            let a = run_spec(objs, base, batch)->Ok_0;
            &&& st.state.head == state.head
            &&& extends(st.objs, a.objs)
            &&& match st.state.candidate {
                Some(c) => c.kind == ObjectKind::Tree && tree_of(st.objs, c.digest) == Ok::<
                    Map<Seq<u8>, ObjectRefView>,
                    Error,
                >(a.tree),
                None => a.tree == Map::<Seq<u8>, ObjectRefView>::empty() && state.head is None,
            }
        },
{
    if let Ok(st) = stage_objects_spec(objs, state, batch) {
        let base = match state.candidate {
            Some(c) => tree_of(objs, c.digest)->Ok_0,
            None => Map::empty(),
        };
        match state.candidate {
            Some(c) => {
                lemma_loaded_fits(objs, c.digest);
            },
            None => {
                lemma_fits_empty();
            },
        }
        lemma_run_fits(objs, base, batch);
        let a = run_spec(objs, base, batch)->Ok_0;
        if st.state.candidate is Some {
            lemma_graft(a.objs, Map::empty(), Seq::empty(), a.tree);
        }
    }
}

/// The last write wins in the candidate: after a batch has been staged, what
/// the candidate holds at the path of an operation is what that operation
/// left there, provided that no later operation of the batch has a path
/// that leads to it, to something above it or to something below it. A
/// deletion leaves nothing.
pub proof fn lemma_stage_last_write_wins(
    objs: Objects,
    state: StateView,
    batch: Seq<OperationView>,
    k: int,
)
    requires
        forall|i: int| 0 <= i < batch.len() ==> operation_fits(#[trigger] batch[i]),
        0 <= k < batch.len(),
        operation_path(batch[k]).len() >= 1,
        forall|j: int|
            k < j < batch.len() ==> independent(
                operation_path(#[trigger] batch[j]),
                operation_path(batch[k]),
            ),
    ensures
        stage_objects_spec(objs, state, batch) matches Ok(st) ==> hierarchy_get(
            st.objs,
            st.state.candidate,
            operation_path(batch[k]),
        ) == walk_result(operation_leaves(batch[k])),
{
    if let Ok(st) = stage_objects_spec(objs, state, batch) {
        let base = match state.candidate {
            Some(c) => tree_of(objs, c.digest)->Ok_0,
            None => Map::empty(),
        };
        match state.candidate {
            Some(c) => {
                lemma_loaded_fits(objs, c.digest);
            },
            None => {
                lemma_fits_empty();
            },
        }
        lemma_staged_candidate(objs, state, batch);
        lemma_last_write_wins(objs, base, batch, k);
        let a = run_spec(objs, base, batch)->Ok_0;
        let path = operation_path(batch[k]);
        match st.state.candidate {
            Some(c) => {
                lemma_walk_in_stable(a.objs, st.objs, a.tree, path);
                lemma_walk_through(st.objs, c, a.tree, path);
            },
            None => {},
        }
    }
}

/// Staging a batch of operations: they are resolved in input order against
/// the head and the workspace, and the batch that results is applied to the
/// candidate.
pub open spec fn stage_batch_spec(repo: RepositoryView, ws: Seq<WorkEntryView>, ops: Seq<BatchOpView>) -> Result<
    RepositoryView,
    Error,
> {
    match head_tree_spec(repo.objs, repo.state.head) {
        Err(e) => Err(e),
        Ok(head_tree) => match resolve_spec_all(
            repo.objs,
            repo.cache,
            head_tree,
            ws,
            repo.root,
            ops,
            0,
            Seq::empty(),
        ) {
            Err(e) => Err(e),
            Ok(s) => match stage_objects_spec(s.objs, repo.state, s.value) {
                Err(e) => Err(e),
                Ok(st) => Ok(
                    RepositoryView { objs: st.objs, cache: s.cache, state: st.state, root: repo.root },
                ),
            },
        },
    }
}

/// The operations that staging arguments ask for: one for each path, all of
/// one kind.
pub open spec fn stage_ops(paths: Seq<String>, previous: bool) -> Seq<BatchOpView> {
    paths.map_values(
        |p: String|
            BatchOpView {
                path: encode_utf8(p@),
                op: if previous {
                    OpKind::Unstage
                } else {
                    OpKind::Stage
                },
            },
    )
}

/// The object path of a raw path, relative or absolute, in a repository
/// rooted at `root`.
pub fn normalize(root: &[u8], raw: &[u8]) -> (r: Result<ObjectPath, Error>)
    ensures
        match r {
            Ok(p) => normalize_spec(root@, raw@) == Ok::<Seq<Seq<u8>>, Error>(p@),
            Err(e) => normalize_spec(root@, raw@) == Err::<Seq<Seq<u8>>, Error>(e),
        },
{
    if raw.len() == 0 || raw[0] != SEPARATOR {
        return ObjectPath::from_bytes(raw);
    }
    if bytes_eq(raw, root) {
        return ObjectPath::from_bytes(vstd::slice::slice_subrange(raw, 0, 0));
    }
    let n = root.len();
    if n >= raw.len() {
        return Err(Error::PathOutsideRepo);
    }
    assert(raw@.subrange(0, n as int) =~= raw@.take(n as int));
    if !bytes_eq(vstd::slice::slice_subrange(raw, 0, n), root) {
        return Err(Error::PathOutsideRepo);
    }
    let from: usize = if n > 0 && root[n - 1] == SEPARATOR {
        n
    } else if raw[n] == SEPARATOR {
        n + 1
    } else {
        return Err(Error::PathOutsideRepo);
    };
    let rest = vstd::slice::slice_subrange(raw, from, raw.len());
    assert(rest@ =~= raw@.skip(from as int));
    ObjectPath::from_bytes(rest)
}

impl Repository {
    /// Processes one file: gives the object that stands for its contents.
    ///
    /// `observed` is the fingerprint of the file as it is now, `None` where
    /// it is gone; `content` holds its bytes, `None` where it could not be
    /// opened. A file whose fingerprint is the one that the cache remembers
    /// is not hashed, and its contents are not looked at.
    pub fn do_process_file(
        store: &mut Store,
        cache: &mut Cache,
        object_path: &ObjectPath,
        observed: Option<Fingerprint>,
        content: &Option<Vec<u8>>,
    ) -> (r: Result<FileOutcome, Error>)
        ensures
            extends(final(store)@, old(store)@),
            match file_spec(old(store)@, old(cache)@, object_path@, observed, content_view(*content)) {
                Ok(s) => r is Ok && r->Ok_0@ == s.value && final(store)@ == s.objs && final(cache)@
                    == s.cache,
                Err(e) => r is Err && r->Err_0 == e && final(cache)@ == old(cache)@,
            },
    {
        let status = cache.status(object_path, observed);
        match &status {
            Status::Extant(Certainty::Positive, snapshot) => {
                match snapshot.as_object_ref() {
                    Some(remembered) => {
                        if store.contains(&remembered.digest) {
                            return Ok(FileOutcome { object: remembered.duplicate(), hashed: false });
                        }
                    },
                    None => {},
                }
            },
            _ => {},
        }
        let snapshot = match status {
            Status::New(snapshot) => snapshot,
            Status::Extant(_, snapshot) => snapshot,
            _ => {
                return Err(Error::FileVanished);
            },
        };
        let bytes = match content {
            Some(bytes) => bytes,
            None => {
                return Err(Error::FileVanished);
            },
        };
        let object = match share(store, bytes.as_slice()) {
            Ok(object) => object,
            Err(e) => {
                return Err(e);
            },
        };
        match cache.resolve(snapshot, object.duplicate()) {
            Ok(()) => Ok(FileOutcome { object, hashed: true }),
            Err(e) => Err(e),
        }
    }

    /// Processes a path of the workspace: nothing where nothing lies, the
    /// object of a file or a symlink, the tree of a directory.
    pub fn do_process(store: &mut Store, cache: &mut Cache, ws: &Workspace, object_path: &ObjectPath) -> (r:
        Result<Option<ObjectRef>, Error>)
        ensures
            extends(final(store)@, old(store)@),
            match process_spec(old(store)@, old(cache)@, ws@, object_path@) {
                Ok(s) => r is Ok && ref_view(r->Ok_0) == s.value && final(store)@ == s.objs
                    && final(cache)@ == s.cache,
                Err(e) => r is Err && r->Err_0 == e,
            },
    {
        let entry = match ws.find(object_path) {
            Some(entry) => entry,
            None => {
                return Ok(None);
            },
        };
        if entry.fingerprint.kind != FileKind::Directory {
            return match Self::do_process_file(
                store,
                cache,
                object_path,
                Some(entry.fingerprint),
                &entry.content,
            ) {
                Ok(outcome) => Ok(Some(outcome.object)),
                Err(e) => Err(e),
            };
        }
        let mut object_batch = ObjectBatch::new();
        let depth = object_path.len();
        let mut i: usize = 0;
        while i < ws.entries.len()
            invariant
                i <= ws.entries@.len(),
                depth == object_path@.len(),
                observe(ws@, object_path@) is Some,
                observe(ws@, object_path@)->0.fingerprint.kind == FileKind::Directory,
                extends(store@, old(store)@),
                walk_dir_spec(old(store)@, old(cache)@, ws@, object_path@, 0, Seq::empty())
                    == walk_dir_spec(store@, cache@, ws@, object_path@, i as int, object_batch@),
            decreases ws.entries@.len() - i,
        {
            let direntry = &ws.entries[i];
            assert(ws@[i as int] == direntry@);
            if direntry.fingerprint.kind != FileKind::Directory && direntry.path.len() > depth
                && object_path.is_prefix_of(&direntry.path) {
                let ghost before = store@;
                match Self::do_process_file(
                    store,
                    cache,
                    &direntry.path,
                    Some(direntry.fingerprint),
                    &direntry.content,
                ) {
                    Ok(outcome) => {
                        proof {
                            lemma_extends_trans(old(store)@, before, store@);
                        }
                        object_batch = object_batch.add(
                            ObjectOperation::Add(direntry.path.suffix(depth), outcome.object),
                        );
                    },
                    Err(e) => {
                        proof {
                            lemma_extends_trans(old(store)@, before, store@);
                        }
                        return Err(e);
                    },
                }
            }
            i = i + 1;
        }
        let ghost walked_objs = store@;
        let built = match object_batch.run(store, TreeBuilder::new()) {
            Ok(built) => built,
            Err(e) => {
                proof {
                    lemma_extends_trans(old(store)@, walked_objs, store@);
                }
                return Err(e);
            },
        };
        let ghost run_objs = store@;
        proof {
            lemma_extends_trans(old(store)@, walked_objs, run_objs);
        }
        match Self::keep(store, &built.into_tree()) {
            Ok(r) => {
                proof {
                    lemma_extends_trans(old(store)@, run_objs, store@);
                }
                Ok(Some(r))
            },
            Err(e) => Err(e),
        }
    }

    /// Keeps a tree in the store.
    fn keep(store: &mut Store, tree: &Tree) -> (r: Result<ObjectRef, Error>)
        ensures
            extends(final(store)@, old(store)@),
            match keep_tree(old(store)@, tree@) {
                Ok((m, x)) => r is Ok && r->Ok_0@ == x && final(store)@ == m,
                Err(e) => r is Err && r->Err_0 == e && final(store)@ == old(store)@,
            },
    {
        proof {
            use_type_invariant(tree);
            lemma_listing_of(tree.listing());
            lemma_put_extends(store@, encode_tree(tree.listing()));
        }
        store.put_tree(tree)
    }

    /// Processes a path of the workspace against this repository.
    pub fn process(&mut self, ws: &Workspace, object_path: &ObjectPath) -> (r: Result<
        Option<ObjectRef>,
        Error,
    >)
        ensures
            extends(final(self)@.objs, old(self)@.objs),
            final(self)@.state == old(self)@.state,
            final(self)@.root == old(self)@.root,
            match process_spec(old(self)@.objs, old(self)@.cache, ws@, object_path@) {
                Ok(s) => r is Ok && ref_view(r->Ok_0) == s.value && final(self)@.objs == s.objs
                    && final(self)@.cache == s.cache,
                Err(e) => r is Err && r->Err_0 == e,
            },
    {
        Self::do_process(&mut self.store, &mut self.cache, ws, object_path)
    }

    /// Resolves one operation on paths into one on objects.
    fn process_operation(&mut self, hierarchy: &Hierarchy, ws: &Workspace, batch_op: &BatchOp) -> (r:
        Result<ObjectOperation, Error>)
        ensures
            extends(final(self)@.objs, old(self)@.objs),
            final(self)@.state == old(self)@.state,
            final(self)@.root == old(self)@.root,
            match operation_spec(
                old(self)@.objs,
                old(self)@.cache,
                hierarchy@,
                ws@,
                old(self)@.root,
                batch_op@,
            ) {
                Ok(s) => r is Ok && r->Ok_0@ == s.value && final(self)@.objs == s.objs
                    && final(self)@.cache == s.cache,
                Err(e) => r is Err && r->Err_0 == e,
            },
    {
        let object_path = match normalize(
            self.path.as_str().as_bytes(),
            batch_op.path.as_str().as_bytes(),
        ) {
            Ok(p) => p,
            Err(e) => {
                return Err(e);
            },
        };
        let found = match batch_op.op {
            OpKind::Unstage => hierarchy.get(&self.store, &object_path),
            OpKind::Stage => self.process(ws, &object_path),
        };
        match found {
            Ok(Some(object)) => Ok(ObjectOperation::Add(object_path, object)),
            Ok(None) => Ok(ObjectOperation::Delete(object_path)),
            Err(e) => Err(e),
        }
    }

    /// Stages a batch of operations. They are resolved in input order, so of
    /// two operations on one path the later one decides. Where any of them
    /// fails, the whole batch fails with its error and the state is left as
    /// it is; objects that reached the store by then stay there.
    pub fn stage_batch(&mut self, batch: &Vec<BatchOp>, ws: &Workspace) -> (r: Result<(), Error>)
        ensures
            extends(final(self)@.objs, old(self)@.objs),
            final(self)@.root == old(self)@.root,
            match stage_batch_spec(old(self)@, ws@, batch_view(batch@)) {
                Ok(v) => r is Ok && final(self)@ == v,
                Err(e) => r is Err && r->Err_0 == e && final(self)@.state == old(self)@.state,
            },
    {
        let hierarchy = match &self.state.head {
            Some(head_ref) => match self.store.get_commit(&head_ref.digest) {
                Ok(head) => Hierarchy::from(head.as_subtree()),
                Err(e) => {
                    return Err(e);
                },
            },
            None => Hierarchy::new(),
        };
        let ghost ops = batch_view(batch@);
        let mut object_batch = ObjectBatch::new();
        let mut i: usize = 0;
        while i < batch.len()
            invariant
                i <= batch@.len(),
                ops == batch_view(batch@),
                extends(self@.objs, old(self)@.objs),
                self@.state == old(self)@.state,
                self@.root == old(self)@.root,
                resolve_spec_all(
                    old(self)@.objs,
                    old(self)@.cache,
                    hierarchy@,
                    ws@,
                    old(self)@.root,
                    ops,
                    0,
                    Seq::empty(),
                ) == resolve_spec_all(
                    self@.objs,
                    self@.cache,
                    hierarchy@,
                    ws@,
                    self@.root,
                    ops,
                    i as int,
                    object_batch@,
                ),
                head_tree_spec(old(self)@.objs, old(self)@.state.head) == Ok::<
                    Option<ObjectRefView>,
                    Error,
                >(hierarchy@),
            decreases batch@.len() - i,
        {
            let ghost before = self@.objs;
            assert(ops[i as int] == batch@[i as int]@);
            match self.process_operation(&hierarchy, ws, &batch[i]) {
                Ok(op) => {
                    proof {
                        lemma_extends_trans(old(self)@.objs, before, self@.objs);
                    }
                    object_batch = object_batch.add(op);
                },
                Err(e) => {
                    proof {
                        lemma_extends_trans(old(self)@.objs, before, self@.objs);
                    }
                    return Err(e);
                },
            }
            i = i + 1;
        }
        let ghost before = self@.objs;
        let r = self.stage_objects(object_batch);
        proof {
            lemma_extends_trans(old(self)@.objs, before, self@.objs);
        }
        r
    }

    /// Applies a batch of object operations to the candidate and makes the
    /// result the candidate. Where the batch fails, the state is left as it
    /// is.
    pub fn stage_objects(&mut self, batch: ObjectBatch) -> (r: Result<(), Error>)
        ensures
            extends(final(self)@.objs, old(self)@.objs),
            final(self)@.root == old(self)@.root,
            final(self)@.cache == old(self)@.cache,
            match stage_objects_spec(old(self)@.objs, old(self)@.state, batch@) {
                Ok(st) => r is Ok && final(self)@.objs == st.objs && final(self)@.state == st.state,
                Err(e) => r is Err && r->Err_0 == e && final(self)@.state == old(self)@.state,
            },
    {
        let tree_builder = match &self.state.candidate {
            Some(candidate_ref) => match self.store.get_tree(&candidate_ref.digest) {
                Ok(tree) => tree.diverge(),
                Err(e) => {
                    return Err(e);
                },
            },
            None => TreeBuilder::new(),
        };
        let new_candidate_built = match batch.run(&mut self.store, tree_builder) {
            Ok(built) => built,
            Err(e) => {
                return Err(e);
            },
        };
        let ghost run_objs = self@.objs;
        let candidate = if new_candidate_built.is_empty() && self.state.head.is_none() {
            None
        } else {
            match Self::keep(&mut self.store, &new_candidate_built.into_tree()) {
                Ok(r) => {
                    proof {
                        lemma_extends_trans(old(self)@.objs, run_objs, self@.objs);
                    }
                    Some(r)
                },
                Err(e) => {
                    return Err(e);
                },
            }
        };
        self.state.candidate = candidate;
        Ok(())
    }

    /// Stages the paths of `args`: from the workspace, or from the previous
    /// commit where `previous` is set.
    pub fn stage(&mut self, args: StageArgs, ws: &Workspace) -> (r: Result<StageOut, Error>)
        ensures
            extends(final(self)@.objs, old(self)@.objs),
            final(self)@.root == old(self)@.root,
            match stage_batch_spec(old(self)@, ws@, stage_ops(args.paths@, args.previous)) {
                Ok(v) => r is Ok && final(self)@ == v && r->Ok_0.progress@.len() == 0 && ref_view(
                    r->Ok_0.candidate,
                ) == v.state.candidate,
                Err(e) => r is Err && r->Err_0 == e && final(self)@.state == old(self)@.state,
            },
    {
        let op = if args.previous {
            OpKind::Unstage
        } else {
            OpKind::Stage
        };
        let mut batch: Vec<BatchOp> = Vec::new();
        let mut i: usize = 0;
        while i < args.paths.len()
            invariant
                i <= args.paths@.len(),
                op == (if args.previous {
                    OpKind::Unstage
                } else {
                    OpKind::Stage
                }),
                batch@.len() == i,
                forall|k: int|
                    0 <= k < i ==> (#[trigger] batch@[k])@ == (BatchOpView {
                        path: encode_utf8(args.paths@[k]@),
                        op,
                    }),
            decreases args.paths@.len() - i,
        {
            batch.push(BatchOp { path: args.paths[i].clone(), op });
            i = i + 1;
        }
        assert(batch_view(batch@) =~= stage_ops(args.paths@, args.previous));
        match self.stage_batch(&batch, ws) {
            Ok(()) => Ok(StageOut { progress: Vec::new(), candidate: ref_copy(&self.state.candidate) }),
            Err(e) => Err(e),
        }
    }
}

} // verus!
