//! What holds of staging a batch: in the candidate that it leaves, the last
//! operation on a path has decided what lies there.

use vstd::prelude::*;
use crate::batch::OperationView;
use crate::batch_laws::independent;
use crate::batch_laws::lemma_loaded_fits;
use crate::batch_laws::name_fits;
use crate::batch_laws::operation_fits;
use crate::batch_laws::operation_leaves;
use crate::batch_laws::operation_path;
use crate::batch_laws::path_fits;
use crate::blob::lemma_share_kept;
use crate::cache::CacheMap;
use crate::cache::Fingerprint;
use crate::cache::status_spec;
use crate::candidate::BatchOpView;
use crate::candidate::OpKind;
use crate::candidate::cache_hit;
use crate::candidate::file_spec;
use crate::candidate::head_tree_spec;
use crate::candidate::is_absolute;
use crate::candidate::lemma_stage_last_write_wins;
use crate::candidate::normalize_spec;
use crate::candidate::operation_spec;
use crate::candidate::process_spec;
use crate::candidate::resolve_spec_all;
use crate::candidate::stage_batch_spec;
use crate::candidate::strip_root;
use crate::candidate::walk_dir_spec;
use crate::hierarchy::Walk;
use crate::hierarchy::hierarchy_get;
use crate::hierarchy::tree_of;
use crate::hierarchy::walk;
use crate::hierarchy::walk_result;
use crate::object::ObjectKind;
use crate::object::ObjectRefView;
use crate::object::ref_wf;
use crate::path::split;
use crate::path::valid_component;
use crate::repository::RepositoryView;
use crate::repository::WorkEntryView;
use crate::repository::observe;
use crate::store::Objects;

verus! {

/// A cache that remembers references with digests of the right width only.
pub open spec fn cache_fits(cache: CacheMap) -> bool {
    forall|p: Seq<Seq<u8>>| #[trigger] cache.dom().contains(p) ==> ref_wf(cache[p].object)
}

/// No segment of a byte string is longer than the byte string.
pub proof fn lemma_split_short(s: Seq<u8>)
    ensures
        split(s).len() >= 1,
        forall|i: int| 0 <= i < split(s).len() ==> (#[trigger] split(s)[i]).len() <= s.len(),
    decreases s.len(),
{
    if s.len() > 0 {
        lemma_split_short(s.drop_last());
        let before = split(s.drop_last());
        assert forall|i: int| 0 <= i < split(s).len() implies (#[trigger] split(s)[i]).len()
            <= s.len() by {
            if i < before.len() - 1 {
                assert(split(s)[i] == before[i]);
            }
        }
    }
}

/// The path of a raw path of a length that eight bytes can hold fits.
pub proof fn lemma_normalized_fits(root: Seq<u8>, raw: Seq<u8>)
    requires
        raw.len() <= u64::MAX,
    ensures
        normalize_spec(root, raw) matches Ok(p) ==> path_fits(p),
{
    if let Ok(p) = normalize_spec(root, raw) {
        let relative = if is_absolute(raw) {
            strip_root(root, raw)->0
        } else {
            raw
        };
        assert(relative.len() <= raw.len());
        if relative.len() > 0 {
            lemma_split_short(relative);
            assert forall|i: int| 0 <= i < p.len() implies name_fits(#[trigger] p[i]) by {
                assert(valid_component(p[i]));
            }
        }
    }
}

/// Processing a file gives a reference with a digest of the right width and
/// leaves the cache fitting.
pub proof fn lemma_file_fits(
    objs: Objects,
    cache: CacheMap,
    path: Seq<Seq<u8>>,
    observed: Option<Fingerprint>,
    content: Option<Seq<u8>>,
)
    requires
        cache_fits(cache),
    ensures
        file_spec(objs, cache, path, observed, content) matches Ok(s) ==> ref_wf(s.value.object)
            && cache_fits(s.cache),
{
    if let Ok(s) = file_spec(objs, cache, path, observed, content) {
        if cache_hit(objs, status_spec(cache, path, observed)) is None {
            lemma_share_kept(objs, content->0);
        } else {
            assert(cache.dom().contains(path));
        }
    }
}

/// Walking a directory leaves the cache fitting.
pub proof fn lemma_walk_dir_fits(
    objs: Objects,
    cache: CacheMap,
    ws: Seq<WorkEntryView>,
    dir: Seq<Seq<u8>>,
    i: int,
    ops: Seq<OperationView>,
)
    requires
        cache_fits(cache),
    ensures
        walk_dir_spec(objs, cache, ws, dir, i, ops) matches Ok(s) ==> cache_fits(s.cache),
    decreases ws.len() - i,
{
    if 0 <= i < ws.len() {
        if crate::repository::walked(ws[i], dir) {
            lemma_file_fits(objs, cache, ws[i].path, Some(ws[i].fingerprint), ws[i].content);
            if let Ok(s) = file_spec(objs, cache, ws[i].path, Some(ws[i].fingerprint), ws[i].content) {
                lemma_walk_dir_fits(
                    s.objs,
                    s.cache,
                    ws,
                    dir,
                    i + 1,
                    ops.push(
                        OperationView::Add(ws[i].path.skip(dir.len() as int), s.value.object),
                    ),
                );
            }
        } else {
            lemma_walk_dir_fits(objs, cache, ws, dir, i + 1, ops);
        }
    }
}

/// Processing a path gives, if anything, a reference with a digest of the
/// right width, and leaves the cache fitting.
pub proof fn lemma_process_fits(objs: Objects, cache: CacheMap, ws: Seq<WorkEntryView>, path: Seq<Seq<u8>>)
    requires
        cache_fits(cache),
    ensures
        process_spec(objs, cache, ws, path) matches Ok(s) ==> cache_fits(s.cache) && (
        s.value matches Some(r) ==> ref_wf(r)),
{
    if let Some(e) = observe(ws, path) {
        if e.fingerprint.kind == crate::cache::FileKind::Directory {
            lemma_walk_dir_fits(objs, cache, ws, path, 0, Seq::empty());
        } else {
            lemma_file_fits(objs, cache, path, Some(e.fingerprint), e.content);
        }
    }
}

/// What a walk from a sound reference finds is a sound reference.
pub proof fn lemma_walk_found_fits(objs: Objects, at: ObjectRefView, path: Seq<Seq<u8>>)
    requires
        ref_wf(at),
    ensures
        walk(objs, at, path) matches Walk::Found(r) ==> ref_wf(r),
    decreases path.len(),
{
    if path.len() > 0 && at.kind == ObjectKind::Tree {
        if let Ok(t) = tree_of(objs, at.digest) {
            if t.dom().contains(path[0]) {
                lemma_loaded_fits(objs, at.digest);
                crate::batch_laws::lemma_fits_entry(t, path[0]);
                lemma_walk_found_fits(objs, t[path[0]], path.skip(1));
            }
        }
    }
}

/// The tree of the head is a sound reference.
pub proof fn lemma_head_tree_fits(objs: Objects, head: Option<ObjectRefView>)
    ensures
        head_tree_spec(objs, head) matches Ok(Some(r)) ==> ref_wf(r),
{
}

/// Resolving one operation gives one that fits, on the path that its raw
/// path spells, and leaves the cache fitting.
pub proof fn lemma_operation_fits(
    objs: Objects,
    cache: CacheMap,
    head_tree: Option<ObjectRefView>,
    ws: Seq<WorkEntryView>,
    root: Seq<u8>,
    op: BatchOpView,
)
    requires
        cache_fits(cache),
        op.path.len() <= u64::MAX,
        head_tree matches Some(r) ==> ref_wf(r),
    ensures
        operation_spec(objs, cache, head_tree, ws, root, op) matches Ok(s) ==> cache_fits(s.cache)
            && operation_fits(s.value) && normalize_spec(root, op.path) == Ok::<
            Seq<Seq<u8>>,
            crate::error::Error,
        >(operation_path(s.value)),
{
    lemma_normalized_fits(root, op.path);
    if let Ok(p) = normalize_spec(root, op.path) {
        match op.op {
            OpKind::Unstage => {
                if let Some(r) = head_tree {
                    lemma_walk_found_fits(objs, r, p);
                }
            },
            OpKind::Stage => {
                lemma_process_fits(objs, cache, ws, p);
            },
        }
    }
}

/// Resolving a batch gives one operation for each operation of the batch,
/// in order; each fits and lies on the path that its raw path spells.
pub proof fn lemma_resolved(
    objs: Objects,
    cache: CacheMap,
    head_tree: Option<ObjectRefView>,
    ws: Seq<WorkEntryView>,
    root: Seq<u8>,
    ops: Seq<BatchOpView>,
    i: int,
    acc: Seq<OperationView>,
)
    requires
        0 <= i <= ops.len(),
        acc.len() == i,
        cache_fits(cache),
        head_tree matches Some(r) ==> ref_wf(r),
        forall|j: int| 0 <= j < ops.len() ==> (#[trigger] ops[j]).path.len() <= u64::MAX,
        forall|j: int|
            0 <= j < i ==> operation_fits(#[trigger] acc[j]) && normalize_spec(root, ops[j].path)
                == Ok::<Seq<Seq<u8>>, crate::error::Error>(operation_path(acc[j])),
    ensures
        resolve_spec_all(objs, cache, head_tree, ws, root, ops, i, acc) matches Ok(s) ==> {
            &&& s.value.len() == ops.len()
            &&& forall|j: int|
                0 <= j < ops.len() ==> operation_fits(#[trigger] s.value[j]) && normalize_spec(
                    root,
                    ops[j].path,
                ) == Ok::<Seq<Seq<u8>>, crate::error::Error>(operation_path(s.value[j]))
        },
    decreases ops.len() - i,
{
    if i < ops.len() {
        lemma_operation_fits(objs, cache, head_tree, ws, root, ops[i]);
        if let Ok(s) = operation_spec(objs, cache, head_tree, ws, root, ops[i]) {
            let next = acc.push(s.value);
            assert forall|j: int| 0 <= j < i + 1 implies operation_fits(#[trigger] next[j])
                && normalize_spec(root, ops[j].path) == Ok::<Seq<Seq<u8>>, crate::error::Error>(
                operation_path(next[j]),
            ) by {
                if j < i {
                    assert(next[j] == acc[j]);
                }
            }
            lemma_resolved(s.objs, s.cache, head_tree, ws, root, ops, i + 1, next);
        }
    }
}

/// The operations on objects that a batch resolves to.
pub open spec fn resolved_batch(repo: RepositoryView, ws: Seq<WorkEntryView>, ops: Seq<BatchOpView>) -> Seq<
    OperationView,
> {
    resolve_spec_all(
        repo.objs,
        repo.cache,
        head_tree_spec(repo.objs, repo.state.head)->Ok_0,
        ws,
        repo.root,
        ops,
        0,
        Seq::empty(),
    )->Ok_0.value
}

/// The last write wins. When a batch has been staged, the candidate holds at
/// the path of an operation what that operation resolved to: the object
/// that it found, or nothing where it found nothing. This holds of every
/// operation after which no operation of the batch has a path that leads to
/// its path, to something above it or to something below it. In a repository
/// that starts empty the candidate is thus the batch folded by path, a
/// deletion counting as absence.
pub proof fn lemma_stage_batch_last_write_wins(
    repo: RepositoryView,
    ws: Seq<WorkEntryView>,
    ops: Seq<BatchOpView>,
    k: int,
)
    requires
        cache_fits(repo.cache),
        forall|j: int| 0 <= j < ops.len() ==> (#[trigger] ops[j]).path.len() <= u64::MAX,
        0 <= k < ops.len(),
        normalize_spec(repo.root, ops[k].path) matches Ok(p) && p.len() >= 1,
        forall|j: int|
            k < j < ops.len() ==> (normalize_spec(repo.root, (#[trigger] ops[j]).path) matches Ok(
                q,
            ) ==> independent(q, normalize_spec(repo.root, ops[k].path)->Ok_0)),
    ensures
        stage_batch_spec(repo, ws, ops) matches Ok(v) ==> {
            let batch = resolved_batch(repo, ws, ops);
            &&& batch.len() == ops.len()
            &&& operation_path(batch[k]) == normalize_spec(repo.root, ops[k].path)->Ok_0
            &&& hierarchy_get(v.objs, v.state.candidate, operation_path(batch[k])) == walk_result(
                operation_leaves(batch[k]),
            )
        },
{
    if let Ok(v) = stage_batch_spec(repo, ws, ops) {
        let head_tree = head_tree_spec(repo.objs, repo.state.head)->Ok_0;
        lemma_head_tree_fits(repo.objs, repo.state.head);
        lemma_resolved(repo.objs, repo.cache, head_tree, ws, repo.root, ops, 0, Seq::empty());
        let s = resolve_spec_all(
            repo.objs,
            repo.cache,
            head_tree,
            ws,
            repo.root,
            ops,
            0,
            Seq::empty(),
        )->Ok_0;
        let batch = s.value;
        assert forall|j: int| k < j < batch.len() implies independent(
            operation_path(#[trigger] batch[j]),
            operation_path(batch[k]),
        ) by {
            assert(ops[j].path.len() <= u64::MAX);
        }
        lemma_stage_last_write_wins(s.objs, repo.state, batch, k);
    }
}

} // verus!
