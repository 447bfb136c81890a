//! The fingerprint cache: which file was last seen how, and what it hashed
//! to, so that an unchanged file is not hashed again.

use vstd::prelude::*;
use crate::error::Error;
use crate::hierarchy::ref_view;
use crate::object::ObjectRef;
use crate::object::ObjectRefView;
use crate::path::ObjectPath;

verus! {

/// What kind of thing a filesystem entry is.
#[derive(Clone, Copy, Debug, PartialEq, Eq, Structural)]
pub enum FileKind {
    Regular,
    Symlink,
    Directory,
}

/// What the filesystem says of an entry without reading it. Inode and device
/// are zero where the platform gives none.
#[derive(Clone, Copy, Debug, PartialEq, Eq, Structural)]
pub struct Fingerprint {
    pub size: u64,
    pub mtime_secs: i64,
    pub mtime_nanos: u32,
    pub inode: u64,
    pub device: u64,
    pub kind: FileKind,
}

/// How far a remembered object can be believed.
#[derive(Clone, Copy, Debug, PartialEq, Eq, Structural)]
pub enum Certainty {
    /// The fingerprint is the one remembered: the object is believed current.
    Positive,
    /// The fingerprint has changed: the object is stale.
    Negative,
}

/// The fingerprint of a path as the cache handed it out, with the object
/// that the cache remembered for the path at that moment.
#[derive(Debug)]
pub struct Snapshot {
    path: ObjectPath,
    fingerprint: Fingerprint,
    object: Option<ObjectRef>,
}

/// The mathematical value of a [`Snapshot`].
pub struct SnapshotView {
    pub path: Seq<Seq<u8>>,
    pub fingerprint: Fingerprint,
    pub object: Option<ObjectRefView>,
}

impl View for Snapshot {
    type V = SnapshotView;

    closed spec fn view(&self) -> SnapshotView {
        SnapshotView {
            path: self.path@,
            fingerprint: self.fingerprint,
            object: ref_view(self.object),
        }
    }
}

impl Snapshot {
    /// The path that was looked at.
    pub fn as_path(&self) -> (p: &ObjectPath)
        ensures
            p@ == self@.path,
    {
        &self.path
    }

    /// The fingerprint that was seen.
    pub fn as_fingerprint(&self) -> (f: Fingerprint)
        ensures
            f == self@.fingerprint,
    {
        self.fingerprint
    }

    /// The object that the cache remembered for the path.
    pub fn as_object_ref(&self) -> (r: &Option<ObjectRef>)
        ensures
            ref_view(*r) == self@.object,
    {
        &self.object
    }
}

/// What the cache says of a path.
#[derive(Debug)]
pub enum Status {
    /// Never seen, and present now.
    New(Snapshot),
    /// Known, and present now.
    Extant(Certainty, Snapshot),
    /// Known, and absent now.
    Removed,
    /// Never seen, and absent now.
    Extinct,
}

/// The mathematical value of a [`Status`].
pub enum StatusView {
    New(SnapshotView),
    Extant(Certainty, SnapshotView),
    Removed,
    Extinct,
}

impl View for Status {
    type V = StatusView;

    open spec fn view(&self) -> StatusView {
        match self {
            Status::New(s) => StatusView::New(s@),
            Status::Extant(c, s) => StatusView::Extant(*c, s@),
            Status::Removed => StatusView::Removed,
            Status::Extinct => StatusView::Extinct,
        }
    }
}

/// What the cache remembers of one path.
pub struct Remembered {
    pub fingerprint: Fingerprint,
    pub object: ObjectRefView,
}

/// What a cache holds: what it remembers, by path.
pub type CacheMap = Map<Seq<Seq<u8>>, Remembered>;

/// The status of a path, from what the cache remembers and what the
/// filesystem shows now (`None` where the path is absent).
pub open spec fn status_spec(cache: CacheMap, path: Seq<Seq<u8>>, observed: Option<Fingerprint>) -> StatusView {
    if cache.dom().contains(path) {
        match observed {
            Some(f) => StatusView::Extant(
                if cache[path].fingerprint == f {
                    Certainty::Positive
                } else {
                    Certainty::Negative
                },
                SnapshotView { path, fingerprint: f, object: Some(cache[path].object) },
            ),
            None => StatusView::Removed,
        }
    } else {
        match observed {
            Some(f) => StatusView::New(SnapshotView { path, fingerprint: f, object: None }),
            None => StatusView::Extinct,
        }
    }
}

/// Whether the cache, as it stands, could have handed out the snapshot: the
/// snapshot remembers for its path what the cache remembers.
pub open spec fn issued(cache: CacheMap, snapshot: SnapshotView) -> bool {
    if cache.dom().contains(snapshot.path) {
        snapshot.object == Some(cache[snapshot.path].object)
    } else {
        snapshot.object is None
    }
}

/// Whether the cache already remembers `object` for the snapshot.
pub open spec fn resolved(cache: CacheMap, snapshot: SnapshotView, object: ObjectRefView) -> bool {
    cache.dom().contains(snapshot.path) && cache[snapshot.path] == (Remembered {
        fingerprint: snapshot.fingerprint,
        object,
    })
}

/// Recording that a snapshot hashes to an object. A snapshot that the cache
/// did not hand out is refused, unless the cache holds the very record
/// already.
pub open spec fn resolve_spec(cache: CacheMap, snapshot: SnapshotView, object: ObjectRefView) -> Result<
    CacheMap,
    Error,
> {
    if issued(cache, snapshot) || resolved(cache, snapshot, object) {
        Ok(cache.insert(snapshot.path, Remembered { fingerprint: snapshot.fingerprint, object }))
    } else {
        Err(Error::CacheInconsistent)
    }
}

/// Every snapshot that a status carries was handed out by the cache.
pub proof fn lemma_status_issued(cache: CacheMap, path: Seq<Seq<u8>>, observed: Option<Fingerprint>)
    ensures
        match status_spec(cache, path, observed) {
            StatusView::New(s) => issued(cache, s),
            StatusView::Extant(_, s) => issued(cache, s),
            _ => true,
        },
{
}

/// Resolving a snapshot a second time to the same object changes nothing.
pub proof fn lemma_resolve_idempotent(cache: CacheMap, snapshot: SnapshotView, object: ObjectRefView)
    ensures
        resolve_spec(cache, snapshot, object) matches Ok(c) ==> resolve_spec(c, snapshot, object)
            == Ok::<CacheMap, Error>(c),
{
    if let Ok(c) = resolve_spec(cache, snapshot, object) {
        assert(resolved(c, snapshot, object));
        assert(c.insert(
            snapshot.path,
            Remembered { fingerprint: snapshot.fingerprint, object },
        ) =~= c);
    }
}

/// After a snapshot has been resolved, a path that still shows the same
/// fingerprint is known, with certainty, to hold the object.
pub proof fn lemma_resolve_then_status(cache: CacheMap, snapshot: SnapshotView, object: ObjectRefView)
    ensures
        resolve_spec(cache, snapshot, object) matches Ok(c) ==> status_spec(
            c,
            snapshot.path,
            Some(snapshot.fingerprint),
        ) == StatusView::Extant(
            Certainty::Positive,
            SnapshotView {
                path: snapshot.path,
                fingerprint: snapshot.fingerprint,
                object: Some(object),
            },
        ),
{
}

/// One record of the cache.
#[derive(Debug)]
struct Record {
    path: ObjectPath,
    fingerprint: Fingerprint,
    object: ObjectRef,
}

spec fn records_has(rs: Seq<Record>, p: Seq<Seq<u8>>) -> bool {
    exists|i: int| 0 <= i < rs.len() && (#[trigger] rs[i]).path@ == p
}

spec fn records_index(rs: Seq<Record>, p: Seq<Seq<u8>>) -> int {
    choose|i: int| 0 <= i < rs.len() && (#[trigger] rs[i]).path@ == p
}

spec fn record_value(r: Record) -> Remembered {
    Remembered { fingerprint: r.fingerprint, object: r.object@ }
}

spec fn records_map(rs: Seq<Record>) -> CacheMap {
    Map::new(
        |p: Seq<Seq<u8>>| records_has(rs, p),
        |p: Seq<Seq<u8>>| record_value(rs[records_index(rs, p)]),
    )
}

spec fn records_wf(rs: Seq<Record>) -> bool {
    forall|i: int, j: int|
        0 <= i < rs.len() && 0 <= j < rs.len() && (#[trigger] rs[i]).path@ == (
        #[trigger] rs[j]).path@ ==> i == j
}

proof fn lemma_records_at(rs: Seq<Record>, i: int)
    requires
        records_wf(rs),
        0 <= i < rs.len(),
    ensures
        records_map(rs).dom().contains(rs[i].path@),
        records_map(rs)[rs[i].path@] == record_value(rs[i]),
{
    assert(records_has(rs, rs[i].path@));
}

proof fn lemma_records_push(rs: Seq<Record>, r: Record)
    requires
        records_wf(rs),
        !records_has(rs, r.path@),
    ensures
        records_wf(rs.push(r)),
        records_map(rs.push(r)) == records_map(rs).insert(r.path@, record_value(r)),
{
    let u = rs.push(r);
    assert forall|i: int, j: int|
        0 <= i < u.len() && 0 <= j < u.len() && (#[trigger] u[i]).path@ == (#[trigger] u[j]).path@
        implies i == j by {
        if i < rs.len() {
            assert(u[i] == rs[i]);
        }
        if j < rs.len() {
            assert(u[j] == rs[j]);
        }
    }
    let m = records_map(rs).insert(r.path@, record_value(r));
    assert forall|p: Seq<Seq<u8>>| records_map(u).dom().contains(p) <==> m.dom().contains(p) by {
        if records_has(u, p) {
            let i = records_index(u, p);
            if i < rs.len() {
                assert(u[i] == rs[i]);
                assert(records_has(rs, p));
            }
        }
        if records_has(rs, p) {
            let i = records_index(rs, p);
            assert(u[i] == rs[i]);
            assert(records_has(u, p));
        }
        if p == r.path@ {
            assert(u[rs.len() as int] == r);
            assert(records_has(u, p));
        }
    }
    assert forall|p: Seq<Seq<u8>>| records_map(u).dom().contains(p) implies records_map(u)[p]
        == m[p] by {
        assert(records_has(u, p));
        let i = records_index(u, p);
        lemma_records_at(u, i);
        if i < rs.len() {
            assert(u[i] == rs[i]);
            lemma_records_at(rs, i);
        }
    }
    assert(records_map(u) =~= m);
}

proof fn lemma_records_update(rs: Seq<Record>, i: int, r: Record)
    requires
        records_wf(rs),
        0 <= i < rs.len(),
        r.path@ == rs[i].path@,
    ensures
        records_wf(rs.update(i, r)),
        records_map(rs.update(i, r)) == records_map(rs).insert(r.path@, record_value(r)),
{
    let u = rs.update(i, r);
    assert forall|a: int, b: int|
        0 <= a < u.len() && 0 <= b < u.len() && (#[trigger] u[a]).path@ == (#[trigger] u[b]).path@
        implies a == b by {
        assert(u[a].path@ == rs[a].path@);
        assert(u[b].path@ == rs[b].path@);
    }
    let m = records_map(rs).insert(r.path@, record_value(r));
    assert forall|p: Seq<Seq<u8>>| records_map(u).dom().contains(p) <==> m.dom().contains(p) by {
        if records_has(u, p) {
            let k = records_index(u, p);
            assert(u[k].path@ == rs[k].path@);
            assert(records_has(rs, p));
        }
        if records_has(rs, p) {
            let k = records_index(rs, p);
            assert(u[k].path@ == rs[k].path@);
            assert(records_has(u, p));
        }
    }
    assert forall|p: Seq<Seq<u8>>| records_map(u).dom().contains(p) implies records_map(u)[p]
        == m[p] by {
        assert(records_has(u, p));
        let k = records_index(u, p);
        lemma_records_at(u, k);
        if k != i {
            assert(u[k] == rs[k]);
            lemma_records_at(rs, k);
        }
    }
    assert(records_map(u) =~= m);
}

/// The fingerprint cache.
#[derive(Debug)]
pub struct Cache {
    records: Vec<Record>,
}

impl View for Cache {
    type V = CacheMap;

    closed spec fn view(&self) -> CacheMap {
        records_map(self.records@)
    }
}

impl Cache {
    /// No path has two records.
    #[verifier::type_invariant]
    closed spec fn inv(&self) -> bool {
        records_wf(self.records@)
    }

    /// The cache that remembers nothing: it has no record.
    pub fn new() -> (c: Cache)
        ensures
            c@ == CacheMap::empty(),
            c.count() == 0,
    {
        let c = Cache { records: Vec::new() };
        assert(c@ =~= CacheMap::empty());
        c
    }

    /// The number of paths remembered.
    pub fn len(&self) -> (n: usize)
        ensures
            n == self.count(),
    {
        self.records.len()
    }

    /// The number of paths remembered.
    pub closed spec fn count(&self) -> nat {
        self.records@.len()
    }

    /// The `i`-th record: a path with what is remembered of it.
    pub fn record_at(&self, i: usize) -> (r: (&ObjectPath, Fingerprint, &ObjectRef))
        requires
            i < self.count(),
        ensures
            self@.dom().contains(r.0@),
            self@[r.0@] == (Remembered { fingerprint: r.1, object: r.2@ }),
    {
        proof {
            use_type_invariant(self);
            lemma_records_at(self.records@, i as int);
        }
        (&self.records[i].path, self.records[i].fingerprint, &self.records[i].object)
    }

    fn find(&self, path: &ObjectPath) -> (r: Option<usize>)
        ensures
            match r {
                Some(i) => i < self.records@.len() && self.records@[i as int].path@ == path@,
                None => !records_has(self.records@, path@),
            },
    {
        let mut i: usize = 0;
        while i < self.records.len()
            invariant
                i <= self.records@.len(),
                forall|j: int| 0 <= j < i ==> (#[trigger] self.records@[j]).path@ != path@,
            decreases self.records@.len() - i,
        {
            if self.records[i].path.same(path) {
                return Some(i);
            }
            i = i + 1;
        }
        None
    }

    /// The status of a path, given what the filesystem shows of it now:
    /// its fingerprint, or `None` where it is absent.
    pub fn status(&self, path: &ObjectPath, observed: Option<Fingerprint>) -> (s: Status)
        ensures
            s@ == status_spec(self@, path@, observed),
    {
        proof {
            use_type_invariant(self);
        }
        match self.find(path) {
            Some(i) => {
                proof {
                    lemma_records_at(self.records@, i as int);
                }
                match observed {
                    Some(f) => {
                        let certainty = if self.records[i].fingerprint == f {
                            Certainty::Positive
                        } else {
                            Certainty::Negative
                        };
                        Status::Extant(
                            certainty,
                            Snapshot {
                                path: path.duplicate(),
                                fingerprint: f,
                                object: Some(self.records[i].object.duplicate()),
                            },
                        )
                    },
                    None => Status::Removed,
                }
            },
            None => match observed {
                Some(f) => Status::New(
                    Snapshot { path: path.duplicate(), fingerprint: f, object: None },
                ),
                None => Status::Extinct,
            },
        }
    }

    /// Records that a snapshot hashes to an object. The snapshot must be one
    /// that this cache handed out for the path as the cache still knows it;
    /// another one is refused with `CacheInconsistent` and nothing changes.
    pub fn resolve(&mut self, snapshot: Snapshot, object: ObjectRef) -> (r: Result<(), Error>)
        ensures
            match resolve_spec(old(self)@, snapshot@, object@) {
                Ok(c) => r is Ok && final(self)@ == c,
                Err(e) => r == Err::<(), Error>(e) && final(self)@ == old(self)@,
            },
    {
        proof {
            use_type_invariant(&*self);
        }
        let ghost before = self.records@;
        match self.find(&snapshot.path) {
            Some(i) => {
                proof {
                    lemma_records_at(before, i as int);
                }
                let known = &self.records[i];
                let was_issued = match &snapshot.object {
                    Some(o) => o.same(&known.object),
                    None => false,
                };
                let is_resolved = known.fingerprint == snapshot.fingerprint && known.object.same(
                    &object,
                );
                if !was_issued && !is_resolved {
                    return Err(Error::CacheInconsistent);
                }
                let record = Record {
                    path: snapshot.path,
                    fingerprint: snapshot.fingerprint,
                    object,
                };
                proof {
                    lemma_records_update(before, i as int, record);
                }
                let mut records: Vec<Record> = Vec::new();
                core::mem::swap(&mut self.records, &mut records);
                records.set(i, record);
                core::mem::swap(&mut self.records, &mut records);
                Ok(())
            },
            None => {
                if snapshot.object.is_some() {
                    return Err(Error::CacheInconsistent);
                }
                let record = Record {
                    path: snapshot.path,
                    fingerprint: snapshot.fingerprint,
                    object,
                };
                proof {
                    lemma_records_push(before, record);
                }
                let mut records: Vec<Record> = Vec::new();
                core::mem::swap(&mut self.records, &mut records);
                records.push(record);
                core::mem::swap(&mut self.records, &mut records);
                Ok(())
            },
        }
    }
}

} // verus!
