//! The object store: content-addressed keeping of encoded objects.
//!
//! An object is kept under the digest of its bytes. What is kept is never
//! changed or removed, so a store only grows.

use vstd::prelude::*;
use crate::bytes::bytes_eq;
use crate::digest::Digest;
use crate::digest::digest_of;
use crate::error::Error;
use crate::object::Blob;
use crate::object::BlobView;
use crate::object::Commit;
use crate::object::CommitView;
use crate::object::ObjectKind;
use crate::object::ObjectRef;
use crate::object::ObjectRefView;
use crate::tree::Tree;
use crate::tree::TreeEntryView;
use crate::wire::decode_blob;
use crate::wire::decode_commit;
use crate::wire::decode_tree;
use crate::wire::encode_blob;
use crate::wire::encode_commit;
use crate::wire::encode_tree;

verus! {

/// What a store holds: bytes under digests.
pub type Objects = Map<Seq<u8>, Seq<u8>>;

/// Every object is kept under the digest of its bytes.
pub open spec fn content_addressed(objs: Objects) -> bool {
    forall|k: Seq<u8>| #[trigger] objs.dom().contains(k) ==> digest_of(objs[k]) == k
}

/// Whether `later` holds all that `earlier` holds, unchanged.
pub open spec fn extends(later: Objects, earlier: Objects) -> bool {
    forall|k: Seq<u8>| #[trigger]
        earlier.dom().contains(k) ==> later.dom().contains(k) && later[k] == earlier[k]
}

/// What putting `bytes` into a store comes to: the store with the bytes
/// under their digest, or a failure where other bytes lie under that digest.
pub open spec fn store_put(objs: Objects, bytes: Seq<u8>) -> Result<Objects, Error> {
    let d = digest_of(bytes);
    if objs.dom().contains(d) && objs[d] != bytes {
        Err(Error::Io)
    } else {
        Ok(objs.insert(d, bytes))
    }
}

/// What fetching the bytes under a digest comes to.
pub open spec fn store_get(objs: Objects, digest: Seq<u8>) -> Result<Seq<u8>, Error> {
    if objs.dom().contains(digest) {
        Ok(objs[digest])
    } else {
        Err(Error::NotFound)
    }
}

/// The listing of the tree under a digest.
pub open spec fn load_tree(objs: Objects, digest: Seq<u8>) -> Result<Seq<TreeEntryView>, Error> {
    match store_get(objs, digest) {
        Ok(bytes) => match decode_tree(bytes) {
            Some(es) => Ok(es),
            None => Err(Error::Io),
        },
        Err(e) => Err(e),
    }
}

/// The commit under a digest.
pub open spec fn load_commit(objs: Objects, digest: Seq<u8>) -> Result<CommitView, Error> {
    match store_get(objs, digest) {
        Ok(bytes) => match decode_commit(bytes) {
            Some(c) => Ok(c),
            None => Err(Error::Io),
        },
        Err(e) => Err(e),
    }
}

/// The blob object under a digest.
pub open spec fn load_blob(objs: Objects, digest: Seq<u8>) -> Result<BlobView, Error> {
    match store_get(objs, digest) {
        Ok(bytes) => match decode_blob(bytes) {
            Some(b) => Ok(b),
            None => Err(Error::Io),
        },
        Err(e) => Err(e),
    }
}

/// Whether two stores hold the same bytes wherever both hold something.
pub open spec fn agree(a: Objects, b: Objects) -> bool {
    forall|k: Seq<u8>| a.dom().contains(k) && b.dom().contains(k) ==> a[k] == b[k]
}

/// Putting bytes into a store keeps all that it held.
pub proof fn lemma_put_extends(objs: Objects, bytes: Seq<u8>)
    ensures
        store_put(objs, bytes) matches Ok(m) ==> extends(m, objs) && m.dom().contains(
            digest_of(bytes),
        ) && m[digest_of(bytes)] == bytes,
{
}

/// Putting the same bytes a second time changes nothing.
pub proof fn lemma_put_idempotent(objs: Objects, bytes: Seq<u8>)
    ensures
        store_put(objs, bytes) matches Ok(m) ==> store_put(m, bytes) == Ok::<Objects, Error>(m),
{
    if let Ok(m) = store_put(objs, bytes) {
        assert(m.insert(digest_of(bytes), bytes) =~= m);
    }
}

/// Putting bytes into a content-addressed store leaves it content-addressed.
pub proof fn lemma_put_content_addressed(objs: Objects, bytes: Seq<u8>)
    requires
        content_addressed(objs),
    ensures
        store_put(objs, bytes) matches Ok(m) ==> content_addressed(m),
{
}

/// `extends` is reflexive and transitive.
pub proof fn lemma_extends_trans(a: Objects, b: Objects, c: Objects)
    requires
        extends(b, a),
        extends(c, b),
    ensures
        extends(c, a),
        extends(a, a),
{
}

/// One kept object.
#[derive(Debug)]
struct Kept {
    key: Digest,
    bytes: Vec<u8>,
}

/// An in-memory content-addressed store.
#[derive(Debug)]
pub struct Store {
    kept: Vec<Kept>,
}

spec fn kept_has(kept: Seq<Kept>, k: Seq<u8>) -> bool {
    exists|i: int| 0 <= i < kept.len() && (#[trigger] kept[i]).key@ == k
}

spec fn kept_index(kept: Seq<Kept>, k: Seq<u8>) -> int {
    choose|i: int| 0 <= i < kept.len() && (#[trigger] kept[i]).key@ == k
}

spec fn kept_map(kept: Seq<Kept>) -> Objects {
    Map::new(|k: Seq<u8>| kept_has(kept, k), |k: Seq<u8>| kept[kept_index(kept, k)].bytes@)
}

spec fn kept_wf(kept: Seq<Kept>) -> bool {
    &&& forall|i: int, j: int|
        0 <= i < kept.len() && 0 <= j < kept.len() && (#[trigger] kept[i]).key@ == (
        #[trigger] kept[j]).key@ ==> i == j
    &&& forall|i: int| 0 <= i < kept.len() ==> digest_of((#[trigger] kept[i]).bytes@) == kept[i].key@
}

proof fn lemma_kept_at(kept: Seq<Kept>, i: int)
    requires
        kept_wf(kept),
        0 <= i < kept.len(),
    ensures
        kept_map(kept).dom().contains(kept[i].key@),
        kept_map(kept)[kept[i].key@] == kept[i].bytes@,
{
    assert(kept_has(kept, kept[i].key@));
}

proof fn lemma_kept_push(kept: Seq<Kept>, e: Kept)
    requires
        kept_wf(kept),
        !kept_has(kept, e.key@),
        digest_of(e.bytes@) == e.key@,
    ensures
        kept_wf(kept.push(e)),
        kept_map(kept.push(e)) == kept_map(kept).insert(e.key@, e.bytes@),
{
    let u = kept.push(e);
    assert forall|i: int, j: int|
        0 <= i < u.len() && 0 <= j < u.len() && (#[trigger] u[i]).key@ == (#[trigger] u[j]).key@
        implies i == j by {
        if i < kept.len() {
            assert(u[i] == kept[i]);
        }
        if j < kept.len() {
            assert(u[j] == kept[j]);
        }
    }
    assert forall|i: int| 0 <= i < u.len() implies digest_of((#[trigger] u[i]).bytes@)
        == u[i].key@ by {
        if i < kept.len() {
            assert(u[i] == kept[i]);
        }
    }
    let m = kept_map(kept).insert(e.key@, e.bytes@);
    assert forall|k: Seq<u8>| kept_map(u).dom().contains(k) <==> m.dom().contains(k) by {
        if kept_has(u, k) {
            let i = kept_index(u, k);
            if i < kept.len() {
                assert(u[i] == kept[i]);
                assert(kept_has(kept, k));
            }
        }
        if kept_has(kept, k) {
            let i = kept_index(kept, k);
            assert(u[i] == kept[i]);
            assert(kept_has(u, k));
        }
        if k == e.key@ {
            assert(u[kept.len() as int] == e);
            assert(kept_has(u, k));
        }
    }
    assert forall|k: Seq<u8>| kept_map(u).dom().contains(k) implies kept_map(u)[k] == m[k] by {
        assert(kept_has(u, k));
        let i = kept_index(u, k);
        lemma_kept_at(u, i);
        if i < kept.len() {
            assert(u[i] == kept[i]);
            lemma_kept_at(kept, i);
        }
    }
    assert(kept_map(u) =~= m);
}

impl View for Store {
    type V = Objects;

    closed spec fn view(&self) -> Objects {
        kept_map(self.kept@)
    }
}

impl Store {
    /// No two kept objects share a digest, and each lies under the digest of
    /// its bytes.
    #[verifier::type_invariant]
    pub closed spec fn inv(&self) -> bool {
        kept_wf(self.kept@)
    }

    /// What the invariant says of the view: the store is content-addressed.
    pub proof fn lemma_inv(&self)
        requires
            self.inv(),
        ensures
            content_addressed(self@),
    {
        assert forall|k: Seq<u8>| #[trigger] self@.dom().contains(k) implies digest_of(self@[k])
            == k by {
            assert(kept_has(self.kept@, k));
            lemma_kept_at(self.kept@, kept_index(self.kept@, k));
        }
    }

    /// The digests under which objects are kept, in the order in which the
    /// objects came.
    pub closed spec fn keys(&self) -> Seq<Seq<u8>> {
        self.kept@.map_values(|k: Kept| k.key@)
    }

    /// What the invariant says of the keys: none occurs twice, and they are
    /// the digests under which the store holds something.
    pub proof fn lemma_keys(&self)
        requires
            self.inv(),
        ensures
            self.keys().no_duplicates(),
            forall|d: Seq<u8>| self@.dom().contains(d) <==> self.keys().contains(d),
    {
        let keys = self.keys();
        assert forall|i: int, j: int| 0 <= i < keys.len() && 0 <= j < keys.len() && i != j implies keys[i]
            != keys[j] by {
            assert(keys[i] == self.kept@[i].key@ && keys[j] == self.kept@[j].key@);
        }
        assert forall|d: Seq<u8>| self@.dom().contains(d) <==> keys.contains(d) by {
            if kept_has(self.kept@, d) {
                let i = kept_index(self.kept@, d);
                assert(keys[i] == d);
            }
            if keys.contains(d) {
                let i = choose|i: int| 0 <= i < keys.len() && keys[i] == d;
                assert(self.kept@[i].key@ == d);
            }
        }
    }

    /// The empty store: it holds nothing, under no key.
    pub fn new() -> (s: Store)
        ensures
            s@ == Objects::empty(),
            s.count() == 0,
            s.keys() == Seq::<Seq<u8>>::empty(),
    {
        let s = Store { kept: Vec::new() };
        assert(s@ =~= Objects::empty());
        assert(s.keys() =~= Seq::<Seq<u8>>::empty());
        s
    }

    /// The number of kept objects.
    pub fn len(&self) -> (n: usize)
        ensures
            n == self.count(),
    {
        self.kept.len()
    }

    /// The number of kept objects.
    pub closed spec fn count(&self) -> nat {
        self.kept@.len()
    }

    /// The digest and the bytes of the `i`-th kept object, in the order in
    /// which the objects came.
    pub fn object_at(&self, i: usize) -> (r: (&Digest, &Vec<u8>))
        requires
            i < self.count(),
        ensures
            r.0@ == self.keys()[i as int],
            self@.dom().contains(r.0@),
            self@[r.0@] == r.1@,
            digest_of(r.1@) == r.0@,
    {
        proof {
            use_type_invariant(self);
            lemma_kept_at(self.kept@, i as int);
        }
        (&self.kept[i].key, &self.kept[i].bytes)
    }

    fn find(&self, digest: &Digest) -> (r: Option<usize>)
        ensures
            match r {
                Some(i) => i < self.kept@.len() && self.kept@[i as int].key@ == digest@,
                None => !kept_has(self.kept@, digest@),
            },
    {
        let mut i: usize = 0;
        while i < self.kept.len()
            invariant
                i <= self.kept@.len(),
                forall|j: int| 0 <= j < i ==> (#[trigger] self.kept@[j]).key@ != digest@,
            decreases self.kept@.len() - i,
        {
            if self.kept[i].key.same(digest) {
                return Some(i);
            }
            i = i + 1;
        }
        None
    }

    /// Whether an object lies under the digest.
    pub fn contains(&self, digest: &Digest) -> (b: bool)
        ensures
            b == self@.dom().contains(digest@),
    {
        self.find(digest).is_some()
    }

    /// The bytes under the digest; `NotFound` where there are none.
    pub fn get(&self, digest: &Digest) -> (r: Result<&Vec<u8>, Error>)
        ensures
            match r {
                Ok(bytes) => store_get(self@, digest@) == Ok::<Seq<u8>, Error>(bytes@)
                    && digest_of(bytes@) == digest@,
                Err(e) => store_get(self@, digest@) == Err::<Seq<u8>, Error>(e),
            },
    {
        proof {
            use_type_invariant(self);
        }
        match self.find(digest) {
            Some(i) => {
                proof {
                    lemma_kept_at(self.kept@, i as int);
                }
                Ok(&self.kept[i].bytes)
            },
            None => Err(Error::NotFound),
        }
    }

    /// Keeps `bytes` under their digest and gives the digest. Bytes that are
    /// kept already are not kept twice. Where other bytes lie under the same
    /// digest, the store is left as it is and the call fails with `Io`.
    pub fn put(&mut self, bytes: Vec<u8>) -> (r: Result<Digest, Error>)
        ensures
            match store_put(old(self)@, bytes@) {
                Ok(m) => final(self)@ == m && r is Ok && r->Ok_0@ == digest_of(bytes@),
                Err(e) => final(self)@ == old(self)@ && r == Err::<Digest, Error>(e),
            },
    {
        proof {
            use_type_invariant(&*self);
        }
        let key = Digest::of(bytes.as_slice());
        match self.find(&key) {
            Some(i) => {
                proof {
                    lemma_kept_at(self.kept@, i as int);
                }
                if bytes_eq(self.kept[i].bytes.as_slice(), bytes.as_slice()) {
                    assert(self@.insert(key@, bytes@) =~= self@);
                    Ok(key)
                } else {
                    Err(Error::Io)
                }
            },
            None => {
                let ghost before = self.kept@;
                let copy = key.duplicate();
                let e = Kept { key, bytes };
                proof {
                    lemma_kept_push(before, e);
                }
                let mut kept: Vec<Kept> = Vec::new();
                core::mem::swap(&mut self.kept, &mut kept);
                kept.push(e);
                core::mem::swap(&mut self.kept, &mut kept);
                Ok(copy)
            },
        }
    }

    /// Takes over every object of `other`. Where the two stores hold
    /// different bytes under one digest, the call fails with `Io`; what was
    /// taken over by then stays.
    pub fn absorb(&mut self, other: &Store) -> (r: Result<(), Error>)
        ensures
            extends(final(self)@, old(self)@),
            r is Ok <==> agree(old(self)@, other@),
            r is Ok ==> final(self)@ == old(self)@.union_prefer_right(other@),
            r is Err ==> r == Err::<(), Error>(Error::Io),
    {
        proof {
            use_type_invariant(other);
            other.lemma_keys();
        }
        let ghost keys = other.keys();
        let n = other.len();
        let mut i: usize = 0;
        while i < n
            invariant
                i <= n,
                n == other.count(),
                keys == other.keys(),
                keys.len() == n,
                other.inv(),
                keys.no_duplicates(),
                forall|d: Seq<u8>| other@.dom().contains(d) <==> keys.contains(d),
                extends(self@, old(self)@),
                forall|j: int|
                    0 <= j < i ==> self@.dom().contains(#[trigger] keys[j]) && self@[keys[j]]
                        == other@[keys[j]],
                forall|j: int|
                    0 <= j < i ==> !(old(self)@.dom().contains(#[trigger] keys[j]) && old(
                        self,
                    )@[keys[j]] != other@[keys[j]]),
                forall|d: Seq<u8>|
                    self@.dom().contains(d) ==> old(self)@.dom().contains(d) || exists|j: int|
                        0 <= j < i && #[trigger] keys[j] == d,
            decreases n - i,
        {
            let (key, bytes) = other.object_at(i);
            let ghost before = self@;
            proof {
                lemma_put_extends(before, bytes@);
            }
            let copy = crate::bytes::bytes_copy(bytes.as_slice(), 0, bytes.len());
            proof {
                assert(bytes@.subrange(0, bytes@.len() as int) =~= bytes@);
            }
            match self.put(copy) {
                Ok(_) => {
                    proof {
                        lemma_extends_trans(old(self)@, before, self@);
                        assert forall|d: Seq<u8>| self@.dom().contains(d) implies old(
                            self,
                        )@.dom().contains(d) || exists|j: int|
                            0 <= j < i + 1 && #[trigger] keys[j] == d by {
                            if !before.dom().contains(d) {
                                assert(keys[i as int] == d);
                            } else if !old(self)@.dom().contains(d) {
                                let j = choose|j: int| 0 <= j < i && #[trigger] keys[j] == d;
                                assert(0 <= j < i + 1 && keys[j] == d);
                            }
                        }
                    }
                },
                Err(e) => {
                    proof {
                        // The bytes in the way are bytes that this store held
                        // from the start: no two objects of `other` share a
                        // digest.
                        let k = keys[i as int];
                        assert(before.dom().contains(k) && before[k] != other@[k]);
                        if !old(self)@.dom().contains(k) {
                            let j = choose|j: int| 0 <= j < i && #[trigger] keys[j] == k;
                            assert(keys[j] == keys[i as int]);
                        }
                        assert(old(self)@.dom().contains(k));
                        assert(other@.dom().contains(k));
                        assert(!agree(old(self)@, other@));
                    }
                    return Err(e);
                },
            }
            i = i + 1;
        }
        proof {
            assert forall|k: Seq<u8>|
                old(self)@.dom().contains(k) && other@.dom().contains(k) implies old(self)@[k]
                == other@[k] by {
                assert(keys.contains(k));
                let j = choose|j: int| 0 <= j < keys.len() && keys[j] == k;
                assert(keys[j] == k);
            }
            assert forall|d: Seq<u8>| self@.dom().contains(d) implies old(self)@.dom().contains(d)
                || other@.dom().contains(d) by {
                if !old(self)@.dom().contains(d) {
                    let j = choose|j: int| 0 <= j < i && #[trigger] keys[j] == d;
                    assert(keys[j] == d);
                    assert(keys.contains(d));
                }
            }
            let u = old(self)@.union_prefer_right(other@);
            assert forall|k: Seq<u8>| #[trigger] other@.dom().contains(k) implies self@.dom().contains(
                k,
            ) && self@[k] == other@[k] by {
                assert(keys.contains(k));
                let j = choose|j: int| 0 <= j < keys.len() && keys[j] == k;
                assert(keys[j] == k);
            }
            assert forall|k: Seq<u8>| self@.dom().contains(k) <==> u.dom().contains(k) by {
                if old(self)@.dom().contains(k) {
                    assert(self@.dom().contains(k));
                }
                if other@.dom().contains(k) {
                    assert(self@.dom().contains(k));
                }
                if self@.dom().contains(k) && !old(self)@.dom().contains(k) {
                    let j = choose|j: int| 0 <= j < i && #[trigger] keys[j] == k;
                    assert(keys[j] == k);
                    assert(keys.contains(k));
                    assert(other@.dom().contains(k));
                }
                assert(u.dom().contains(k) <==> (old(self)@.dom().contains(k)
                    || other@.dom().contains(k)));
            }
            assert forall|k: Seq<u8>| self@.dom().contains(k) implies self@[k] == u[k] by {
                if !other@.dom().contains(k) {
                    assert(old(self)@.dom().contains(k));
                    assert(self@[k] == old(self)@[k]);
                }
            }
            assert(self@ =~= u);
        }
        Ok(())
    }

    /// The tree under a reference.
    pub fn get_tree(&self, digest: &Digest) -> (r: Result<Tree, Error>)
        ensures
            match r {
                Ok(t) => load_tree(self@, digest@) == Ok::<Seq<TreeEntryView>, Error>(t.listing()),
                Err(e) => load_tree(self@, digest@) == Err::<Seq<TreeEntryView>, Error>(e),
            },
    {
        match self.get(digest) {
            Ok(bytes) => match Tree::decode(bytes.as_slice()) {
                Some(t) => Ok(t),
                None => Err(Error::Io),
            },
            Err(e) => Err(e),
        }
    }

    /// The commit under a reference.
    pub fn get_commit(&self, digest: &Digest) -> (r: Result<Commit, Error>)
        ensures
            match r {
                Ok(c) => load_commit(self@, digest@) == Ok::<CommitView, Error>(c@),
                Err(e) => load_commit(self@, digest@) == Err::<CommitView, Error>(e),
            },
    {
        match self.get(digest) {
            Ok(bytes) => match Commit::decode(bytes.as_slice()) {
                Some(c) => Ok(c),
                None => Err(Error::Io),
            },
            Err(e) => Err(e),
        }
    }

    /// The blob object under a reference.
    pub fn get_blob(&self, digest: &Digest) -> (r: Result<Blob, Error>)
        ensures
            match r {
                Ok(b) => load_blob(self@, digest@) == Ok::<BlobView, Error>(b@),
                Err(e) => load_blob(self@, digest@) == Err::<BlobView, Error>(e),
            },
    {
        match self.get(digest) {
            Ok(bytes) => match Blob::decode(bytes.as_slice()) {
                Some(b) => Ok(b),
                None => Err(Error::Io),
            },
            Err(e) => Err(e),
        }
    }

    /// Keeps the encoding of a tree and gives a reference to it.
    pub fn put_tree(&mut self, tree: &Tree) -> (r: Result<ObjectRef, Error>)
        ensures
            match store_put(old(self)@, encode_tree(tree.listing())) {
                Ok(m) => final(self)@ == m && r is Ok && r->Ok_0@ == tree_ref(tree.listing()),
                Err(e) => final(self)@ == old(self)@ && r == Err::<ObjectRef, Error>(e),
            },
    {
        match self.put(tree.encode()) {
            Ok(digest) => Ok(ObjectRef::new(ObjectKind::Tree, digest)),
            Err(e) => Err(e),
        }
    }

    /// Keeps the encoding of a commit and gives a reference to it.
    pub fn put_commit(&mut self, commit: &Commit) -> (r: Result<ObjectRef, Error>)
        ensures
            match store_put(old(self)@, encode_commit(commit@)) {
                Ok(m) => final(self)@ == m && r is Ok && r->Ok_0@ == commit_ref(commit@),
                Err(e) => final(self)@ == old(self)@ && r == Err::<ObjectRef, Error>(e),
            },
    {
        match self.put(commit.encode()) {
            Ok(digest) => Ok(ObjectRef::new(ObjectKind::Commit, digest)),
            Err(e) => Err(e),
        }
    }

    /// Keeps the encoding of a blob object and gives a reference to it.
    pub fn put_blob(&mut self, blob: &Blob) -> (r: Result<ObjectRef, Error>)
        ensures
            match store_put(old(self)@, encode_blob(blob@)) {
                Ok(m) => final(self)@ == m && r is Ok && r->Ok_0@ == blob_ref(blob@),
                Err(e) => final(self)@ == old(self)@ && r == Err::<ObjectRef, Error>(e),
            },
    {
        let kind = match blob {
            Blob::Small(_) => ObjectKind::SmallBlob,
            Blob::Large(_) => ObjectKind::Blob,
        };
        match self.put(blob.encode()) {
            Ok(digest) => Ok(ObjectRef::new(kind, digest)),
            Err(e) => Err(e),
        }
    }
}

/// The reference under which a tree is kept.
pub open spec fn tree_ref(es: Seq<TreeEntryView>) -> ObjectRefView {
    ObjectRefView { kind: ObjectKind::Tree, digest: digest_of(encode_tree(es)) }
}

/// The reference under which a commit is kept.
pub open spec fn commit_ref(c: CommitView) -> ObjectRefView {
    ObjectRefView { kind: ObjectKind::Commit, digest: digest_of(encode_commit(c)) }
}

/// The reference under which a blob object is kept.
pub open spec fn blob_ref(b: BlobView) -> ObjectRefView {
    ObjectRefView {
        kind: match b {
            BlobView::Small(_) => ObjectKind::SmallBlob,
            BlobView::Large(_) => ObjectKind::Blob,
        },
        digest: digest_of(encode_blob(b)),
    }
}

} // verus!
