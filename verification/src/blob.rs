//! Sharing file contents into a store, and reading them back.
//!
//! Contents of at most [`CHUNK_SIZE`] bytes become one small blob. Longer
//! contents are cut into pieces of [`CHUNK_SIZE`] bytes, the last one perhaps
//! shorter; each piece becomes a small blob, and a blob object lists their
//! digests in order.

use vstd::prelude::*;
use crate::bytes::bytes_append;
use crate::bytes::bytes_copy;
use crate::digest::Digest;
use crate::digest::digest_of;
use crate::error::Error;
use crate::object::Blob;
use crate::object::BlobView;
use crate::object::ObjectKind;
use crate::object::ObjectRef;
use crate::object::ObjectRefView;
use crate::object::digests_view;
use crate::store::Objects;
use crate::store::Store;
use crate::store::blob_ref;
use crate::store::extends;
use crate::store::lemma_extends_trans;
use crate::store::lemma_put_extends;
use crate::store::load_blob;
use crate::store::store_put;
use crate::wire::encode_blob;

verus! {

/// The most bytes that a small blob holds.
pub const CHUNK_SIZE: usize = 65536;

/// A store together with something that was put into it.
pub struct Shared<T> {
    pub objs: Objects,
    pub value: T,
}

/// The end of the piece that starts at `pos`.
pub open spec fn piece_end(len: int, pos: int) -> int {
    if pos + CHUNK_SIZE <= len {
        pos + CHUNK_SIZE
    } else {
        len
    }
}

/// Keeping the pieces of `content` from `pos` on, each as a small blob: the
/// store that results and the digests of the pieces.
pub open spec fn put_pieces(objs: Objects, content: Seq<u8>, pos: int) -> Result<
    Shared<Seq<Seq<u8>>>,
    Error,
>
    decreases content.len() - pos,
{
    if pos < 0 || pos >= content.len() {
        Ok(Shared { objs, value: Seq::empty() })
    } else {
        let end = piece_end(content.len() as int, pos);
        let bytes = encode_blob(BlobView::Small(content.subrange(pos, end)));
        match store_put(objs, bytes) {
            Err(e) => Err(e),
            Ok(m) => match put_pieces(m, content, end) {
                Err(e) => Err(e),
                Ok(s) => Ok(Shared { objs: s.objs, value: seq![digest_of(bytes)] + s.value }),
            },
        }
    }
}

/// Sharing `content` into a store: the store that results and the reference
/// to the content.
pub open spec fn share_spec(objs: Objects, content: Seq<u8>) -> Result<Shared<ObjectRefView>, Error> {
    if content.len() <= CHUNK_SIZE {
        let blob = BlobView::Small(content);
        match store_put(objs, encode_blob(blob)) {
            Err(e) => Err(e),
            Ok(m) => Ok(Shared { objs: m, value: blob_ref(blob) }),
        }
    } else {
        match put_pieces(objs, content, 0) {
            Err(e) => Err(e),
            Ok(s) => {
                let blob = BlobView::Large(s.value);
                match store_put(s.objs, encode_blob(blob)) {
                    Err(e) => Err(e),
                    Ok(m) => Ok(Shared { objs: m, value: blob_ref(blob) }),
                }
            },
        }
    }
}

/// The bytes of the small blob under a digest.
pub open spec fn small_content(objs: Objects, digest: Seq<u8>) -> Result<Seq<u8>, Error> {
    match load_blob(objs, digest) {
        Ok(BlobView::Small(data)) => Ok(data),
        Ok(BlobView::Large(_)) => Err(Error::Io),
        Err(e) => Err(e),
    }
}

/// The bytes of the small blobs under the digests, one after the other.
pub open spec fn chunks_content(objs: Objects, chunks: Seq<Seq<u8>>) -> Result<Seq<u8>, Error>
    decreases chunks.len(),
{
    if chunks.len() == 0 {
        Ok(Seq::empty())
    } else {
        match small_content(objs, chunks[0]) {
            Err(e) => Err(e),
            Ok(first) => match chunks_content(objs, chunks.skip(1)) {
                Err(e) => Err(e),
                Ok(rest) => Ok(first + rest),
            },
        }
    }
}

/// The bytes that a reference to a blob stands for. A reference to a tree
/// or a commit stands for no bytes.
pub open spec fn blob_content(objs: Objects, r: ObjectRefView) -> Result<Seq<u8>, Error> {
    match r.kind {
        ObjectKind::SmallBlob => small_content(objs, r.digest),
        ObjectKind::Blob => match load_blob(objs, r.digest) {
            Ok(BlobView::Large(chunks)) => chunks_content(objs, chunks),
            Ok(BlobView::Small(_)) => Err(Error::Io),
            Err(e) => Err(e),
        },
        _ => Err(Error::Io),
    }
}

/// Keeping pieces keeps all that the store held.
pub proof fn lemma_put_pieces_extends(objs: Objects, content: Seq<u8>, pos: int)
    ensures
        put_pieces(objs, content, pos) matches Ok(s) ==> extends(s.objs, objs),
    decreases content.len() - pos,
{
    if 0 <= pos < content.len() {
        let end = piece_end(content.len() as int, pos);
        let bytes = encode_blob(BlobView::Small(content.subrange(pos, end)));
        if let Ok(m) = store_put(objs, bytes) {
            lemma_put_extends(objs, bytes);
            lemma_put_pieces_extends(m, content, end);
            if let Ok(s) = put_pieces(m, content, end) {
                lemma_extends_trans(objs, m, s.objs);
            }
        }
    }
}

/// Sharing keeps all that the store held, and the store then holds
/// something under the reference that sharing gives.
pub proof fn lemma_share_kept(objs: Objects, content: Seq<u8>)
    ensures
        share_spec(objs, content) matches Ok(s) ==> extends(s.objs, objs) && s.objs.dom().contains(
            s.value.digest,
        ) && s.value.digest.len() == crate::digest::DIGEST_LEN,
{
    if content.len() <= CHUNK_SIZE {
        lemma_put_extends(objs, encode_blob(BlobView::Small(content)));
    } else {
        lemma_put_pieces_extends(objs, content, 0);
        if let Ok(s) = put_pieces(objs, content, 0) {
            let blob = BlobView::Large(s.value);
            lemma_put_extends(s.objs, encode_blob(blob));
            if let Ok(m) = store_put(s.objs, encode_blob(blob)) {
                lemma_extends_trans(objs, s.objs, m);
            }
        }
    }
}

/// The pieces that were kept read back as the content from `pos` on, in
/// every store that holds what the keeping left.
pub proof fn lemma_pieces_read_back(objs: Objects, content: Seq<u8>, pos: int, later: Objects)
    requires
        0 <= pos <= content.len(),
        put_pieces(objs, content, pos) is Ok,
        extends(later, put_pieces(objs, content, pos)->Ok_0.objs),
    ensures
        chunks_content(later, put_pieces(objs, content, pos)->Ok_0.value) == Ok::<Seq<u8>, Error>(
            content.subrange(pos, content.len() as int),
        ),
        forall|i: int|
            0 <= i < put_pieces(objs, content, pos)->Ok_0.value.len() ==> (
            #[trigger] put_pieces(objs, content, pos)->Ok_0.value[i]).len()
                == crate::digest::DIGEST_LEN,
    decreases content.len() - pos,
{
    let s = put_pieces(objs, content, pos)->Ok_0;
    if pos >= content.len() {
        assert(content.subrange(pos, content.len() as int) =~= Seq::<u8>::empty());
    } else {
        let end = piece_end(content.len() as int, pos);
        let piece = content.subrange(pos, end);
        let bytes = encode_blob(BlobView::Small(piece));
        let m = store_put(objs, bytes)->Ok_0;
        let rest = put_pieces(m, content, end)->Ok_0;
        lemma_put_extends(objs, bytes);
        lemma_put_pieces_extends(m, content, end);
        lemma_extends_trans(m, rest.objs, later);
        lemma_pieces_read_back(m, content, end, later);
        crate::wire::lemma_blob_round_trip(BlobView::Small(piece));
        let d = digest_of(bytes);
        assert(s.value == seq![d] + rest.value);
        assert(s.value[0] == d);
        assert(s.value.skip(1) =~= rest.value);
        assert(later.dom().contains(d) && later[d] == bytes);
        assert(small_content(later, d) == Ok::<Seq<u8>, Error>(piece));
        assert(piece + content.subrange(end, content.len() as int) =~= content.subrange(
            pos,
            content.len() as int,
        ));
        assert forall|i: int| 0 <= i < s.value.len() implies (#[trigger] s.value[i]).len()
            == crate::digest::DIGEST_LEN by {
            if i > 0 {
                assert(s.value[i] == rest.value[i - 1]);
            }
        }
    }
}

/// What was shared reads back: the reference that sharing gives stands for
/// the content that was shared.
pub proof fn lemma_share_reads_back(objs: Objects, content: Seq<u8>)
    ensures
        share_spec(objs, content) matches Ok(s) ==> blob_content(s.objs, s.value) == Ok::<
            Seq<u8>,
            Error,
        >(content),
{
    if let Ok(s) = share_spec(objs, content) {
        if content.len() <= CHUNK_SIZE {
            let blob = BlobView::Small(content);
            crate::wire::lemma_blob_round_trip(blob);
            lemma_put_extends(objs, encode_blob(blob));
        } else {
            let pieces = put_pieces(objs, content, 0)->Ok_0;
            let blob = BlobView::Large(pieces.value);
            lemma_put_extends(pieces.objs, encode_blob(blob));
            lemma_pieces_read_back(objs, content, 0, s.objs);
            crate::wire::lemma_blob_round_trip(blob);
            assert(content.subrange(0, content.len() as int) =~= content);
        }
    }
}

/// What keeping pieces comes to when `acc` has been kept already and `rest`
/// is what keeping the remaining pieces gives.
pub open spec fn resume_pieces(acc: Seq<Seq<u8>>, rest: Result<Shared<Seq<Seq<u8>>>, Error>) -> Result<
    Shared<Seq<Seq<u8>>>,
    Error,
> {
    match rest {
        Ok(s) => Ok(Shared { objs: s.objs, value: acc + s.value }),
        Err(e) => Err(e),
    }
}

/// What reading chunks comes to when `acc` has been read already and `rest`
/// is what reading the remaining chunks gives.
pub open spec fn resume_content(acc: Seq<u8>, rest: Result<Seq<u8>, Error>) -> Result<
    Seq<u8>,
    Error,
> {
    match rest {
        Ok(s) => Ok(acc + s),
        Err(e) => Err(e),
    }
}

/// Shares `content` into the store and gives the reference to it.
///
/// The store only grows. Where a put fails, what was put before stays.
pub fn share(store: &mut Store, content: &[u8]) -> (r: Result<ObjectRef, Error>)
    ensures
        extends(final(store)@, old(store)@),
        match share_spec(old(store)@, content@) {
            Ok(s) => r is Ok && r->Ok_0@ == s.value && final(store)@ == s.objs,
            Err(e) => r is Err && r->Err_0 == e,
        },
{
    let len = content.len();
    if len <= CHUNK_SIZE {
        let data = bytes_copy(content, 0, len);
        proof {
            assert(content@.subrange(0, len as int) =~= content@);
            lemma_put_extends(store@, encode_blob(BlobView::Small(content@)));
        }
        return store.put_blob(&Blob::Small(data));
    }
    let mut digests: Vec<Digest> = Vec::new();
    let mut pos: usize = 0;
    proof {
        assert(digests_view(digests@) =~= Seq::<Seq<u8>>::empty());
        match put_pieces(store@, content@, 0) {
            Ok(s) => {
                assert(digests_view(digests@) + s.value =~= s.value);
            },
            Err(_) => {},
        }
    }
    while pos < len
        invariant
            pos <= len,
            len == content@.len(),
            len > CHUNK_SIZE,
            extends(store@, old(store)@),
            put_pieces(old(store)@, content@, 0) == resume_pieces(
                digests_view(digests@),
                put_pieces(store@, content@, pos as int),
            ),
        decreases len - pos,
    {
        let end: usize = if len - pos >= CHUNK_SIZE {
            pos + CHUNK_SIZE
        } else {
            len
        };
        let piece = Blob::Small(bytes_copy(content, pos, end));
        let ghost before = store@;
        let ghost acc = digests_view(digests@);
        proof {
            lemma_put_extends(before, encode_blob(piece@));
        }
        match store.put_blob(&piece) {
            Ok(piece_ref) => {
                proof {
                    lemma_extends_trans(old(store)@, before, store@);
                    assert(digests_view(digests@.push(piece_ref.digest)) =~= acc.push(
                        piece_ref.digest@,
                    ));
                    match put_pieces(store@, content@, end as int) {
                        Ok(s) => {
                            assert(acc + (seq![piece_ref.digest@] + s.value) =~= acc.push(
                                piece_ref.digest@,
                            ) + s.value);
                        },
                        Err(_) => {},
                    }
                }
                digests.push(piece_ref.digest);
            },
            Err(e) => {
                return Err(e);
            },
        }
        pos = end;
    }
    let ghost before = store@;
    let whole = Blob::Large(digests);
    proof {
        assert(digests_view(digests@) + Seq::<Seq<u8>>::empty() =~= digests_view(digests@));
        lemma_put_extends(before, encode_blob(whole@));
    }
    let r = store.put_blob(&whole);
    proof {
        lemma_extends_trans(old(store)@, before, store@);
    }
    r
}

fn read_small(store: &Store, digest: &Digest) -> (r: Result<Vec<u8>, Error>)
    ensures
        match r {
            Ok(data) => small_content(store@, digest@) == Ok::<Seq<u8>, Error>(data@),
            Err(e) => small_content(store@, digest@) == Err::<Seq<u8>, Error>(e),
        },
{
    match store.get_blob(digest) {
        Ok(Blob::Small(data)) => Ok(data),
        Ok(Blob::Large(_)) => Err(Error::Io),
        Err(e) => Err(e),
    }
}

/// Reads the bytes that a reference to a blob stands for.
pub fn read_blob(store: &Store, r: &ObjectRef) -> (out: Result<Vec<u8>, Error>)
    ensures
        match out {
            Ok(data) => blob_content(store@, r@) == Ok::<Seq<u8>, Error>(data@),
            Err(e) => blob_content(store@, r@) == Err::<Seq<u8>, Error>(e),
        },
{
    match r.kind {
        ObjectKind::SmallBlob => read_small(store, &r.digest),
        ObjectKind::Blob => {
            let chunks = match store.get_blob(&r.digest) {
                Ok(Blob::Large(chunks)) => chunks,
                Ok(Blob::Small(_)) => {
                    return Err(Error::Io);
                },
                Err(e) => {
                    return Err(e);
                },
            };
            let ghost all = digests_view(chunks@);
            let mut data: Vec<u8> = Vec::new();
            let mut i: usize = 0;
            proof {
                assert(all.skip(0) =~= all);
                match chunks_content(store@, all) {
                    Ok(s) => {
                        assert(data@ + s =~= s);
                    },
                    Err(_) => {},
                }
            }
            while i < chunks.len()
                invariant
                    i <= chunks@.len(),
                    all == digests_view(chunks@),
                    blob_content(store@, r@) == chunks_content(store@, all),
                    chunks_content(store@, all) == resume_content(
                        data@,
                        chunks_content(store@, all.skip(i as int)),
                    ),
                decreases chunks@.len() - i,
            {
                proof {
                    assert(all.skip(i as int)[0] == chunks@[i as int]@);
                    assert(all.skip(i as int).skip(1) =~= all.skip(i + 1));
                }
                match read_small(store, &chunks[i]) {
                    Ok(piece) => {
                        let ghost acc = data@;
                        bytes_append(&mut data, piece.as_slice());
                        proof {
                            match chunks_content(store@, all.skip(i + 1)) {
                                Ok(rest) => {
                                    assert(acc + (piece@ + rest) =~= (acc + piece@) + rest);
                                },
                                Err(_) => {},
                            }
                        }
                    },
                    Err(e) => {
                        return Err(e);
                    },
                }
                i = i + 1;
            }
            proof {
                assert(data@ + Seq::<u8>::empty() =~= data@);
            }
            Ok(data)
        },
        _ => Err(Error::Io),
    }
}

} // verus!
