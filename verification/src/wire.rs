//! The canonical encoding of objects, as mathematics.
//!
//! Every object starts with one tag byte. Integers are eight bytes, least
//! significant first. A byte string is its length followed by its bytes; an
//! optional text is a zero byte, or a one byte followed by its UTF-8 bytes as
//! a byte string. A reference is the tag of its kind followed by its digest.
//!
//! * small blob: tag 0, then the content;
//! * blob: tag 1, then the digests of its chunks;
//! * tree: tag 2, then each entry, name before target, names ascending;
//! * commit: tag 3, then the subtree's digest, the number of parents, their
//!   digests, the timestamp, the author and the message.
//!
//! Decoding accepts exactly what encoding produces.

use vstd::prelude::*;
use vstd::bytes::lemma_auto_spec_u64_to_from_le_bytes;
use vstd::bytes::spec_u64_from_le_bytes;
use vstd::bytes::spec_u64_to_le_bytes;
use vstd::utf8::decode_utf8;
use vstd::utf8::encode_utf8;
use vstd::utf8::encode_utf8_decode_utf8;
use vstd::utf8::encode_utf8_valid_utf8;
use vstd::utf8::valid_utf8;
use crate::digest::DIGEST_LEN;
use crate::object::BlobView;
use crate::object::CommitAuthorView;
use crate::object::CommitView;
use crate::object::ObjectKind;
use crate::object::ObjectRefView;
use crate::object::commit_wf;
use crate::object::ref_wf;
use crate::tree::TreeEntryView;
use crate::tree::entries_wf;

verus! {

pub const TAG_SMALL_BLOB: u8 = 0;

pub const TAG_BLOB: u8 = 1;

pub const TAG_TREE: u8 = 2;

pub const TAG_COMMIT: u8 = 3;

/// The tag byte of each kind of object.
pub open spec fn kind_tag(k: ObjectKind) -> u8 {
    match k {
        ObjectKind::SmallBlob => TAG_SMALL_BLOB,
        ObjectKind::Blob => TAG_BLOB,
        ObjectKind::Tree => TAG_TREE,
        ObjectKind::Commit => TAG_COMMIT,
    }
}

/// The kind that a tag byte stands for.
pub open spec fn tag_kind(t: u8) -> Option<ObjectKind> {
    if t == TAG_SMALL_BLOB {
        Some(ObjectKind::SmallBlob)
    } else if t == TAG_BLOB {
        Some(ObjectKind::Blob)
    } else if t == TAG_TREE {
        Some(ObjectKind::Tree)
    } else if t == TAG_COMMIT {
        Some(ObjectKind::Commit)
    } else {
        None
    }
}

// ---------------------------------------------------------------------------
// Encoding
// ---------------------------------------------------------------------------
pub open spec fn ser_u64(x: u64) -> Seq<u8> {
    spec_u64_to_le_bytes(x)
}

pub open spec fn ser_bytes(b: Seq<u8>) -> Seq<u8> {
    ser_u64(b.len() as u64) + b
}

pub open spec fn ser_text(t: Option<Seq<char>>) -> Seq<u8> {
    match t {
        None => seq![0u8],
        Some(s) => seq![1u8] + ser_bytes(encode_utf8(s)),
    }
}

pub open spec fn ser_ref(r: ObjectRefView) -> Seq<u8> {
    seq![kind_tag(r.kind)] + r.digest
}

pub open spec fn ser_entry(e: TreeEntryView) -> Seq<u8> {
    ser_bytes(e.name) + ser_ref(e.target)
}

pub open spec fn ser_entries(es: Seq<TreeEntryView>) -> Seq<u8>
    decreases es.len(),
{
    if es.len() == 0 {
        Seq::empty()
    } else {
        ser_entry(es[0]) + ser_entries(es.skip(1))
    }
}

pub open spec fn ser_digests(ds: Seq<Seq<u8>>) -> Seq<u8>
    decreases ds.len(),
{
    if ds.len() == 0 {
        Seq::empty()
    } else {
        ds[0] + ser_digests(ds.skip(1))
    }
}

pub open spec fn ser_author(a: Option<CommitAuthorView>) -> Seq<u8> {
    match a {
        None => seq![0u8],
        Some(x) => seq![1u8] + ser_text(x.name) + ser_text(x.mbox),
    }
}

/// The encoding of a tree, given by its listing.
pub open spec fn encode_tree(es: Seq<TreeEntryView>) -> Seq<u8> {
    seq![TAG_TREE] + ser_entries(es)
}

/// The encoding of a commit.
pub open spec fn encode_commit(c: CommitView) -> Seq<u8> {
    seq![TAG_COMMIT] + c.subtree + ser_u64(c.parents.len() as u64) + ser_digests(c.parents)
        + ser_u64(c.timestamp) + ser_author(c.author) + ser_text(c.message)
}

/// The encoding of a blob object.
pub open spec fn encode_blob(b: BlobView) -> Seq<u8> {
    match b {
        BlobView::Small(data) => seq![TAG_SMALL_BLOB] + data,
        BlobView::Large(chunks) => seq![TAG_BLOB] + ser_digests(chunks),
    }
}

// ---------------------------------------------------------------------------
// Decoding: each parser reads at a position and gives the position behind
// what it read.
// ---------------------------------------------------------------------------
pub open spec fn parse_u64(b: Seq<u8>, pos: int) -> Option<(u64, int)> {
    if 0 <= pos && pos + 8 <= b.len() {
        Some((spec_u64_from_le_bytes(b.subrange(pos, pos + 8)), pos + 8))
    } else {
        None
    }
}

pub open spec fn parse_bytes(b: Seq<u8>, pos: int) -> Option<(Seq<u8>, int)> {
    match parse_u64(b, pos) {
        Some((n, p)) => if p + n <= b.len() {
            Some((b.subrange(p, p + n), p + n))
        } else {
            None
        },
        None => None,
    }
}

pub open spec fn parse_text(b: Seq<u8>, pos: int) -> Option<(Option<Seq<char>>, int)> {
    if 0 <= pos < b.len() {
        if b[pos] == 0 {
            Some((None, pos + 1))
        } else if b[pos] == 1 {
            match parse_bytes(b, pos + 1) {
                Some((raw, p)) => if valid_utf8(raw) {
                    Some((Some(decode_utf8(raw)), p))
                } else {
                    None
                },
                None => None,
            }
        } else {
            None
        }
    } else {
        None
    }
}

pub open spec fn parse_digest(b: Seq<u8>, pos: int) -> Option<(Seq<u8>, int)> {
    if 0 <= pos && pos + DIGEST_LEN <= b.len() {
        Some((b.subrange(pos, pos + DIGEST_LEN), pos + DIGEST_LEN))
    } else {
        None
    }
}

pub open spec fn parse_ref(b: Seq<u8>, pos: int) -> Option<(ObjectRefView, int)> {
    if 0 <= pos < b.len() {
        match tag_kind(b[pos]) {
            Some(kind) => match parse_digest(b, pos + 1) {
                Some((digest, p)) => Some((ObjectRefView { kind, digest }, p)),
                None => None,
            },
            None => None,
        }
    } else {
        None
    }
}

pub open spec fn parse_entry(b: Seq<u8>, pos: int) -> Option<(TreeEntryView, int)> {
    match parse_bytes(b, pos) {
        Some((name, p)) => match parse_ref(b, p) {
            Some((target, q)) => Some((TreeEntryView { name, target }, q)),
            None => None,
        },
        None => None,
    }
}

/// Entries up to the end of the input.
pub open spec fn parse_entries(b: Seq<u8>, pos: int) -> Option<Seq<TreeEntryView>>
    decreases b.len() - pos,
{
    if pos >= b.len() {
        Some(Seq::empty())
    } else {
        match parse_entry(b, pos) {
            Some((e, p)) => if p > pos {
                match parse_entries(b, p) {
                    Some(rest) => Some(seq![e] + rest),
                    None => None,
                }
            } else {
                None
            },
            None => None,
        }
    }
}

/// Exactly `n` digests.
pub open spec fn parse_digests(b: Seq<u8>, pos: int, n: nat) -> Option<(Seq<Seq<u8>>, int)>
    decreases n,
{
    if n == 0 {
        Some((Seq::empty(), pos))
    } else {
        match parse_digest(b, pos) {
            Some((d, p)) => match parse_digests(b, p, (n - 1) as nat) {
                Some((rest, q)) => Some((seq![d] + rest, q)),
                None => None,
            },
            None => None,
        }
    }
}

pub open spec fn parse_author(b: Seq<u8>, pos: int) -> Option<(Option<CommitAuthorView>, int)> {
    if 0 <= pos < b.len() {
        if b[pos] == 0 {
            Some((None, pos + 1))
        } else if b[pos] == 1 {
            match parse_text(b, pos + 1) {
                Some((name, p)) => match parse_text(b, p) {
                    Some((mbox, q)) => Some((Some(CommitAuthorView { name, mbox }), q)),
                    None => None,
                },
                None => None,
            }
        } else {
            None
        }
    } else {
        None
    }
}

/// The listing of the tree that the bytes encode, if they encode one.
pub open spec fn decode_tree(b: Seq<u8>) -> Option<Seq<TreeEntryView>> {
    if b.len() >= 1 && b[0] == TAG_TREE {
        match parse_entries(b, 1) {
            Some(es) => if entries_wf(es) {
                Some(es)
            } else {
                None
            },
            None => None,
        }
    } else {
        None
    }
}

/// The commit that the bytes encode, if they encode one.
pub open spec fn decode_commit(b: Seq<u8>) -> Option<CommitView> {
    if b.len() >= 1 && b[0] == TAG_COMMIT {
        match parse_digest(b, 1) {
            Some((subtree, pos1)) => match parse_u64(b, pos1) {
                Some((n, pos2)) => match parse_digests(b, pos2, n as nat) {
                    Some((parents, pos3)) => match parse_u64(b, pos3) {
                        Some((timestamp, pos4)) => match parse_author(b, pos4) {
                            Some((author, pos5)) => match parse_text(b, pos5) {
                                Some((message, pos6)) => if pos6 == b.len() {
                                    Some(CommitView { subtree, parents, author, timestamp, message })
                                } else {
                                    None
                                },
                                None => None,
                            },
                            None => None,
                        },
                        None => None,
                    },
                    None => None,
                },
                None => None,
            },
            None => None,
        }
    } else {
        None
    }
}

/// The blob object that the bytes encode, if they encode one.
pub open spec fn decode_blob(b: Seq<u8>) -> Option<BlobView> {
    if b.len() >= 1 && b[0] == TAG_SMALL_BLOB {
        Some(BlobView::Small(b.skip(1)))
    } else if b.len() >= 1 && b[0] == TAG_BLOB && (b.len() - 1) % (DIGEST_LEN as int) == 0 {
        match parse_digests(b, 1, ((b.len() - 1) / (DIGEST_LEN as int)) as nat) {
            Some((chunks, _)) => Some(BlobView::Large(chunks)),
            None => None,
        }
    } else {
        None
    }
}

// ---------------------------------------------------------------------------
// What can be encoded
// ---------------------------------------------------------------------------
/// A text whose UTF-8 form has a length that eight bytes can hold.
pub open spec fn text_fits(t: Option<Seq<char>>) -> bool {
    t matches Some(s) ==> encode_utf8(s).len() <= u64::MAX
}

/// A commit that can be encoded: digests of the right width, lengths that
/// eight bytes can hold.
pub open spec fn commit_fits(c: CommitView) -> bool {
    &&& commit_wf(c)
    &&& c.parents.len() <= u64::MAX
    &&& text_fits(c.message)
    &&& c.author matches Some(a) ==> text_fits(a.name) && text_fits(a.mbox)
}

/// A listing that can be encoded: a sound listing whose names have lengths
/// that eight bytes can hold.
pub open spec fn entries_fit(es: Seq<TreeEntryView>) -> bool {
    &&& entries_wf(es)
    &&& forall|i: int| 0 <= i < es.len() ==> (#[trigger] es[i]).name.len() <= u64::MAX
}

/// A blob object that can be encoded: chunk digests of the right width.
pub open spec fn blob_fits(b: BlobView) -> bool {
    b matches BlobView::Large(chunks) ==> forall|i: int|
        0 <= i < chunks.len() ==> (#[trigger] chunks[i]).len() == DIGEST_LEN
}

// ---------------------------------------------------------------------------
// Round trips
// ---------------------------------------------------------------------------
/// The bytes `s` stand in `b` at `pos`.
pub open spec fn stands_at(b: Seq<u8>, pos: int, s: Seq<u8>) -> bool {
    &&& 0 <= pos
    &&& pos + s.len() <= b.len()
    &&& b.subrange(pos, pos + s.len()) == s
}

/// Where a concatenation stands, both parts stand, one behind the other.
pub proof fn lemma_stands_split(b: Seq<u8>, pos: int, s1: Seq<u8>, s2: Seq<u8>)
    requires
        stands_at(b, pos, s1 + s2),
    ensures
        stands_at(b, pos, s1),
        stands_at(b, pos + s1.len(), s2),
{
    let whole = b.subrange(pos, pos + (s1 + s2).len());
    assert(b.subrange(pos, pos + s1.len()) =~= whole.subrange(0, s1.len() as int));
    assert(whole.subrange(0, s1.len() as int) =~= s1);
    assert(b.subrange(pos + s1.len(), pos + s1.len() + s2.len()) =~= whole.subrange(
        s1.len() as int,
        (s1 + s2).len() as int,
    ));
    assert(whole.subrange(s1.len() as int, (s1 + s2).len() as int) =~= s2);
}

pub proof fn lemma_parse_u64(b: Seq<u8>, pos: int, x: u64)
    requires
        stands_at(b, pos, ser_u64(x)),
    ensures
        ser_u64(x).len() == 8,
        parse_u64(b, pos) == Some((x, pos + 8)),
{
    lemma_auto_spec_u64_to_from_le_bytes();
}

pub proof fn lemma_parse_bytes(b: Seq<u8>, pos: int, v: Seq<u8>)
    requires
        v.len() <= u64::MAX,
        stands_at(b, pos, ser_bytes(v)),
    ensures
        ser_bytes(v).len() == 8 + v.len(),
        parse_bytes(b, pos) == Some((v, pos + 8 + v.len())),
{
    lemma_auto_spec_u64_to_from_le_bytes();
    lemma_stands_split(b, pos, ser_u64(v.len() as u64), v);
    lemma_parse_u64(b, pos, v.len() as u64);
}

pub proof fn lemma_parse_text(b: Seq<u8>, pos: int, t: Option<Seq<char>>)
    requires
        text_fits(t),
        stands_at(b, pos, ser_text(t)),
    ensures
        ser_text(t).len() >= 1,
        parse_text(b, pos) == Some((t, pos + ser_text(t).len())),
{
    match t {
        None => {
            assert(b.subrange(pos, pos + 1)[0] == b[pos]);
        },
        Some(s) => {
            let raw = encode_utf8(s);
            lemma_stands_split(b, pos, seq![1u8], ser_bytes(raw));
            assert(b.subrange(pos, pos + 1)[0] == b[pos]);
            lemma_parse_bytes(b, pos + 1, raw);
            encode_utf8_valid_utf8(s);
            encode_utf8_decode_utf8(s);
        },
    }
}

pub proof fn lemma_parse_digest(b: Seq<u8>, pos: int, d: Seq<u8>)
    requires
        d.len() == DIGEST_LEN,
        stands_at(b, pos, d),
    ensures
        parse_digest(b, pos) == Some((d, pos + DIGEST_LEN)),
{
}

pub proof fn lemma_parse_ref(b: Seq<u8>, pos: int, r: ObjectRefView)
    requires
        ref_wf(r),
        stands_at(b, pos, ser_ref(r)),
    ensures
        ser_ref(r).len() == 1 + DIGEST_LEN,
        parse_ref(b, pos) == Some((r, pos + 1 + DIGEST_LEN)),
{
    lemma_stands_split(b, pos, seq![kind_tag(r.kind)], r.digest);
    assert(b.subrange(pos, pos + 1)[0] == b[pos]);
    lemma_parse_digest(b, pos + 1, r.digest);
}

pub proof fn lemma_parse_entry(b: Seq<u8>, pos: int, e: TreeEntryView)
    requires
        ref_wf(e.target),
        e.name.len() <= u64::MAX,
        stands_at(b, pos, ser_entry(e)),
    ensures
        ser_entry(e).len() == 8 + e.name.len() + 1 + DIGEST_LEN,
        parse_entry(b, pos) == Some((e, pos + ser_entry(e).len())),
{
    lemma_auto_spec_u64_to_from_le_bytes();
    lemma_stands_split(b, pos, ser_bytes(e.name), ser_ref(e.target));
    lemma_parse_bytes(b, pos, e.name);
    lemma_parse_ref(b, pos + 8 + e.name.len(), e.target);
}

pub proof fn lemma_parse_entries(b: Seq<u8>, pos: int, es: Seq<TreeEntryView>)
    requires
        forall|i: int| 0 <= i < es.len() ==> ref_wf((#[trigger] es[i]).target),
        forall|i: int| 0 <= i < es.len() ==> (#[trigger] es[i]).name.len() <= u64::MAX,
        stands_at(b, pos, ser_entries(es)),
        pos + ser_entries(es).len() == b.len(),
    ensures
        parse_entries(b, pos) == Some(es),
    decreases es.len(),
{
    if es.len() == 0 {
        assert(es =~= Seq::empty());
    } else {
        let rest = es.skip(1);
        lemma_stands_split(b, pos, ser_entry(es[0]), ser_entries(rest));
        lemma_parse_entry(b, pos, es[0]);
        assert forall|i: int| 0 <= i < rest.len() implies ref_wf((#[trigger] rest[i]).target) by {
            assert(rest[i] == es[i + 1]);
        }
        assert forall|i: int| 0 <= i < rest.len() implies (#[trigger] rest[i]).name.len()
            <= u64::MAX by {
            assert(rest[i] == es[i + 1]);
        }
        lemma_parse_entries(b, pos + ser_entry(es[0]).len(), rest);
        assert(seq![es[0]] + rest =~= es);
    }
}

pub proof fn lemma_ser_digests_len(ds: Seq<Seq<u8>>)
    requires
        forall|i: int| 0 <= i < ds.len() ==> (#[trigger] ds[i]).len() == DIGEST_LEN,
    ensures
        ser_digests(ds).len() == ds.len() * DIGEST_LEN,
    decreases ds.len(),
{
    if ds.len() > 0 {
        let rest = ds.skip(1);
        assert forall|i: int| 0 <= i < rest.len() implies (#[trigger] rest[i]).len()
            == DIGEST_LEN by {
            assert(rest[i] == ds[i + 1]);
        }
        lemma_ser_digests_len(rest);
        assert(ds.len() * DIGEST_LEN == rest.len() * DIGEST_LEN + DIGEST_LEN) by (nonlinear_arith)
            requires
                ds.len() == rest.len() + 1,
        ;
    }
}

pub proof fn lemma_parse_digests(b: Seq<u8>, pos: int, ds: Seq<Seq<u8>>)
    requires
        forall|i: int| 0 <= i < ds.len() ==> (#[trigger] ds[i]).len() == DIGEST_LEN,
        stands_at(b, pos, ser_digests(ds)),
    ensures
        parse_digests(b, pos, ds.len()) == Some((ds, pos + ser_digests(ds).len())),
    decreases ds.len(),
{
    if ds.len() == 0 {
        assert(ds =~= Seq::empty());
    } else {
        let rest = ds.skip(1);
        lemma_stands_split(b, pos, ds[0], ser_digests(rest));
        lemma_parse_digest(b, pos, ds[0]);
        assert forall|i: int| 0 <= i < rest.len() implies (#[trigger] rest[i]).len()
            == DIGEST_LEN by {
            assert(rest[i] == ds[i + 1]);
        }
        lemma_parse_digests(b, pos + DIGEST_LEN, rest);
        assert(seq![ds[0]] + rest =~= ds);
    }
}

pub proof fn lemma_parse_author(b: Seq<u8>, pos: int, a: Option<CommitAuthorView>)
    requires
        a matches Some(x) ==> text_fits(x.name) && text_fits(x.mbox),
        stands_at(b, pos, ser_author(a)),
    ensures
        parse_author(b, pos) == Some((a, pos + ser_author(a).len())),
{
    match a {
        None => {
            assert(b.subrange(pos, pos + 1)[0] == b[pos]);
        },
        Some(x) => {
            lemma_stands_split(b, pos, seq![1u8] + ser_text(x.name), ser_text(x.mbox));
            lemma_stands_split(b, pos, seq![1u8], ser_text(x.name));
            assert(b.subrange(pos, pos + 1)[0] == b[pos]);
            lemma_parse_text(b, pos + 1, x.name);
            lemma_parse_text(b, pos + 1 + ser_text(x.name).len(), x.mbox);
        },
    }
}

/// Decoding the encoding of a tree gives the tree back.
pub proof fn lemma_tree_round_trip(es: Seq<TreeEntryView>)
    requires
        entries_fit(es),
    ensures
        decode_tree(encode_tree(es)) == Some(es),
{
    let b = encode_tree(es);
    assert(b.subrange(1, 1 + ser_entries(es).len() as int) =~= ser_entries(es));
    lemma_parse_entries(b, 1, es);
}

/// Decoding the encoding of a commit gives the commit back.
pub proof fn lemma_commit_round_trip(c: CommitView)
    requires
        commit_fits(c),
    ensures
        decode_commit(encode_commit(c)) == Some(c),
{
    let b = encode_commit(c);
    let s0 = seq![TAG_COMMIT];
    let s1 = c.subtree;
    let s2 = ser_u64(c.parents.len() as u64);
    let s3 = ser_digests(c.parents);
    let s4 = ser_u64(c.timestamp);
    let s5 = ser_author(c.author);
    let s6 = ser_text(c.message);
    assert(b == s0 + s1 + s2 + s3 + s4 + s5 + s6);
    assert(b.subrange(0, b.len() as int) =~= b);
    assert(stands_at(b, 0, s0 + s1 + s2 + s3 + s4 + s5 + s6));
    lemma_stands_split(b, 0, s0 + s1 + s2 + s3 + s4 + s5, s6);
    lemma_stands_split(b, 0, s0 + s1 + s2 + s3 + s4, s5);
    lemma_stands_split(b, 0, s0 + s1 + s2 + s3, s4);
    lemma_stands_split(b, 0, s0 + s1 + s2, s3);
    lemma_stands_split(b, 0, s0 + s1, s2);
    lemma_stands_split(b, 0, s0, s1);
    lemma_auto_spec_u64_to_from_le_bytes();
    lemma_ser_digests_len(c.parents);
    let pos1 = 1 + DIGEST_LEN as int;
    lemma_parse_digest(b, 1, s1);
    lemma_parse_u64(b, pos1, c.parents.len() as u64);
    let pos2 = pos1 + 8;
    lemma_parse_digests(b, pos2, c.parents);
    let pos3 = pos2 + s3.len();
    lemma_parse_u64(b, pos3, c.timestamp);
    let pos4 = pos3 + 8;
    lemma_parse_author(b, pos4, c.author);
    let pos5 = pos4 + s5.len();
    lemma_parse_text(b, pos5, c.message);
}

/// Decoding the encoding of a blob object gives the blob object back.
pub proof fn lemma_blob_round_trip(v: BlobView)
    requires
        blob_fits(v),
    ensures
        decode_blob(encode_blob(v)) == Some(v),
{
    let b = encode_blob(v);
    match v {
        BlobView::Small(data) => {
            assert(b.skip(1) =~= data);
        },
        BlobView::Large(chunks) => {
            lemma_ser_digests_len(chunks);
            assert(b.subrange(1, 1 + ser_digests(chunks).len() as int) =~= ser_digests(chunks));
            lemma_parse_digests(b, 1, chunks);
            let n = chunks.len() as int;
            assert((n * 32) % 32 == 0 && (n * 32) / 32 == n) by (nonlinear_arith);
        },
    }
}

} // verus!
