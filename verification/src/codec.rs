//! The canonical encoding of objects, as code.

use vstd::prelude::*;
use vstd::bytes::u64_from_le_bytes;
use vstd::bytes::u64_to_le_bytes;
use vstd::slice::slice_subrange;
use vstd::utf8::decode_utf8;
use vstd::utf8::valid_utf8;
use crate::bytes::bytes_append;
use crate::bytes::bytes_copy;
use crate::digest::DIGEST_LEN;
use crate::digest::Digest;
use crate::object::Blob;
use crate::object::Commit;
use crate::object::CommitAuthor;
use crate::object::ObjectKind;
use crate::object::ObjectRef;
use crate::object::author_view;
use crate::object::digests_view;
use crate::object::text_view;
use crate::tree::Tree;
use crate::tree::TreeEntry;
use crate::tree::TreeEntryView;
use crate::tree::entries_view;
use crate::wire::TAG_BLOB;
use crate::wire::TAG_COMMIT;
use crate::wire::TAG_SMALL_BLOB;
use crate::wire::TAG_TREE;
use crate::wire::decode_blob;
use crate::wire::decode_commit;
use crate::wire::decode_tree;
use crate::wire::encode_blob;
use crate::wire::encode_commit;
use crate::wire::encode_tree;
use crate::wire::kind_tag;
use crate::wire::parse_author;
use crate::wire::parse_bytes;
use crate::wire::parse_digest;
use crate::wire::parse_digests;
use crate::wire::parse_entries;
use crate::wire::parse_entry;
use crate::wire::parse_ref;
use crate::wire::parse_text;
use crate::wire::parse_u64;
use crate::wire::ser_author;
use crate::wire::ser_bytes;
use crate::wire::ser_digests;
use crate::wire::ser_entries;
use crate::wire::ser_entry;
use crate::wire::ser_ref;
use crate::wire::ser_text;
use crate::wire::ser_u64;
use crate::wire::tag_kind;

verus! {

/// Calls `String::from_utf8`.
///
/// Trusted: the call succeeds exactly on valid UTF-8, and the string it then
/// gives holds the characters that the bytes encode.
#[verifier::external_body]
fn text_from_utf8(bytes: Vec<u8>) -> (r: Option<String>)
    ensures
        r is Some <==> valid_utf8(bytes@),
        r matches Some(s) ==> s@ == decode_utf8(bytes@),
{
    match String::from_utf8(bytes) {
        Ok(s) => Some(s),
        Err(_) => None,
    }
}

/// The tag byte of a kind.
pub fn tag_of(kind: ObjectKind) -> (t: u8)
    ensures
        t == kind_tag(kind),
{
    match kind {
        ObjectKind::SmallBlob => TAG_SMALL_BLOB,
        ObjectKind::Blob => TAG_BLOB,
        ObjectKind::Tree => TAG_TREE,
        ObjectKind::Commit => TAG_COMMIT,
    }
}

/// The kind that a tag byte stands for.
pub fn kind_of(t: u8) -> (k: Option<ObjectKind>)
    ensures
        k == tag_kind(t),
{
    if t == TAG_SMALL_BLOB {
        Some(ObjectKind::SmallBlob)
    } else if t == TAG_BLOB {
        Some(ObjectKind::Blob)
    } else if t == TAG_TREE {
        Some(ObjectKind::Tree)
    } else if t == TAG_COMMIT {
        Some(ObjectKind::Commit)
    } else {
        None
    }
}

fn write_u64(out: &mut Vec<u8>, x: u64)
    ensures
        final(out)@ == old(out)@ + ser_u64(x),
{
    let v = u64_to_le_bytes(x);
    bytes_append(out, v.as_slice());
}

fn write_bytes(out: &mut Vec<u8>, b: &[u8])
    ensures
        final(out)@ == old(out)@ + ser_bytes(b@),
{
    write_u64(out, b.len() as u64);
    bytes_append(out, b);
    assert(out@ =~= old(out)@ + ser_bytes(b@));
}

fn write_text(out: &mut Vec<u8>, t: &Option<String>)
    ensures
        final(out)@ == old(out)@ + ser_text(text_view(*t)),
{
    match t {
        None => {
            out.push(0u8);
            assert(out@ =~= old(out)@ + ser_text(text_view(*t)));
        },
        Some(s) => {
            out.push(1u8);
            write_bytes(out, s.as_str().as_bytes());
            assert(out@ =~= old(out)@ + ser_text(text_view(*t)));
        },
    }
}

fn write_ref(out: &mut Vec<u8>, r: &ObjectRef)
    ensures
        final(out)@ == old(out)@ + ser_ref(r@),
{
    out.push(tag_of(r.kind));
    bytes_append(out, r.digest.as_bytes());
    assert(out@ =~= old(out)@ + ser_ref(r@));
}

fn write_digests(out: &mut Vec<u8>, ds: &Vec<Digest>)
    ensures
        final(out)@ == old(out)@ + ser_digests(digests_view(ds@)),
{
    let ghost all = digests_view(ds@);
    let mut i: usize = 0;
    proof {
        assert(all.take(0) =~= Seq::<Seq<u8>>::empty());
        assert(out@ =~= old(out)@ + ser_digests(all.take(0)));
    }
    while i < ds.len()
        invariant
            i <= ds@.len(),
            all == digests_view(ds@),
            out@ == old(out)@ + ser_digests(all.take(i as int)),
        decreases ds@.len() - i,
    {
        bytes_append(out, ds[i].as_bytes());
        proof {
            lemma_ser_digests_push(all.take(i as int), all[i as int]);
            assert(all.take(i as int).push(all[i as int]) =~= all.take(i + 1));
            assert(out@ =~= old(out)@ + ser_digests(all.take(i + 1)));
        }
        i = i + 1;
    }
    proof {
        assert(all.take(ds@.len() as int) =~= all);
    }
}

/// Encoding a list of digests with one more digest appends that digest.
pub proof fn lemma_ser_digests_push(ds: Seq<Seq<u8>>, d: Seq<u8>)
    ensures
        ser_digests(ds.push(d)) == ser_digests(ds) + d,
    decreases ds.len(),
{
    if ds.len() == 0 {
        assert(ds.push(d).skip(1) =~= Seq::<Seq<u8>>::empty());
        assert(ser_digests(ds.push(d).skip(1)) =~= Seq::<u8>::empty());
        assert(ser_digests(ds) =~= Seq::<u8>::empty());
        assert(ser_digests(ds.push(d)) =~= ser_digests(ds) + d);
    } else {
        assert(ds.push(d).skip(1) =~= ds.skip(1).push(d));
        lemma_ser_digests_push(ds.skip(1), d);
        assert(ser_digests(ds.push(d)) =~= ser_digests(ds) + d);
    }
}

/// Encoding a listing with one more entry appends that entry's encoding.
pub proof fn lemma_ser_entries_push(es: Seq<TreeEntryView>, e: TreeEntryView)
    ensures
        ser_entries(es.push(e)) == ser_entries(es) + ser_entry(e),
    decreases es.len(),
{
    if es.len() == 0 {
        assert(es.push(e).skip(1) =~= Seq::<TreeEntryView>::empty());
        assert(ser_entries(es.push(e).skip(1)) =~= Seq::<u8>::empty());
        assert(ser_entries(es) =~= Seq::<u8>::empty());
        assert(ser_entries(es.push(e)) =~= ser_entries(es) + ser_entry(e));
    } else {
        assert(es.push(e).skip(1) =~= es.skip(1).push(e));
        lemma_ser_entries_push(es.skip(1), e);
        assert(ser_entries(es.push(e)) =~= ser_entries(es) + ser_entry(e));
    }
}

fn read_u64(b: &[u8], pos: usize) -> (r: Option<(u64, usize)>)
    ensures
        match r {
            Some((x, p)) => parse_u64(b@, pos as int) == Some((x, p as int)),
            None => parse_u64(b@, pos as int) is None,
        },
{
    if pos > b.len() || b.len() - pos < 8 {
        return None;
    }
    let x = u64_from_le_bytes(slice_subrange(b, pos, pos + 8));
    Some((x, pos + 8))
}

fn read_bytes(b: &[u8], pos: usize) -> (r: Option<(Vec<u8>, usize)>)
    ensures
        match r {
            Some((v, p)) => parse_bytes(b@, pos as int) == Some((v@, p as int)),
            None => parse_bytes(b@, pos as int) is None,
        },
{
    match read_u64(b, pos) {
        Some((n, p)) => {
            if n > (b.len() - p) as u64 {
                return None;
            }
            let end: usize = p + n as usize;
            Some((bytes_copy(b, p, end), end))
        },
        None => None,
    }
}

fn read_text(b: &[u8], pos: usize) -> (r: Option<(Option<String>, usize)>)
    ensures
        match r {
            Some((t, p)) => parse_text(b@, pos as int) == Some((text_view(t), p as int)),
            None => parse_text(b@, pos as int) is None,
        },
{
    if pos >= b.len() {
        return None;
    }
    if b[pos] == 0 {
        Some((None, pos + 1))
    } else if b[pos] == 1 {
        match read_bytes(b, pos + 1) {
            Some((raw, p)) => match text_from_utf8(raw) {
                Some(s) => Some((Some(s), p)),
                None => None,
            },
            None => None,
        }
    } else {
        None
    }
}

fn read_digest(b: &[u8], pos: usize) -> (r: Option<(Digest, usize)>)
    ensures
        match r {
            Some((d, p)) => parse_digest(b@, pos as int) == Some((d@, p as int)),
            None => parse_digest(b@, pos as int) is None,
        },
{
    if pos > b.len() || b.len() - pos < DIGEST_LEN {
        return None;
    }
    match Digest::from_bytes(bytes_copy(b, pos, pos + DIGEST_LEN)) {
        Some(d) => Some((d, pos + DIGEST_LEN)),
        None => None,
    }
}

fn read_ref(b: &[u8], pos: usize) -> (r: Option<(ObjectRef, usize)>)
    ensures
        match r {
            Some((x, p)) => parse_ref(b@, pos as int) == Some((x@, p as int)),
            None => parse_ref(b@, pos as int) is None,
        },
{
    if pos >= b.len() {
        return None;
    }
    match kind_of(b[pos]) {
        Some(kind) => match read_digest(b, pos + 1) {
            Some((digest, p)) => Some((ObjectRef::new(kind, digest), p)),
            None => None,
        },
        None => None,
    }
}

fn read_entry(b: &[u8], pos: usize) -> (r: Option<(TreeEntry, usize)>)
    ensures
        match r {
            Some((e, p)) => parse_entry(b@, pos as int) == Some((e@, p as int)),
            None => parse_entry(b@, pos as int) is None,
        },
{
    match read_bytes(b, pos) {
        Some((name, p)) => match read_ref(b, p) {
            Some((target, q)) => Some((TreeEntry { name, target }, q)),
            None => None,
        },
        None => None,
    }
}

fn read_digests(b: &[u8], pos: usize, n: u64) -> (r: Option<(Vec<Digest>, usize)>)
    ensures
        match r {
            Some((ds, p)) => parse_digests(b@, pos as int, n as nat) == Some(
                (digests_view(ds@), p as int),
            ),
            None => parse_digests(b@, pos as int, n as nat) is None,
        },
{
    let mut out: Vec<Digest> = Vec::new();
    let mut at: usize = pos;
    let mut i: u64 = 0;
    proof {
        assert(digests_view(out@) =~= Seq::<Seq<u8>>::empty());
        lemma_digests_resume(b@, pos as int, n as nat, Seq::empty(), pos as int, 0);
    }
    while i < n
        invariant
            i <= n,
            parse_digests(b@, pos as int, n as nat) == resume_digests(
                digests_view(out@),
                parse_digests(b@, at as int, (n - i) as nat),
            ),
        decreases n - i,
    {
        match read_digest(b, at) {
            Some((d, p)) => {
                proof {
                    let acc = digests_view(out@);
                    assert(digests_view(out@.push(d)) =~= acc.push(d@));
                    match parse_digests(b@, p as int, (n - i - 1) as nat) {
                        Some((rest, q)) => {
                            assert(acc + (seq![d@] + rest) =~= acc.push(d@) + rest);
                        },
                        None => {},
                    }
                }
                out.push(d);
                at = p;
            },
            None => {
                return None;
            },
        }
        i = i + 1;
    }
    proof {
        assert(digests_view(out@) + Seq::<Seq<u8>>::empty() =~= digests_view(out@));
    }
    Some((out, at))
}

/// What a parse of digests comes to when `acc` has been read already and
/// `rest` is what the remaining parse gives.
pub open spec fn resume_digests(acc: Seq<Seq<u8>>, rest: Option<(Seq<Seq<u8>>, int)>) -> Option<
    (Seq<Seq<u8>>, int),
> {
    match rest {
        Some((r, q)) => Some((acc + r, q)),
        None => None,
    }
}

proof fn lemma_digests_resume(b: Seq<u8>, pos: int, n: nat, acc: Seq<Seq<u8>>, at: int, i: nat)
    requires
        acc.len() == 0,
        at == pos,
        i == 0,
    ensures
        parse_digests(b, pos, n) == resume_digests(acc, parse_digests(b, at, (n - i) as nat)),
{
    match parse_digests(b, pos, n) {
        Some((r, q)) => {
            assert(acc + r =~= r);
        },
        None => {},
    }
}

/// What a parse of entries comes to when `acc` has been read already and
/// `rest` is what the remaining parse gives.
pub open spec fn resume_entries(acc: Seq<TreeEntryView>, rest: Option<Seq<TreeEntryView>>) -> Option<
    Seq<TreeEntryView>,
> {
    match rest {
        Some(r) => Some(acc + r),
        None => None,
    }
}

fn read_entries(b: &[u8], pos: usize) -> (r: Option<Vec<TreeEntry>>)
    requires
        pos <= b@.len(),
    ensures
        match r {
            Some(es) => parse_entries(b@, pos as int) == Some(entries_view(es@)),
            None => parse_entries(b@, pos as int) is None,
        },
{
    let mut out: Vec<TreeEntry> = Vec::new();
    let mut at: usize = pos;
    proof {
        assert(entries_view(out@) =~= Seq::<TreeEntryView>::empty());
        match parse_entries(b@, pos as int) {
            Some(r) => {
                assert(entries_view(out@) + r =~= r);
            },
            None => {},
        }
    }
    while at < b.len()
        invariant
            at <= b@.len(),
            parse_entries(b@, pos as int) == resume_entries(
                entries_view(out@),
                parse_entries(b@, at as int),
            ),
        decreases b@.len() - at,
    {
        match read_entry(b, at) {
            Some((e, p)) => {
                if p <= at {
                    return None;
                }
                proof {
                    let acc = entries_view(out@);
                    assert(entries_view(out@.push(e)) =~= acc.push(e@));
                    match parse_entries(b@, p as int) {
                        Some(rest) => {
                            assert(acc + (seq![e@] + rest) =~= acc.push(e@) + rest);
                        },
                        None => {},
                    }
                }
                out.push(e);
                at = p;
            },
            None => {
                return None;
            },
        }
    }
    proof {
        assert(entries_view(out@) + Seq::<TreeEntryView>::empty() =~= entries_view(out@));
    }
    Some(out)
}

impl Tree {
    /// The canonical bytes of this tree.
    pub fn encode(&self) -> (out: Vec<u8>)
        ensures
            out@ == encode_tree(self.listing()),
    {
        let mut out: Vec<u8> = Vec::new();
        out.push(TAG_TREE);
        let ghost all = self.listing();
        let n = self.len();
        let mut i: usize = 0;
        proof {
            assert(all.take(0) =~= Seq::<TreeEntryView>::empty());
            assert(out@ =~= seq![TAG_TREE] + ser_entries(all.take(0)));
        }
        while i < n
            invariant
                i <= n,
                n == all.len(),
                all == self.listing(),
                out@ == seq![TAG_TREE] + ser_entries(all.take(i as int)),
            decreases n - i,
        {
            let e = self.entry(i);
            write_bytes(&mut out, e.name.as_slice());
            write_ref(&mut out, &e.target);
            proof {
                lemma_ser_entries_push(all.take(i as int), all[i as int]);
                assert(all.take(i as int).push(all[i as int]) =~= all.take(i + 1));
                assert(out@ =~= seq![TAG_TREE] + ser_entries(all.take(i + 1)));
            }
            i = i + 1;
        }
        proof {
            assert(all.take(n as int) =~= all);
        }
        out
    }

    /// The tree that the bytes encode, if they encode one.
    pub fn decode(b: &[u8]) -> (t: Option<Tree>)
        ensures
            match t {
                Some(x) => decode_tree(b@) == Some(x.listing()),
                None => decode_tree(b@) is None,
            },
    {
        if b.len() < 1 || b[0] != TAG_TREE {
            return None;
        }
        match read_entries(b, 1) {
            Some(entries) => Tree::from_entries(entries),
            None => None,
        }
    }
}

fn write_author(out: &mut Vec<u8>, a: &Option<CommitAuthor>)
    ensures
        final(out)@ == old(out)@ + ser_author(author_view(*a)),
{
    match a {
        None => {
            out.push(0u8);
            assert(out@ =~= old(out)@ + ser_author(author_view(*a)));
        },
        Some(x) => {
            out.push(1u8);
            write_text(out, &x.name);
            write_text(out, &x.mbox);
            assert(out@ =~= old(out)@ + ser_author(author_view(*a)));
        },
    }
}

fn read_author(b: &[u8], pos: usize) -> (r: Option<(Option<CommitAuthor>, usize)>)
    ensures
        match r {
            Some((a, p)) => parse_author(b@, pos as int) == Some((author_view(a), p as int)),
            None => parse_author(b@, pos as int) is None,
        },
{
    if pos >= b.len() {
        return None;
    }
    if b[pos] == 0 {
        Some((None, pos + 1))
    } else if b[pos] == 1 {
        match read_text(b, pos + 1) {
            Some((name, p)) => match read_text(b, p) {
                Some((mbox, q)) => Some((Some(CommitAuthor { name, mbox }), q)),
                None => None,
            },
            None => None,
        }
    } else {
        None
    }
}

impl Commit {
    /// The canonical bytes of this commit.
    pub fn encode(&self) -> (out: Vec<u8>)
        ensures
            out@ == encode_commit(self@),
    {
        let mut out: Vec<u8> = Vec::new();
        out.push(TAG_COMMIT);
        let subtree = self.as_subtree();
        bytes_append(&mut out, subtree.digest.as_bytes());
        let parents = self.as_parents();
        write_u64(&mut out, parents.len() as u64);
        write_digests(&mut out, parents);
        write_u64(&mut out, self.as_timestamp());
        write_author(&mut out, self.as_author());
        write_text(&mut out, self.as_message());
        assert(out@ =~= encode_commit(self@));
        out
    }

    /// The commit that the bytes encode, if they encode one.
    pub fn decode(b: &[u8]) -> (c: Option<Commit>)
        ensures
            match c {
                Some(x) => decode_commit(b@) == Some(x@),
                None => decode_commit(b@) is None,
            },
    {
        if b.len() < 1 || b[0] != TAG_COMMIT {
            return None;
        }
        let (subtree, pos1) = match read_digest(b, 1) {
            Some(x) => x,
            None => {
                return None;
            },
        };
        let (n, pos2) = match read_u64(b, pos1) {
            Some(x) => x,
            None => {
                return None;
            },
        };
        let (parents, pos3) = match read_digests(b, pos2, n) {
            Some(x) => x,
            None => {
                return None;
            },
        };
        let (timestamp, pos4) = match read_u64(b, pos3) {
            Some(x) => x,
            None => {
                return None;
            },
        };
        let (author, pos5) = match read_author(b, pos4) {
            Some(x) => x,
            None => {
                return None;
            },
        };
        let (message, pos6) = match read_text(b, pos5) {
            Some(x) => x,
            None => {
                return None;
            },
        };
        if pos6 != b.len() {
            return None;
        }
        Some(Commit::assemble(subtree, parents, author, timestamp, message))
    }
}

impl Blob {
    /// The canonical bytes of this blob object.
    pub fn encode(&self) -> (out: Vec<u8>)
        ensures
            out@ == encode_blob(self@),
    {
        let mut out: Vec<u8> = Vec::new();
        match self {
            Blob::Small(data) => {
                out.push(TAG_SMALL_BLOB);
                bytes_append(&mut out, data.as_slice());
                assert(out@ =~= encode_blob(self@));
            },
            Blob::Large(chunks) => {
                out.push(TAG_BLOB);
                write_digests(&mut out, chunks);
                assert(out@ =~= encode_blob(self@));
            },
        }
        out
    }

    /// The blob object that the bytes encode, if they encode one.
    pub fn decode(b: &[u8]) -> (r: Option<Blob>)
        ensures
            match r {
                Some(x) => decode_blob(b@) == Some(x@),
                None => decode_blob(b@) is None,
            },
    {
        if b.len() < 1 {
            return None;
        }
        if b[0] == TAG_SMALL_BLOB {
            let data = bytes_copy(b, 1, b.len());
            assert(b@.subrange(1, b@.len() as int) =~= b@.skip(1));
            Some(Blob::Small(data))
        } else if b[0] == TAG_BLOB && (b.len() - 1) % DIGEST_LEN == 0 {
            let n: usize = (b.len() - 1) / DIGEST_LEN;
            match read_digests(b, 1, n as u64) {
                Some((chunks, _)) => Some(Blob::Large(chunks)),
                None => None,
            }
        } else {
            None
        }
    }
}

} // verus!
