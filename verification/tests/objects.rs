use subito::blob::{read_blob, share, CHUNK_SIZE};
use subito::candidate::FileProgress;
use subito::digest::Digest;
use subito::error::Error;
use subito::object::{Blob, Commit, CommitAuthor, CommitBuilder, ObjectKind, ObjectRef};
use subito::path::ObjectPath;
use subito::store::Store;
use subito::tree::{Tree, TreeBuilder, TreeEntry};

fn blob_ref(text: &[u8]) -> ObjectRef {
    ObjectRef::new(ObjectKind::SmallBlob, Digest::of(text))
}

fn sample_tree() -> Tree {
    let mut b = TreeBuilder::new();
    b.insert(b"zeta".to_vec(), blob_ref(b"z")).unwrap();
    b.insert(b"alpha".to_vec(), blob_ref(b"a")).unwrap();
    b.insert(b"al".to_vec(), ObjectRef::new(ObjectKind::Tree, Digest::of(b"t"))).unwrap();
    b.into_tree()
}

fn sample_commit() -> Commit {
    let mut b = CommitBuilder::new(1_234_567);
    b.subtree(Digest::of(b"tree"));
    b.parents(vec![Digest::of(b"p1"), Digest::of(b"p2")]);
    b.author(CommitAuthor { name: Some("Zoë".to_string()), mbox: None });
    b.message("first ✓ commit".to_string());
    b.into_commit().unwrap()
}

#[test]
fn hex_is_lower_case_high_half_first() {
    let d = Digest::from_bytes((0u8..32).map(|i| i * 8 + 3).collect()).unwrap();
    assert_eq!(
        d.to_hex(),
        "030b131b232b333b434b535b636b737b838b939ba3abb3bbc3cbd3dbe3ebf3fb"
    );
}

#[test]
fn digest_of_the_empty_string_is_the_published_value() {
    assert_eq!(
        Digest::of(b"").to_hex(),
        "a7ffc6f8bf1ed76651c14756a061d662f580ff4de43b49fa82d80a4b80f8434a"
    );
    assert_eq!(Digest::of(b"").as_bytes().len(), 32);
}

#[test]
fn a_tree_lists_its_entries_by_name() {
    let tree = sample_tree();
    assert_eq!(tree.len(), 3);
    assert_eq!(tree.entry(0).name, b"al".to_vec());
    assert_eq!(tree.entry(1).name, b"alpha".to_vec());
    assert_eq!(tree.entry(2).name, b"zeta".to_vec());
    assert!(tree.get(b"alpha").unwrap().same(&blob_ref(b"a")));
    assert!(tree.get(b"beta").is_none());
}

#[test]
fn a_tree_builder_replaces_and_removes() {
    let mut b = sample_tree().diverge();
    b.insert(b"alpha".to_vec(), blob_ref(b"A")).unwrap();
    assert!(b.get(b"alpha").unwrap().same(&blob_ref(b"A")));
    b.remove(b"al");
    b.remove(b"missing");
    let tree = b.as_tree();
    assert_eq!(tree.len(), 2);
    assert!(!b.is_empty());
    b.remove(b"alpha");
    b.remove(b"zeta");
    assert!(b.is_empty());
    assert!(TreeBuilder::new().is_empty());
}

#[test]
fn a_tree_builder_refuses_bad_names() {
    let mut b = TreeBuilder::new();
    assert_eq!(b.insert(Vec::new(), blob_ref(b"x")), Err(Error::PathInvalid));
    assert_eq!(b.insert(b"a/b".to_vec(), blob_ref(b"x")), Err(Error::PathInvalid));
    assert!(b.is_empty());
    // Dots are names like any other as far as a tree goes.
    assert_eq!(b.insert(b"..".to_vec(), blob_ref(b"x")), Ok(()));
}

#[test]
fn equal_trees_have_equal_encodings() {
    let mut one = TreeBuilder::new();
    one.insert(b"a".to_vec(), blob_ref(b"1")).unwrap();
    one.insert(b"b".to_vec(), blob_ref(b"2")).unwrap();
    let mut other = TreeBuilder::new();
    other.insert(b"b".to_vec(), blob_ref(b"old")).unwrap();
    other.insert(b"a".to_vec(), blob_ref(b"1")).unwrap();
    other.insert(b"b".to_vec(), blob_ref(b"2")).unwrap();
    assert_eq!(one.into_tree().encode(), other.into_tree().encode());
}

#[test]
fn tree_encoding_round_trips() {
    let tree = sample_tree();
    let bytes = tree.encode();
    assert_eq!(bytes[0], 2);
    let back = Tree::decode(&bytes).unwrap();
    assert_eq!(back.len(), 3);
    for i in 0..3 {
        assert_eq!(back.entry(i).name, tree.entry(i).name);
        assert!(back.entry(i).target.same(&tree.entry(i).target));
    }
    assert_eq!(back.encode(), bytes);
    assert_eq!(Tree::decode(&Tree::new().encode()).unwrap().len(), 0);
}

#[test]
fn tree_encoding_has_the_documented_layout() {
    let mut b = TreeBuilder::new();
    b.insert(b"ab".to_vec(), blob_ref(b"x")).unwrap();
    let bytes = b.into_tree().encode();
    let mut expected = vec![2u8, 2, 0, 0, 0, 0, 0, 0, 0, b'a', b'b', 0];
    expected.extend_from_slice(Digest::of(b"x").as_bytes());
    assert_eq!(bytes, expected);
}

#[test]
fn tree_decoding_refuses_what_encoding_does_not_produce() {
    let bytes = sample_tree().encode();
    assert!(Tree::decode(&[]).is_none());
    assert!(Tree::decode(&bytes[..bytes.len() - 1]).is_none());
    let mut wrong_tag = bytes.clone();
    wrong_tag[0] = 3;
    assert!(Tree::decode(&wrong_tag).is_none());
    let mut trailing = bytes.clone();
    trailing.push(0);
    assert!(Tree::decode(&trailing).is_none());
    // Entries out of order.
    let unsorted = Tree::from_entries(vec![
        TreeEntry { name: b"b".to_vec(), target: blob_ref(b"1") },
        TreeEntry { name: b"a".to_vec(), target: blob_ref(b"2") },
    ]);
    assert!(unsorted.is_none());
    let twice = Tree::from_entries(vec![
        TreeEntry { name: b"a".to_vec(), target: blob_ref(b"1") },
        TreeEntry { name: b"a".to_vec(), target: blob_ref(b"2") },
    ]);
    assert!(twice.is_none());
    let mut swapped = vec![2u8];
    for name in [b"b", b"a"] {
        swapped.extend_from_slice(&1u64.to_le_bytes());
        swapped.extend_from_slice(name);
        swapped.push(0);
        swapped.extend_from_slice(Digest::of(b"x").as_bytes());
    }
    assert!(Tree::decode(&swapped).is_none());
}

#[test]
fn commit_encoding_round_trips() {
    let commit = sample_commit();
    let bytes = commit.encode();
    assert_eq!(bytes[0], 3);
    let back = Commit::decode(&bytes).unwrap();
    assert!(back.as_subtree().same(&commit.as_subtree()));
    assert_eq!(back.as_parents().len(), 2);
    assert!(back.as_parents()[0].same(&Digest::of(b"p1")));
    assert!(back.as_parents()[1].same(&Digest::of(b"p2")));
    assert_eq!(back.as_timestamp(), 1_234_567);
    assert_eq!(back.as_message().as_deref(), Some("first ✓ commit"));
    let author = back.as_author().as_ref().unwrap();
    assert_eq!(author.name.as_deref(), Some("Zoë"));
    assert_eq!(author.mbox, None);
    assert_eq!(back.encode(), bytes);
}

#[test]
fn commit_decoding_refuses_text_that_is_not_utf8() {
    let mut b = CommitBuilder::new(1);
    b.subtree(Digest::of(b"tree"));
    b.message("ab".to_string());
    let mut bytes = b.into_commit().unwrap().encode();
    assert!(Commit::decode(&bytes).is_some());
    let n = bytes.len();
    bytes[n - 1] = 0xff;
    assert!(Commit::decode(&bytes).is_none());
    assert!(Commit::decode(&bytes[..n - 1]).is_none());
    assert!(Commit::decode(&[3]).is_none());
}

#[test]
fn a_commit_needs_a_subtree() {
    assert!(CommitBuilder::new(1).into_commit().is_none());
    let mut b = CommitBuilder::new(1);
    b.timestamp(9);
    b.subtree(Digest::of(b"t"));
    let c = b.into_commit().unwrap();
    assert_eq!(c.as_timestamp(), 9);
    assert!(c.as_parents().is_empty());
    let again = c.diverge().into_commit().unwrap();
    assert_eq!(again.encode(), c.encode());
}

#[test]
fn blob_encoding_round_trips() {
    let small = Blob::Small(b"hello".to_vec());
    assert_eq!(small.encode(), b"\x00hello".to_vec());
    match Blob::decode(&small.encode()).unwrap() {
        Blob::Small(data) => assert_eq!(data, b"hello".to_vec()),
        Blob::Large(_) => panic!("a small blob came back large"),
    }
    let large = Blob::Large(vec![Digest::of(b"1"), Digest::of(b"2")]);
    let bytes = large.encode();
    assert_eq!(bytes.len(), 65);
    match Blob::decode(&bytes).unwrap() {
        Blob::Large(chunks) => {
            assert_eq!(chunks.len(), 2);
            assert!(chunks[1].same(&Digest::of(b"2")));
        }
        Blob::Small(_) => panic!("a large blob came back small"),
    }
    assert!(Blob::decode(&bytes[..64]).is_none());
    assert!(Blob::decode(&[]).is_none());
    assert!(Blob::decode(&[9, 1, 2]).is_none());
}

#[test]
fn the_store_keeps_bytes_under_their_digest() {
    let mut store = Store::new();
    let d = store.put(b"abc".to_vec()).unwrap();
    assert!(d.same(&Digest::of(b"abc")));
    assert_eq!(store.len(), 1);
    assert!(store.contains(&d));
    assert_eq!(store.get(&d).unwrap(), &b"abc".to_vec());
    // Putting the same bytes again changes nothing.
    let again = store.put(b"abc".to_vec()).unwrap();
    assert!(again.same(&d));
    assert_eq!(store.len(), 1);
    assert_eq!(store.get(&Digest::of(b"other")), Err(Error::NotFound));
    assert!(!store.contains(&Digest::of(b"other")));
    let (key, bytes) = store.object_at(0);
    assert!(key.same(&d));
    assert_eq!(bytes, &b"abc".to_vec());
}

#[test]
fn the_store_tells_missing_from_unreadable() {
    let mut store = Store::new();
    let garbage = store.put(vec![7, 7, 7]).unwrap();
    assert!(matches!(store.get_tree(&garbage), Err(Error::Io)));
    assert!(matches!(store.get_commit(&garbage), Err(Error::Io)));
    assert!(matches!(store.get_blob(&garbage), Err(Error::Io)));
    let nowhere = Digest::of(b"nowhere");
    assert!(matches!(store.get_tree(&nowhere), Err(Error::NotFound)));
    assert!(matches!(store.get_commit(&nowhere), Err(Error::NotFound)));
    let tree = store.put_tree(&sample_tree()).unwrap();
    assert_eq!(tree.kind, ObjectKind::Tree);
    assert!(matches!(store.get_commit(&tree.digest), Err(Error::Io)));
    assert_eq!(store.get_tree(&tree.digest).unwrap().len(), 3);
    let commit = store.put_commit(&sample_commit()).unwrap();
    assert_eq!(commit.kind, ObjectKind::Commit);
    assert!(commit.digest.same(&Digest::of(&sample_commit().encode())));
}

#[test]
fn absorbing_a_store_takes_over_its_objects() {
    let mut a = Store::new();
    a.put(b"one".to_vec()).unwrap();
    a.put(b"both".to_vec()).unwrap();
    let mut b = Store::new();
    b.put(b"both".to_vec()).unwrap();
    b.put(b"two".to_vec()).unwrap();
    a.absorb(&b).unwrap();
    assert_eq!(a.len(), 3);
    assert!(a.contains(&Digest::of(b"two")));
    assert!(a.contains(&Digest::of(b"one")));
}

#[test]
fn small_contents_become_one_small_blob() {
    let mut store = Store::new();
    let r = share(&mut store, b"hi").unwrap();
    assert_eq!(r.kind, ObjectKind::SmallBlob);
    assert!(r.digest.same(&Digest::of(b"\x00hi")));
    assert_eq!(store.len(), 1);
    assert_eq!(read_blob(&store, &r).unwrap(), b"hi".to_vec());
    let empty = share(&mut store, b"").unwrap();
    assert_eq!(empty.kind, ObjectKind::SmallBlob);
    assert_eq!(read_blob(&store, &empty).unwrap(), Vec::<u8>::new());
    let edge = vec![5u8; CHUNK_SIZE];
    assert_eq!(share(&mut store, &edge).unwrap().kind, ObjectKind::SmallBlob);
}

#[test]
fn large_contents_are_cut_into_chunks() {
    let mut store = Store::new();
    let content: Vec<u8> = (0..(2 * CHUNK_SIZE + 10)).map(|i| (i % 251) as u8).collect();
    let r = share(&mut store, &content).unwrap();
    assert_eq!(r.kind, ObjectKind::Blob);
    match store.get_blob(&r.digest).unwrap() {
        Blob::Large(chunks) => {
            assert_eq!(chunks.len(), 3);
            match store.get_blob(&chunks[2]).unwrap() {
                Blob::Small(data) => assert_eq!(data.len(), 10),
                Blob::Large(_) => panic!("a chunk is a small blob"),
            }
        }
        Blob::Small(_) => panic!("long contents give a blob of chunks"),
    }
    assert_eq!(store.len(), 4);
    assert_eq!(read_blob(&store, &r).unwrap(), content);
    let one_more = vec![5u8; CHUNK_SIZE + 1];
    let r = share(&mut store, &one_more).unwrap();
    assert_eq!(r.kind, ObjectKind::Blob);
    assert_eq!(read_blob(&store, &r).unwrap(), one_more);
}

#[test]
fn reading_a_blob_wants_a_blob() {
    let mut store = Store::new();
    let tree = store.put_tree(&Tree::new()).unwrap();
    assert_eq!(read_blob(&store, &tree), Err(Error::Io));
    let small = share(&mut store, b"x").unwrap();
    let mislabeled = ObjectRef::new(ObjectKind::Blob, small.digest.duplicate());
    assert_eq!(read_blob(&store, &mislabeled), Err(Error::Io));
    let missing = ObjectRef::new(ObjectKind::SmallBlob, Digest::of(b"?"));
    assert_eq!(read_blob(&store, &missing), Err(Error::NotFound));
}

#[test]
fn every_error_has_a_message() {
    let all = [
        Error::Io,
        Error::NotFound,
        Error::PathOutsideRepo,
        Error::PathInvalid,
        Error::PathShadowed,
        Error::FileVanished,
        Error::NoCandidate,
        Error::NoChanges,
        Error::NoParentToAmend,
        Error::CacheInconsistent,
    ];
    for e in all {
        assert!(!e.message().is_empty());
    }
    assert_eq!(Error::NoParentToAmend.message(), "No previous commit to amend!");
    assert_eq!(Error::FileVanished.message(), "File removed during processing!");
}

#[test]
fn progress_knows_what_is_left() {
    let at = ObjectPath::from_path("a/b").unwrap();
    let p = FileProgress::new("/repo/a/b".to_string(), at, 30, 100);
    assert_eq!(p.remaining_bytes(), 70);
    assert_eq!(p.file_path(), "/repo/a/b");
    assert_eq!(p.object_path().to_bytes(), b"a/b".to_vec());
    assert_eq!((p.processed_bytes(), p.total_bytes()), (30, 100));
    let done = FileProgress::new("/repo/c".to_string(), ObjectPath::root(), 100, 100);
    assert_eq!(done.remaining_bytes(), 0);
    let over = FileProgress::new("/repo/c".to_string(), ObjectPath::root(), 101, 100);
    assert_eq!(over.remaining_bytes(), 0);
}
