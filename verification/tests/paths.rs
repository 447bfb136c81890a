use subito::batch::{apply_operation, ObjectBatch, ObjectOperation};
use subito::cache::{Cache, Certainty, FileKind, Fingerprint, Status};
use subito::candidate::normalize;
use subito::clone::{clone, clone_from, Branch, CloneArgs};
use subito::digest::Digest;
use subito::error::Error;
use subito::hierarchy::{walk_tree, Hierarchy};
use subito::object::{ObjectKind, ObjectRef};
use subito::path::{split_bytes, ObjectPath};
use subito::repository::{Repository, WorkEntry, Workspace};
use subito::store::Store;
use subito::tree::{Tree, TreeBuilder};

fn path(text: &str) -> ObjectPath {
    ObjectPath::from_path(text).unwrap()
}

fn leaf(text: &[u8]) -> ObjectRef {
    ObjectRef::new(ObjectKind::SmallBlob, Digest::of(text))
}

fn print(f: i64) -> Fingerprint {
    Fingerprint {
        size: 3,
        mtime_secs: f,
        mtime_nanos: 5,
        inode: 11,
        device: 2,
        kind: FileKind::Regular,
    }
}

fn run(store: &mut Store, ops: Vec<ObjectOperation>) -> Result<Tree, Error> {
    let mut batch = ObjectBatch::new();
    for op in ops {
        batch = batch.add(op);
    }
    batch.run(store, TreeBuilder::new()).map(|b| b.into_tree())
}

fn lookup(store: &Store, tree: &Tree, at: &str) -> Option<ObjectRef> {
    walk_tree(store, tree, &path(at)).unwrap()
}

#[test]
fn paths_are_split_at_separators() {
    let p = path("a/bc/d.txt");
    assert_eq!(p.len(), 3);
    assert_eq!(p.component(0), &b"a".to_vec());
    assert_eq!(p.component(1), &b"bc".to_vec());
    assert_eq!(p.component(2), &b"d.txt".to_vec());
    assert!(!p.is_root());
    assert_eq!(p.to_bytes(), b"a/bc/d.txt".to_vec());
    assert!(ObjectPath::from_path("").unwrap().is_root());
    assert_eq!(ObjectPath::root().to_bytes(), Vec::<u8>::new());
    assert_eq!(path("...").len(), 1);
    assert_eq!(path(".hidden/..x").len(), 2);
    assert_eq!(split_bytes(b"a//b/"), vec![b"a".to_vec(), vec![], b"b".to_vec(), vec![]]);
    assert_eq!(split_bytes(b""), vec![Vec::<u8>::new()]);
}

#[test]
fn paths_refuse_empty_segments_and_dots() {
    for bad in ["/", "/a", "a/", "a//b", ".", "..", "./a", "a/./b", "a/..", "../a", "a/../b"] {
        assert_eq!(ObjectPath::from_path(bad).unwrap_err(), Error::PathInvalid, "{}", bad);
    }
}

#[test]
fn paths_written_out_read_back() {
    for text in ["a", "a/b", "x.y/z", "ä/ö"] {
        let p = path(text);
        let back = ObjectPath::from_bytes(&p.to_bytes()).unwrap();
        assert!(back.same(&p));
        assert_eq!(p.to_bytes(), text.as_bytes().to_vec());
    }
}

#[test]
fn paths_know_their_prefixes() {
    let a = path("a");
    let ab = path("a/b");
    let ac = path("a/c");
    assert!(a.is_prefix_of(&ab));
    assert!(ab.is_prefix_of(&ab));
    assert!(!ab.is_prefix_of(&a));
    assert!(!ab.is_prefix_of(&ac));
    assert!(ObjectPath::root().is_prefix_of(&a));
    assert!(!path("ab").is_prefix_of(&path("abc")));
    assert!(ab.suffix(1).same(&path("b")));
    assert!(ab.suffix(2).is_root());
    assert!(a.concat(&path("b")).same(&ab));
    assert!(ab.duplicate().same(&ab));
    assert!(!ab.same(&ac));
}

#[test]
fn raw_paths_are_normalized_against_the_root() {
    let ok = |root: &str, raw: &str| normalize(root.as_bytes(), raw.as_bytes()).unwrap().to_bytes();
    assert_eq!(ok("/repo", "a/b"), b"a/b".to_vec());
    assert_eq!(ok("/repo", "/repo/a/b"), b"a/b".to_vec());
    assert_eq!(ok("/repo/", "/repo/a"), b"a".to_vec());
    assert_eq!(ok("/", "/a"), b"a".to_vec());
    assert_eq!(ok("/repo", "/repo"), Vec::<u8>::new());
    assert_eq!(ok("/repo", "/repo/"), Vec::<u8>::new());
    assert_eq!(ok("/repo", ""), Vec::<u8>::new());
    let err = |root: &str, raw: &str| normalize(root.as_bytes(), raw.as_bytes()).unwrap_err();
    assert_eq!(err("/repo", "/repository/a"), Error::PathOutsideRepo);
    assert_eq!(err("/repo", "/rep"), Error::PathOutsideRepo);
    assert_eq!(err("/repo", "/"), Error::PathOutsideRepo);
    assert_eq!(err("/repo", "/repo//a"), Error::PathInvalid);
    assert_eq!(err("/repo", "/repo/../etc"), Error::PathInvalid);
    assert_eq!(err("/repo", "a/../b"), Error::PathInvalid);
}

#[test]
fn the_cache_tells_five_cases_apart() {
    let mut cache = Cache::new();
    let p = path("a.txt");
    assert!(matches!(cache.status(&p, None), Status::Extinct));
    let snapshot = match cache.status(&p, Some(print(1))) {
        Status::New(s) => s,
        other => panic!("expected a new file, got {:?}", other),
    };
    assert!(snapshot.as_path().same(&p));
    assert_eq!(snapshot.as_fingerprint(), print(1));
    assert!(snapshot.as_object_ref().is_none());
    cache.resolve(snapshot, leaf(b"v1")).unwrap();
    assert_eq!(cache.len(), 1);
    match cache.status(&p, Some(print(1))) {
        Status::Extant(Certainty::Positive, s) => {
            assert!(s.as_object_ref().as_ref().unwrap().same(&leaf(b"v1")))
        }
        other => panic!("expected a known file, got {:?}", other),
    }
    match cache.status(&p, Some(print(2))) {
        Status::Extant(Certainty::Negative, s) => {
            assert_eq!(s.as_fingerprint(), print(2));
            assert!(s.as_object_ref().as_ref().unwrap().same(&leaf(b"v1")));
        }
        other => panic!("expected a changed file, got {:?}", other),
    }
    assert!(matches!(cache.status(&p, None), Status::Removed));
    assert!(matches!(cache.status(&path("b.txt"), None), Status::Extinct));
    let (at, f, object) = cache.record_at(0);
    assert!(at.same(&p));
    assert_eq!(f, print(1));
    assert!(object.same(&leaf(b"v1")));
}

#[test]
fn resolving_is_idempotent_and_refuses_stale_snapshots() {
    let mut cache = Cache::new();
    let p = path("a.txt");
    let fresh = || match Cache::new().status(&path("a.txt"), Some(print(1))) {
        Status::New(s) => s,
        _ => unreachable!(),
    };
    cache.resolve(fresh(), leaf(b"v1")).unwrap();
    // The same record once more: nothing changes.
    cache.resolve(fresh(), leaf(b"v1")).unwrap();
    assert_eq!(cache.len(), 1);
    // A snapshot from before the path was known, with another object.
    assert_eq!(cache.resolve(fresh(), leaf(b"v2")), Err(Error::CacheInconsistent));
    match cache.status(&p, Some(print(1))) {
        Status::Extant(Certainty::Positive, s) => {
            assert!(s.as_object_ref().as_ref().unwrap().same(&leaf(b"v1")))
        }
        _ => panic!("the record must be as it was"),
    }
    // A snapshot that the cache hands out now can overwrite the record.
    let current = match cache.status(&p, Some(print(2))) {
        Status::Extant(_, s) => s,
        _ => unreachable!(),
    };
    cache.resolve(current, leaf(b"v2")).unwrap();
    assert!(matches!(cache.status(&p, Some(print(2))), Status::Extant(Certainty::Positive, _)));
    // A snapshot of a known path presented to a cache that does not know it.
    let known = match cache.status(&p, Some(print(3))) {
        Status::Extant(_, s) => s,
        _ => unreachable!(),
    };
    assert_eq!(Cache::new().resolve(known, leaf(b"v3")), Err(Error::CacheInconsistent));
}

#[test]
fn a_batch_applies_its_operations_in_order() {
    let mut store = Store::new();
    let tree = run(
        &mut store,
        vec![
            ObjectOperation::Add(path("a"), leaf(b"1")),
            ObjectOperation::Add(path("d/x"), leaf(b"2")),
            ObjectOperation::Add(path("a"), leaf(b"3")),
            ObjectOperation::Delete(path("nothing/here")),
            ObjectOperation::Add(path("d/e/y"), leaf(b"4")),
        ],
    )
    .unwrap();
    assert!(lookup(&store, &tree, "a").unwrap().same(&leaf(b"3")));
    assert!(lookup(&store, &tree, "d/x").unwrap().same(&leaf(b"2")));
    assert!(lookup(&store, &tree, "d/e/y").unwrap().same(&leaf(b"4")));
    assert_eq!(lookup(&store, &tree, "d").unwrap().kind, ObjectKind::Tree);
    assert!(lookup(&store, &tree, "d/z").is_none());
    assert!(lookup(&store, &tree, "a/below").is_none());
    assert_eq!(tree.len(), 2);
}

#[test]
fn a_delete_after_an_add_leaves_nothing() {
    let mut store = Store::new();
    let tree = run(
        &mut store,
        vec![
            ObjectOperation::Add(path("keep"), leaf(b"k")),
            ObjectOperation::Add(path("d/e/y"), leaf(b"4")),
            ObjectOperation::Delete(path("d/e/y")),
        ],
    )
    .unwrap();
    assert!(lookup(&store, &tree, "d/e/y").is_none());
    assert!(lookup(&store, &tree, "d").is_none());
    assert_eq!(tree.len(), 1);
    let only = run(&mut store, vec![ObjectOperation::Add(path("keep"), leaf(b"k"))]).unwrap();
    assert_eq!(tree.encode(), only.encode());
}

#[test]
fn a_delete_keeps_the_siblings() {
    let mut store = Store::new();
    let tree = run(
        &mut store,
        vec![
            ObjectOperation::Add(path("d/x"), leaf(b"x")),
            ObjectOperation::Add(path("d/y"), leaf(b"y")),
            ObjectOperation::Delete(path("d/x")),
        ],
    )
    .unwrap();
    assert!(lookup(&store, &tree, "d/x").is_none());
    assert!(lookup(&store, &tree, "d/y").unwrap().same(&leaf(b"y")));
}

#[test]
fn an_add_below_a_blob_is_shadowed_but_a_delete_is_not() {
    let mut store = Store::new();
    let r = run(
        &mut store,
        vec![
            ObjectOperation::Add(path("a"), leaf(b"1")),
            ObjectOperation::Add(path("a/b"), leaf(b"2")),
        ],
    );
    assert_eq!(r.unwrap_err(), Error::PathShadowed);
    let tree = run(
        &mut store,
        vec![ObjectOperation::Add(path("a"), leaf(b"1")), ObjectOperation::Delete(path("a/b"))],
    )
    .unwrap();
    assert!(lookup(&store, &tree, "a").unwrap().same(&leaf(b"1")));
}

#[test]
fn operations_at_the_root_replace_the_tree() {
    let mut store = Store::new();
    let inner = run(&mut store, vec![ObjectOperation::Add(path("x"), leaf(b"x"))]).unwrap();
    let inner_ref = store.put_tree(&inner).unwrap();
    let tree = run(
        &mut store,
        vec![
            ObjectOperation::Add(path("old"), leaf(b"o")),
            ObjectOperation::Add(ObjectPath::root(), inner_ref.duplicate()),
        ],
    )
    .unwrap();
    assert_eq!(tree.encode(), inner.encode());
    let emptied = apply_operation(&mut store, tree, &ObjectOperation::Delete(ObjectPath::root()));
    assert!(emptied.unwrap().is_empty());
    let r = apply_operation(
        &mut store,
        Tree::new(),
        &ObjectOperation::Add(ObjectPath::root(), leaf(b"blob")),
    );
    assert_eq!(r.unwrap_err(), Error::PathShadowed);
    // A tree can be entered whole, and is then walked through.
    let tree = run(&mut store, vec![ObjectOperation::Add(path("in"), inner_ref)]).unwrap();
    assert!(lookup(&store, &tree, "in/x").unwrap().same(&leaf(b"x")));
}

#[test]
fn a_missing_subtree_breaks_the_walk() {
    let mut store = Store::new();
    let dangling = ObjectRef::new(ObjectKind::Tree, Digest::of(b"not kept"));
    let tree = run(&mut store, vec![ObjectOperation::Add(path("d"), dangling.duplicate())]).unwrap();
    assert_eq!(walk_tree(&store, &tree, &path("d/x")).unwrap_err(), Error::NotFound);
    assert!(walk_tree(&store, &tree, &path("d")).unwrap().unwrap().same(&dangling));
    let r = apply_operation(&mut store, tree, &ObjectOperation::Add(path("d/x"), leaf(b"x")));
    assert_eq!(r.unwrap_err(), Error::NotFound);
    let h = Hierarchy::from(dangling);
    assert_eq!(h.get(&store, &path("x")).unwrap_err(), Error::NotFound);
    assert!(h.get(&store, &ObjectPath::root()).unwrap().is_some());
    assert!(Hierarchy::new().get(&store, &path("x")).unwrap().is_none());
    assert!(Hierarchy::new().get(&store, &ObjectPath::root()).unwrap().is_none());
}

#[test]
fn the_workspace_finds_the_first_entry_at_a_path() {
    let mut ws = Workspace::new();
    for (at, mtime) in [("a", 1), ("b", 2), ("a", 3)] {
        ws.push(WorkEntry { path: path(at), fingerprint: print(mtime), content: None });
    }
    assert_eq!(ws.len(), 3);
    assert_eq!(ws.find(&path("a")).unwrap().fingerprint, print(1));
    assert_eq!(ws.find(&path("b")).unwrap().fingerprint, print(2));
    assert!(ws.find(&path("c")).is_none());
}

#[test]
fn cloning_starts_at_master() {
    let mut origin = Repository::new("/origin".to_string());
    let mut ws = Workspace::new();
    ws.push(WorkEntry { path: path("a.txt"), fingerprint: print(1), content: Some(b"hi".to_vec()) });
    let args = subito::candidate::StageArgs {
        paths: vec!["a.txt".to_string()],
        previous: false,
        quiet: true,
    };
    origin.stage(args, &ws).unwrap();
    let commit = subito::commit::CommitArgs {
        message: Some("m".to_string()),
        author: None,
        amend: false,
        force: false,
    };
    let head = origin.commit(commit, 7).unwrap().commit;
    let branches = vec![
        Branch { name: "dev".to_string(), commit: Digest::of(b"elsewhere") },
        Branch { name: "master".to_string(), commit: head.digest.duplicate() },
    ];
    let args = CloneArgs { url: "file:///origin".to_string(), path: None };
    let out = clone(args, "/here".to_string(), &origin.store, &branches).unwrap();
    let copy = out.repository;
    assert_eq!(copy.path, "/here");
    assert!(copy.state.head.as_ref().unwrap().same(&head));
    assert!(copy
        .state
        .candidate
        .as_ref()
        .unwrap()
        .same(origin.state.candidate.as_ref().unwrap()));
    assert_eq!(copy.store.len(), origin.store.len());
    let args = CloneArgs { url: "file:///origin".to_string(), path: Some("/there".to_string()) };
    let there = clone(args, "/here".to_string(), &origin.store, &branches).unwrap();
    assert_eq!(there.repository.path, "/there");
    let mut blank = Repository::new("/blank".to_string());
    let without = vec![Branch { name: "dev".to_string(), commit: head.digest.duplicate() }];
    assert_eq!(clone_from(&mut blank, &origin.store, &without), Err(Error::NotFound));
    assert!(blank.state.is_empty());
    let lost = vec![Branch { name: "master".to_string(), commit: Digest::of(b"lost") }];
    assert_eq!(clone_from(&mut blank, &origin.store, &lost), Err(Error::NotFound));
    assert!(blank.state.is_empty());
}
