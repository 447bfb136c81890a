use subito::blob::read_blob;
use subito::cache::{FileKind, Fingerprint};
use subito::candidate::{BatchOp, StageArgs};
use subito::commit::CommitArgs;
use subito::error::Error;
use subito::log::LogArgs;
use subito::object::{CommitBuilder, ObjectKind};
use subito::path::ObjectPath;
use subito::repository::{Repository, WorkEntry, Workspace};

fn seen(mtime: i64, size: u64, kind: FileKind) -> Fingerprint {
    Fingerprint { size, mtime_secs: mtime, mtime_nanos: 0, inode: 7, device: 1, kind }
}

fn file(path: &str, content: &[u8], mtime: i64) -> WorkEntry {
    WorkEntry {
        path: ObjectPath::from_path(path).unwrap(),
        fingerprint: seen(mtime, content.len() as u64, FileKind::Regular),
        content: Some(content.to_vec()),
    }
}

fn unread(path: &str, size: u64, mtime: i64) -> WorkEntry {
    WorkEntry {
        path: ObjectPath::from_path(path).unwrap(),
        fingerprint: seen(mtime, size, FileKind::Regular),
        content: None,
    }
}

fn directory(path: &str) -> WorkEntry {
    WorkEntry {
        path: ObjectPath::from_path(path).unwrap(),
        fingerprint: seen(1, 0, FileKind::Directory),
        content: None,
    }
}

fn workspace(entries: Vec<WorkEntry>) -> Workspace {
    let mut ws = Workspace::new();
    for e in entries {
        ws.push(e);
    }
    ws
}

fn stage_args(paths: &[&str], previous: bool) -> StageArgs {
    StageArgs { paths: paths.iter().map(|p| p.to_string()).collect(), previous, quiet: false }
}

fn plain_commit(message: &str) -> CommitArgs {
    CommitArgs { message: Some(message.to_string()), author: None, amend: false, force: false }
}

fn candidate_blob(repo: &Repository, name: &str) -> Option<Vec<u8>> {
    let candidate = repo.state.candidate.as_ref()?;
    let tree = repo.store.get_tree(&candidate.digest).unwrap();
    let target = tree.get(name.as_bytes())?;
    Some(read_blob(&repo.store, target).unwrap())
}

fn after_first_commit() -> (Repository, Workspace) {
    let mut repo = Repository::new("/repo".to_string());
    let ws = workspace(vec![file("a.txt", b"hi", 10)]);
    repo.stage(stage_args(&["a.txt"], false), &ws).unwrap();
    repo.commit(plain_commit("m"), 1000).unwrap();
    (repo, ws)
}

#[test]
fn empty_then_one_file_then_commit() {
    let (repo, _) = after_first_commit();
    let head = repo.state.head.as_ref().expect("a head");
    assert_eq!(head.kind, ObjectKind::Commit);
    let commit = repo.store.get_commit(&head.digest).unwrap();
    assert_eq!(commit.as_parents().len(), 0);
    assert_eq!(commit.as_message().as_deref(), Some("m"));
    assert_eq!(commit.as_timestamp(), 1000);
    assert!(commit.as_author().is_none());
    let tree = repo.store.get_tree(&commit.as_subtree().digest).unwrap();
    assert_eq!(tree.len(), 1);
    assert_eq!(tree.entry(0).name, b"a.txt".to_vec());
    assert_eq!(tree.entry(0).target.kind, ObjectKind::SmallBlob);
    assert_eq!(read_blob(&repo.store, &tree.entry(0).target).unwrap(), b"hi".to_vec());
    assert!(commit.as_subtree().same(repo.state.candidate.as_ref().unwrap()));
}

#[test]
fn restaging_an_unchanged_file_changes_nothing() {
    let (mut repo, _) = after_first_commit();
    let before = repo.state.candidate.as_ref().unwrap().duplicate();
    let objects = repo.store.len();
    let records = repo.cache.len();
    // The bytes are not even handed over: an unchanged fingerprint is enough.
    let ws = workspace(vec![unread("a.txt", 2, 10)]);
    let out = repo.stage(stage_args(&["a.txt"], false), &ws).unwrap();
    assert!(out.progress.is_empty());
    assert!(out.candidate.unwrap().same(&before));
    assert!(repo.state.candidate.as_ref().unwrap().same(&before));
    assert_eq!(repo.store.len(), objects);
    assert_eq!(repo.cache.len(), records);
}

#[test]
fn processing_a_file_twice_hashes_it_once() {
    let mut repo = Repository::new("/repo".to_string());
    let path = ObjectPath::from_path("a.txt").unwrap();
    let f = seen(10, 2, FileKind::Regular);
    let first = Repository::do_process_file(
        &mut repo.store,
        &mut repo.cache,
        &path,
        Some(f),
        &Some(b"hi".to_vec()),
    )
    .unwrap();
    assert!(first.hashed);
    let second = Repository::do_process_file(
        &mut repo.store,
        &mut repo.cache,
        &path,
        Some(f),
        &Some(b"something else".to_vec()),
    )
    .unwrap();
    assert!(!second.hashed);
    assert!(second.object.same(&first.object));
    let third =
        Repository::do_process_file(&mut repo.store, &mut repo.cache, &path, Some(f), &None).unwrap();
    assert!(!third.hashed);
    assert!(third.object.same(&first.object));
}

#[test]
fn a_changed_fingerprint_is_hashed_again() {
    let mut repo = Repository::new("/repo".to_string());
    let ws = workspace(vec![file("a.txt", b"hi", 10)]);
    repo.stage(stage_args(&["a.txt"], false), &ws).unwrap();
    let ws = workspace(vec![file("a.txt", b"HI", 11)]);
    repo.stage(stage_args(&["a.txt"], false), &ws).unwrap();
    assert_eq!(candidate_blob(&repo, "a.txt"), Some(b"HI".to_vec()));
}

#[test]
fn staging_a_missing_path_deletes_it_from_the_candidate() {
    let mut repo = Repository::new("/repo".to_string());
    let ws = workspace(vec![file("a.txt", b"hi", 10), file("b.txt", b"bye", 10)]);
    repo.stage(stage_args(&["a.txt", "b.txt"], false), &ws).unwrap();
    assert_eq!(candidate_blob(&repo, "b.txt"), Some(b"bye".to_vec()));
    let ws = workspace(vec![file("a.txt", b"hi", 10)]);
    repo.stage(stage_args(&["b.txt"], false), &ws).unwrap();
    let tree = repo.store.get_tree(&repo.state.candidate.as_ref().unwrap().digest).unwrap();
    assert_eq!(tree.len(), 1);
    assert_eq!(candidate_blob(&repo, "a.txt"), Some(b"hi".to_vec()));
    assert_eq!(candidate_blob(&repo, "b.txt"), None);
}

#[test]
fn unstaging_restores_from_the_head() {
    let (mut repo, _) = after_first_commit();
    let ws = workspace(vec![file("a.txt", b"HI", 20)]);
    repo.stage(stage_args(&["a.txt"], false), &ws).unwrap();
    assert_eq!(candidate_blob(&repo, "a.txt"), Some(b"HI".to_vec()));
    repo.stage(stage_args(&["a.txt"], true), &Workspace::new()).unwrap();
    assert_eq!(candidate_blob(&repo, "a.txt"), Some(b"hi".to_vec()));
}

#[test]
fn unstaging_what_the_head_lacks_deletes_it() {
    let (mut repo, _) = after_first_commit();
    let ws = workspace(vec![file("new.txt", b"n", 20)]);
    repo.stage(stage_args(&["new.txt"], false), &ws).unwrap();
    assert_eq!(candidate_blob(&repo, "new.txt"), Some(b"n".to_vec()));
    repo.stage(stage_args(&["new.txt"], true), &ws).unwrap();
    assert_eq!(candidate_blob(&repo, "new.txt"), None);
    assert_eq!(candidate_blob(&repo, "a.txt"), Some(b"hi".to_vec()));
}

#[test]
fn commit_without_changes_fails_and_force_succeeds() {
    let (mut repo, _) = after_first_commit();
    let first = repo.state.head.as_ref().unwrap().duplicate();
    let first_commit = repo.store.get_commit(&first.digest).unwrap();
    let state_before = repo.get_state();
    let err = repo.commit(plain_commit("again"), 2000).unwrap_err();
    assert_eq!(err, Error::NoChanges);
    assert!(repo.state.head.as_ref().unwrap().same(state_before.head.as_ref().unwrap()));
    let forced = CommitArgs { message: None, author: None, amend: false, force: true };
    let out = repo.commit(forced, 2000).unwrap();
    assert!(repo.state.head.as_ref().unwrap().same(&out.commit));
    let second = repo.store.get_commit(&out.commit.digest).unwrap();
    assert!(second.as_subtree().same(&first_commit.as_subtree()));
    assert_eq!(second.as_parents().len(), 1);
    assert!(second.as_parents()[0].same(&first.digest));
    assert_eq!(second.as_timestamp(), 2000);
    assert!(second.as_message().is_none());
}

#[test]
fn amend_replaces_the_head_in_place() {
    let (mut repo, _) = after_first_commit();
    let first = repo.store.get_commit(&repo.state.head.as_ref().unwrap().digest).unwrap();
    let ws = workspace(vec![file("a.txt", b"hi", 10), file("b.txt", b"b", 10)]);
    repo.stage(stage_args(&["b.txt"], false), &ws).unwrap();
    let args = CommitArgs {
        message: Some("m2".to_string()),
        author: Some("Ada".to_string()),
        amend: true,
        force: false,
    };
    let out = repo.commit(args, 5000).unwrap();
    let amended = repo.store.get_commit(&out.commit.digest).unwrap();
    assert_eq!(amended.as_parents().len(), first.as_parents().len());
    assert_eq!(amended.as_parents().len(), 0);
    assert_eq!(amended.as_message().as_deref(), Some("m2"));
    // An amendment keeps the moment of the commit it replaces.
    assert_eq!(amended.as_timestamp(), 1000);
    let author = amended.as_author().as_ref().unwrap();
    assert_eq!(author.name.as_deref(), Some("Ada"));
    assert_eq!(author.mbox, None);
    assert!(amended.as_subtree().same(repo.state.candidate.as_ref().unwrap()));
}

#[test]
fn amend_with_the_same_tree_needs_force() {
    let (mut repo, _) = after_first_commit();
    let first = repo.store.get_commit(&repo.state.head.as_ref().unwrap().digest).unwrap();
    let args =
        CommitArgs { message: Some("m2".to_string()), author: None, amend: true, force: false };
    assert_eq!(repo.commit(args, 5000).unwrap_err(), Error::NoChanges);
    let args =
        CommitArgs { message: Some("m2".to_string()), author: None, amend: true, force: true };
    let out = repo.commit(args, 5000).unwrap();
    let amended = repo.store.get_commit(&out.commit.digest).unwrap();
    assert_eq!(amended.as_parents().len(), 0);
    assert!(amended.as_subtree().same(&first.as_subtree()));
    assert_eq!(amended.as_message().as_deref(), Some("m2"));
}

#[test]
fn commit_without_candidate_fails() {
    let mut repo = Repository::new("/repo".to_string());
    assert_eq!(repo.commit(plain_commit("m"), 1).unwrap_err(), Error::NoCandidate);
    assert!(repo.state.is_empty());
}

#[test]
fn amend_without_head_fails() {
    let mut repo = Repository::new("/repo".to_string());
    let ws = workspace(vec![file("a.txt", b"hi", 10)]);
    repo.stage(stage_args(&["a.txt"], false), &ws).unwrap();
    let args = CommitArgs { message: None, author: None, amend: true, force: false };
    assert_eq!(repo.commit(args, 1).unwrap_err(), Error::NoParentToAmend);
    assert!(repo.state.head.is_none());
}

#[test]
fn commit_with_a_missing_head_fails_with_not_found() {
    let (mut repo, _) = after_first_commit();
    let head = repo.state.head.as_ref().unwrap().duplicate();
    let candidate = repo.state.candidate.as_ref().unwrap().duplicate();
    let mut elsewhere = Repository::new("/other".to_string());
    elsewhere.state.head = Some(head);
    elsewhere.state.candidate = Some(candidate);
    assert_eq!(elsewhere.commit(plain_commit("m"), 1).unwrap_err(), Error::NotFound);
}

#[test]
fn a_file_that_cannot_be_opened_has_vanished() {
    let mut repo = Repository::new("/repo".to_string());
    let ws = workspace(vec![unread("a.txt", 2, 10)]);
    let err = repo.stage(stage_args(&["a.txt"], false), &ws).unwrap_err();
    assert_eq!(err, Error::FileVanished);
    assert!(repo.state.is_empty());
}

#[test]
fn a_file_that_is_gone_has_vanished() {
    let mut repo = Repository::new("/repo".to_string());
    let path = ObjectPath::from_path("a.txt").unwrap();
    let err = Repository::do_process_file(&mut repo.store, &mut repo.cache, &path, None, &None)
        .unwrap_err();
    assert_eq!(err, Error::FileVanished);
}

#[test]
fn staging_nothing_in_an_empty_repository_leaves_it_empty() {
    let mut repo = Repository::new("/repo".to_string());
    repo.stage(stage_args(&["ghost.txt"], false), &Workspace::new()).unwrap();
    assert!(repo.state.is_empty());
    repo.stage(stage_args(&[], false), &Workspace::new()).unwrap();
    assert!(repo.state.is_empty());
}

#[test]
fn deleting_everything_after_a_commit_leaves_an_empty_candidate() {
    let (mut repo, _) = after_first_commit();
    repo.stage(stage_args(&["a.txt"], false), &Workspace::new()).unwrap();
    let candidate = repo.state.candidate.as_ref().expect("a candidate");
    let tree = repo.store.get_tree(&candidate.digest).unwrap();
    assert!(tree.is_empty());
}

#[test]
fn absolute_paths_must_lie_under_the_root() {
    let mut repo = Repository::new("/repo".to_string());
    let ws = workspace(vec![file("a.txt", b"hi", 10)]);
    repo.stage(stage_args(&["/repo/a.txt"], false), &ws).unwrap();
    assert_eq!(candidate_blob(&repo, "a.txt"), Some(b"hi".to_vec()));
    let err = repo.stage(stage_args(&["/elsewhere/a.txt"], false), &ws).unwrap_err();
    assert_eq!(err, Error::PathOutsideRepo);
    let err = repo.stage(stage_args(&["/repository/a.txt"], false), &ws).unwrap_err();
    assert_eq!(err, Error::PathOutsideRepo);
}

#[test]
fn invalid_paths_fail_the_whole_batch() {
    let mut repo = Repository::new("/repo".to_string());
    let ws = workspace(vec![file("a.txt", b"hi", 10)]);
    for bad in ["../a.txt", "./a.txt", "a//b", "a/", "/repo/../x"] {
        let err = repo.stage(stage_args(&["a.txt", bad], false), &ws).unwrap_err();
        assert_eq!(err, Error::PathInvalid, "{}", bad);
        assert!(repo.state.is_empty());
    }
}

#[test]
fn adding_below_a_file_is_shadowed() {
    let mut repo = Repository::new("/repo".to_string());
    let ws = workspace(vec![file("a", b"flat", 10)]);
    repo.stage(stage_args(&["a"], false), &ws).unwrap();
    let before = repo.state.candidate.as_ref().unwrap().duplicate();
    let ws = workspace(vec![file("a/b", b"deep", 10)]);
    let err = repo.stage(stage_args(&["a/b"], false), &ws).unwrap_err();
    assert_eq!(err, Error::PathShadowed);
    assert!(repo.state.candidate.as_ref().unwrap().same(&before));
}

#[test]
fn staging_a_directory_builds_nested_trees() {
    let mut repo = Repository::new("/repo".to_string());
    let ws = workspace(vec![
        directory("d"),
        file("d/x", b"x!", 10),
        directory("d/sub"),
        file("d/sub/y", b"y!", 10),
        file("other", b"o", 10),
    ]);
    repo.stage(stage_args(&["d"], false), &ws).unwrap();
    let root = repo.store.get_tree(&repo.state.candidate.as_ref().unwrap().digest).unwrap();
    assert_eq!(root.len(), 1);
    let d = root.get(b"d").unwrap();
    assert_eq!(d.kind, ObjectKind::Tree);
    let d_tree = repo.store.get_tree(&d.digest).unwrap();
    assert_eq!(d_tree.len(), 2);
    assert_eq!(read_blob(&repo.store, d_tree.get(b"x").unwrap()).unwrap(), b"x!".to_vec());
    let sub = repo.store.get_tree(&d_tree.get(b"sub").unwrap().digest).unwrap();
    assert_eq!(sub.len(), 1);
    assert_eq!(read_blob(&repo.store, sub.get(b"y").unwrap()).unwrap(), b"y!".to_vec());
}

#[test]
fn staging_files_one_by_one_equals_staging_their_directory() {
    let entries = || {
        vec![directory("d"), file("d/x", b"x!", 10), directory("d/sub"), file("d/sub/y", b"y!", 10)]
    };
    let mut whole = Repository::new("/repo".to_string());
    whole.stage(stage_args(&["d"], false), &workspace(entries())).unwrap();
    let mut piecewise = Repository::new("/repo".to_string());
    piecewise.stage(stage_args(&["d/sub/y", "d/x"], false), &workspace(entries())).unwrap();
    assert!(whole
        .state
        .candidate
        .as_ref()
        .unwrap()
        .same(piecewise.state.candidate.as_ref().unwrap()));
}

#[test]
fn deleting_the_last_file_of_a_subtree_prunes_it() {
    let mut repo = Repository::new("/repo".to_string());
    let ws = workspace(vec![file("top", b"t", 10), file("d/sub/y", b"y!", 10)]);
    repo.stage(stage_args(&["top", "d/sub/y"], false), &ws).unwrap();
    let ws = workspace(vec![file("top", b"t", 10)]);
    repo.stage(stage_args(&["d/sub/y"], false), &ws).unwrap();
    let root = repo.store.get_tree(&repo.state.candidate.as_ref().unwrap().digest).unwrap();
    assert_eq!(root.len(), 1);
    assert!(root.get(b"d").is_none());
    let mut flat = Repository::new("/repo".to_string());
    flat.stage(stage_args(&["top"], false), &ws).unwrap();
    assert!(flat.state.candidate.as_ref().unwrap().same(repo.state.candidate.as_ref().unwrap()));
}

#[test]
fn the_later_operation_on_a_path_decides() {
    let mut repo = Repository::new("/repo".to_string());
    let ws = workspace(vec![file("a.txt", b"hi", 10)]);
    // Staged, then unstaged against an empty head: the deletion comes last.
    let batch = vec![BatchOp::stage("a.txt".to_string()), BatchOp::unstage("a.txt".to_string())];
    repo.stage_batch(&batch, &ws).unwrap();
    assert!(repo.state.is_empty());
    let batch = vec![BatchOp::unstage("a.txt".to_string()), BatchOp::stage("a.txt".to_string())];
    repo.stage_batch(&batch, &ws).unwrap();
    assert_eq!(candidate_blob(&repo, "a.txt"), Some(b"hi".to_vec()));
}

#[test]
fn staging_the_root_takes_the_whole_workspace() {
    let mut repo = Repository::new("/repo".to_string());
    let ws = workspace(vec![directory(""), file("a.txt", b"hi", 10), file("d/x", b"x", 10)]);
    repo.stage(stage_args(&[""], false), &ws).unwrap();
    assert_eq!(candidate_blob(&repo, "a.txt"), Some(b"hi".to_vec()));
    let root = repo.store.get_tree(&repo.state.candidate.as_ref().unwrap().digest).unwrap();
    assert_eq!(root.len(), 2);
}

#[test]
fn log_walks_from_the_head_to_the_root() {
    let mut repo = Repository::new("/repo".to_string());
    assert!(repo.log(LogArgs {}).unwrap().entries.is_empty());
    let mut heads = Vec::new();
    for (i, text) in ["one", "two", "three"].iter().enumerate() {
        let ws = workspace(vec![file("a.txt", text.as_bytes(), i as i64)]);
        repo.stage(stage_args(&["a.txt"], false), &ws).unwrap();
        let out = repo.commit(plain_commit(text), 100 + i as u64).unwrap();
        heads.push(out.commit.digest.to_hex());
    }
    let log = repo.log(LogArgs {}).unwrap();
    assert_eq!(log.entries.len(), 3);
    assert_eq!(log.entries[0].digest, heads[2]);
    assert_eq!(log.entries[1].digest, heads[1]);
    assert_eq!(log.entries[2].digest, heads[0]);
    assert_eq!(log.entries[0].parents, vec![heads[1].clone()]);
    assert_eq!(log.entries[2].parents, Vec::<String>::new());
    assert_eq!(log.entries[0].message.as_deref(), Some("three"));
    assert_eq!(log.entries[0].timestamp, 102);
    assert_eq!(log.entries[1].subtree.len(), 64);
    let tree = repo.store.get_commit(&repo.state.head.as_ref().unwrap().digest).unwrap();
    assert_eq!(log.entries[0].subtree, tree.as_subtree().digest.to_hex());
}

#[test]
fn log_shows_a_shared_ancestor_once() {
    let (mut repo, _) = after_first_commit();
    let root = repo.state.head.as_ref().unwrap().duplicate();
    let tree = repo.state.candidate.as_ref().unwrap().duplicate();
    let mut sides = Vec::new();
    for moment in [1u64, 2u64] {
        let mut b = CommitBuilder::new(moment);
        b.subtree(tree.digest.duplicate());
        b.parents(vec![root.digest.duplicate()]);
        let side = b.into_commit().unwrap();
        sides.push(repo.store.put_commit(&side).unwrap());
    }
    let mut b = CommitBuilder::new(3);
    b.subtree(tree.digest.duplicate());
    b.parents(vec![sides[0].digest.duplicate(), sides[1].digest.duplicate()]);
    let merge = repo.store.put_commit(&b.into_commit().unwrap()).unwrap();
    repo.state.head = Some(merge.duplicate());
    let log = repo.log(LogArgs {}).unwrap();
    let shown: Vec<String> = log.entries.iter().map(|e| e.digest.clone()).collect();
    // Depth first: the parent listed last is shown first.
    assert_eq!(
        shown,
        vec![
            merge.digest.to_hex(),
            sides[1].digest.to_hex(),
            root.digest.to_hex(),
            sides[0].digest.to_hex(),
        ]
    );
}

#[test]
fn log_fails_where_a_parent_is_missing() {
    let (mut repo, _) = after_first_commit();
    let tree = repo.state.candidate.as_ref().unwrap().duplicate();
    let mut b = CommitBuilder::new(3);
    b.subtree(tree.digest.duplicate());
    b.parents(vec![subito::digest::Digest::of(b"no such commit")]);
    let orphan = repo.store.put_commit(&b.into_commit().unwrap()).unwrap();
    repo.state.head = Some(orphan);
    assert_eq!(repo.log(LogArgs {}).unwrap_err(), Error::NotFound);
    // A tree is no commit.
    repo.state.head = Some(tree);
    assert_eq!(repo.log(LogArgs {}).unwrap_err(), Error::Io);
}
