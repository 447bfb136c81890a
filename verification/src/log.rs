//! The log: a walk over the parent graph, from the head.
//!
//! The walk is depth-first. It keeps a stack of commits still to be shown and
//! a list of commits already met as somebody's parent. The commit on top of
//! the stack is shown, and those of its parents that were not met before are
//! put on the stack in the order in which the commit lists them. The order of
//! the log is thus fixed by the graph; it is not the order of the
//! timestamps.

use vstd::prelude::*;
use crate::digest::Digest;
use crate::digest::hex_lower;
use crate::error::Error;
use crate::object::CommitAuthor;
use crate::object::CommitAuthorView;
use crate::object::CommitView;
use crate::object::author_view;
use crate::object::digests_view;
use crate::object::text_copy;
use crate::object::text_view;
use crate::repository::Repository;
use crate::store::Objects;
use crate::store::load_commit;

verus! {

/// Show commit history.
#[derive(Debug)]
pub struct LogArgs {}

/// One line of the log: a commit with every reference written as the
/// hexadecimal text of its digest.
#[derive(Debug)]
pub struct LogEntry {
    pub digest: String,
    pub subtree: String,
    pub parents: Vec<String>,
    pub author: Option<CommitAuthor>,
    pub timestamp: u64,
    pub message: Option<String>,
}

/// The mathematical value of a [`LogEntry`].
pub struct LogEntryView {
    pub digest: Seq<char>,
    pub subtree: Seq<char>,
    pub parents: Seq<Seq<char>>,
    pub author: Option<CommitAuthorView>,
    pub timestamp: u64,
    pub message: Option<Seq<char>>,
}

/// The texts of a list of strings.
pub open spec fn texts_view(v: Seq<String>) -> Seq<Seq<char>> {
    v.map_values(|s: String| s@)
}

impl View for LogEntry {
    type V = LogEntryView;

    open spec fn view(&self) -> LogEntryView {
        LogEntryView {
            digest: self.digest@,
            subtree: self.subtree@,
            parents: texts_view(self.parents@),
            author: author_view(self.author),
            timestamp: self.timestamp,
            message: text_view(self.message),
        }
    }
}

/// The log.
#[derive(Debug)]
pub struct LogOut {
    pub entries: Vec<LogEntry>,
}

/// The views of a list of entries.
pub open spec fn entries_view(v: Seq<LogEntry>) -> Seq<LogEntryView> {
    v.map_values(|e: LogEntry| e@)
}

/// The line of the log for the commit under `digest`.
pub open spec fn log_entry(digest: Seq<u8>, c: CommitView) -> LogEntryView {
    LogEntryView {
        digest: hex_lower(digest),
        subtree: hex_lower(c.subtree),
        parents: c.parents.map_values(|p: Seq<u8>| hex_lower(p)),
        author: c.author,
        timestamp: c.timestamp,
        message: c.message,
    }
}

/// The lines of the log for the commits under `shown`, in order.
pub open spec fn log_entries(objs: Objects, shown: Seq<Seq<u8>>) -> Seq<LogEntryView> {
    shown.map_values(|d: Seq<u8>| log_entry(d, load_commit(objs, d)->Ok_0))
}

/// A walk in progress.
pub struct Traversal {
    /// The commits still to be shown; the last one is next.
    pub stack: Seq<Seq<u8>>,
    /// The commits met as somebody's parent.
    pub visited: Seq<Seq<u8>>,
    /// The commits shown, in order.
    pub shown: Seq<Seq<u8>>,
}

/// The walk before its first step.
pub open spec fn log_start(head: Seq<u8>) -> Traversal {
    Traversal { stack: seq![head], visited: Seq::empty(), shown: Seq::empty() }
}

/// A stack and a list of visited commits.
pub struct Frontier {
    pub stack: Seq<Seq<u8>>,
    pub visited: Seq<Seq<u8>>,
}

/// Meeting the parents from position `j` on: each one that was not met
/// before is marked as met and put on the stack.
pub open spec fn push_parents(f: Frontier, parents: Seq<Seq<u8>>, j: int) -> Frontier
    decreases parents.len() - j,
{
    if j < 0 || j >= parents.len() {
        f
    } else if f.visited.contains(parents[j]) {
        push_parents(f, parents, j + 1)
    } else {
        push_parents(
            Frontier { stack: f.stack.push(parents[j]), visited: f.visited.push(parents[j]) },
            parents,
            j + 1,
        )
    }
}

/// One step of the walk: the commit on top of the stack is fetched and
/// shown, and its parents are met. A walk with an empty stack stays as it
/// is.
pub open spec fn log_step(objs: Objects, t: Traversal) -> Result<Traversal, Error> {
    if t.stack.len() == 0 {
        Ok(t)
    } else {
        let top = t.stack.last();
        match load_commit(objs, top) {
            Err(e) => Err(e),
            Ok(c) => {
                let f = push_parents(
                    Frontier { stack: t.stack.drop_last(), visited: t.visited },
                    c.parents,
                    0,
                );
                Ok(Traversal { stack: f.stack, visited: f.visited, shown: t.shown.push(top) })
            },
        }
    }
}

/// `n` steps of the walk.
pub open spec fn log_run(objs: Objects, t: Traversal, n: nat) -> Result<Traversal, Error>
    decreases n,
{
    if n == 0 {
        Ok(t)
    } else {
        match log_run(objs, t, (n - 1) as nat) {
            Err(e) => Err(e),
            Ok(u) => log_step(objs, u),
        }
    }
}

/// Whether the walk from `head` ends after `n` steps with `shown` shown.
pub open spec fn log_ends(objs: Objects, head: Seq<u8>, n: nat, shown: Seq<Seq<u8>>) -> bool {
    log_run(objs, log_start(head), n) matches Ok(t) && t.stack.len() == 0 && t.shown == shown
}

/// Whether the walk from `head` fails at its `n`-th step with `e`.
pub open spec fn log_fails(objs: Objects, head: Seq<u8>, n: nat, e: Error) -> bool {
    log_run(objs, log_start(head), n) == Err::<Traversal, Error>(e)
}

/// How many of the keys have not been visited.
pub open spec fn unseen(keys: Seq<Seq<u8>>, visited: Seq<Seq<u8>>) -> nat
    decreases keys.len(),
{
    if keys.len() == 0 {
        0
    } else {
        unseen(keys.drop_last(), visited) + if visited.contains(keys.last()) {
            0nat
        } else {
            1nat
        }
    }
}

/// How many commits of the stack are among the keys.
pub open spec fn live(stack: Seq<Seq<u8>>, keys: Seq<Seq<u8>>) -> nat
    decreases stack.len(),
{
    if stack.len() == 0 {
        0
    } else {
        live(stack.drop_last(), keys) + if keys.contains(stack.last()) {
            1nat
        } else {
            0nat
        }
    }
}

/// Visiting a commit that is no key leaves the number of unseen keys; visiting
/// one that is a key and was not visited takes one off.
pub proof fn lemma_unseen_push(keys: Seq<Seq<u8>>, visited: Seq<Seq<u8>>, p: Seq<u8>)
    requires
        keys.no_duplicates(),
        !visited.contains(p),
    ensures
        unseen(keys, visited.push(p)) + (if keys.contains(p) {
            1nat
        } else {
            0nat
        }) == unseen(keys, visited),
    decreases keys.len(),
{
    let now = visited.push(p);
    assert forall|d: Seq<u8>| now.contains(d) <==> (visited.contains(d) || d == p) by {
        if now.contains(d) {
            let i = choose|i: int| 0 <= i < now.len() && now[i] == d;
            if i < visited.len() {
                assert(visited[i] == d);
            }
        }
        if visited.contains(d) {
            let i = choose|i: int| 0 <= i < visited.len() && visited[i] == d;
            assert(now[i] == d);
        }
        assert(now[visited.len() as int] == p);
    }
    if keys.len() > 0 {
        let front = keys.drop_last();
        assert forall|i: int, j: int| 0 <= i < front.len() && 0 <= j < front.len() && i != j implies front[i]
            != front[j] by {
            assert(front[i] == keys[i] && front[j] == keys[j]);
        }
        lemma_unseen_push(front, visited, p);
        if keys.last() == p {
            assert(!front.contains(p)) by {
                if front.contains(p) {
                    let i = choose|i: int| 0 <= i < front.len() && front[i] == p;
                    assert(keys[i] == p && keys[keys.len() - 1] == p);
                }
            }
            assert(keys.contains(p)) by {
                assert(keys[keys.len() - 1] == p);
            }
        } else {
            assert(keys.contains(p) <==> front.contains(p)) by {
                if keys.contains(p) {
                    let i = choose|i: int| 0 <= i < keys.len() && keys[i] == p;
                    assert(front[i] == p);
                }
                if front.contains(p) {
                    let i = choose|i: int| 0 <= i < front.len() && front[i] == p;
                    assert(keys[i] == p);
                }
            }
        }
    } else {
        assert(!keys.contains(p));
    }
}

/// Running one step more is stepping from where the run has come to.
pub proof fn lemma_log_run_step(objs: Objects, t: Traversal, n: nat)
    ensures
        log_run(objs, t, n + 1) == match log_run(objs, t, n) {
            Err(e) => Err(e),
            Ok(u) => log_step(objs, u),
        },
{
}

/// The hexadecimal texts of a list of digests.
fn hex_all(ds: &Vec<Digest>) -> (out: Vec<String>)
    ensures
        texts_view(out@) == digests_view(ds@).map_values(|p: Seq<u8>| hex_lower(p)),
{
    let mut out: Vec<String> = Vec::new();
    let mut i: usize = 0;
    while i < ds.len()
        invariant
            i <= ds@.len(),
            out@.len() == i,
            forall|k: int| 0 <= k < i ==> (#[trigger] out@[k])@ == hex_lower(ds@[k]@),
        decreases ds@.len() - i,
    {
        out.push(ds[i].to_hex());
        i = i + 1;
    }
    assert(texts_view(out@) =~= digests_view(ds@).map_values(|p: Seq<u8>| hex_lower(p)));
    out
}

/// Whether the list holds the digest.
fn holds(list: &Vec<Digest>, d: &Digest) -> (b: bool)
    ensures
        b == digests_view(list@).contains(d@),
{
    let mut i: usize = 0;
    while i < list.len()
        invariant
            i <= list@.len(),
            forall|k: int| 0 <= k < i ==> digests_view(list@)[k] != d@,
        decreases list@.len() - i,
    {
        if list[i].same(d) {
            assert(digests_view(list@)[i as int] == d@);
            return true;
        }
        i = i + 1;
    }
    false
}

impl Repository {
    /// The commits that can be reached from the head, each with its
    /// references written out in hexadecimal, in the order of the walk.
    ///
    /// A repository without head has an empty log. Else the result is what
    /// the walk from the head shows when its stack is empty, or the error
    /// of the first fetch that fails.
    pub fn log(&self, _args: LogArgs) -> (r: Result<LogOut, Error>)
        ensures
            match self@.state.head {
                None => r is Ok && r->Ok_0.entries@.len() == 0,
                Some(head) => match r {
                    Ok(out) => exists|n: nat, shown: Seq<Seq<u8>>|
                        #[trigger] log_ends(self@.objs, head.digest, n, shown) && entries_view(
                            out.entries@,
                        ) == log_entries(self@.objs, shown),
                    Err(e) => exists|n: nat| #[trigger] log_fails(self@.objs, head.digest, n, e),
                },
            },
    {
        let head = match &self.state.head {
            Some(head) => head.digest.duplicate(),
            None => {
                return Ok(LogOut { entries: Vec::new() });
            },
        };
        let ghost objs = self.store@;
        let ghost keys = self.store.keys();
        proof {
            use_type_invariant(&self.store);
            self.store.lemma_keys();
        }
        let mut visited: Vec<Digest> = Vec::new();
        let mut queue: Vec<Digest> = Vec::new();
        queue.push(head);
        let mut entries: Vec<LogEntry> = Vec::new();
        let ghost mut t = log_start(head@);
        let ghost mut n: nat = 0;
        proof {
            assert(digests_view(queue@) =~= t.stack);
            assert(digests_view(visited@) =~= t.visited);
            assert(entries_view(entries@) =~= log_entries(objs, t.shown));
        }
        while queue.len() > 0
            invariant
                objs == self.store@,
                objs == self@.objs,
                keys == self.store.keys(),
                keys.no_duplicates(),
                forall|d: Seq<u8>| objs.dom().contains(d) <==> keys.contains(d),
                self@.state.head is Some,
                head@ == self@.state.head->0.digest,
                log_run(objs, log_start(head@), n) == Ok::<Traversal, Error>(t),
                t.stack == digests_view(queue@),
                t.visited == digests_view(visited@),
                entries_view(entries@) == log_entries(objs, t.shown),
            decreases 2 * unseen(keys, t.visited) + live(t.stack, keys),
        {
            let ghost before = t;
            let commit_ref = match queue.pop() {
                Some(commit_ref) => commit_ref,
                None => {
                    return Ok(LogOut { entries });
                },
            };
            proof {
                lemma_log_run_step(objs, log_start(head@), n);
                assert(digests_view(queue@) =~= before.stack.drop_last());
                assert(commit_ref@ == before.stack.last());
            }
            let commit = match self.store.get_commit(&commit_ref) {
                Ok(commit) => commit,
                Err(e) => {
                    proof {
                        assert(log_fails(objs, head@, n + 1, e));
                    }
                    return Err(e);
                },
            };
            let parents = commit.as_parents();
            let ghost ps = commit@.parents;
            let ghost f0 = Frontier { stack: before.stack.drop_last(), visited: before.visited };
            let mut j: usize = 0;
            while j < parents.len()
                invariant
                    j <= parents@.len(),
                    ps == digests_view(parents@),
                    keys.no_duplicates(),
                    push_parents(f0, ps, 0) == push_parents(
                        Frontier { stack: digests_view(queue@), visited: digests_view(visited@) },
                        ps,
                        j as int,
                    ),
                    2 * unseen(keys, digests_view(visited@)) + live(digests_view(queue@), keys) + 1
                        <= 2 * unseen(keys, before.visited) + live(before.stack, keys),
                decreases parents@.len() - j,
            {
                let parent = &parents[j];
                assert(ps[j as int] == parent@);
                if !holds(&visited, parent) {
                    let ghost v = digests_view(visited@);
                    let ghost q = digests_view(queue@);
                    proof {
                        lemma_unseen_push(keys, v, parent@);
                        assert(q.push(parent@).drop_last() =~= q);
                    }
                    visited.push(parent.duplicate());
                    queue.push(parent.duplicate());
                    proof {
                        assert(digests_view(visited@) =~= v.push(parent@));
                        assert(digests_view(queue@) =~= q.push(parent@));
                    }
                }
                j = j + 1;
            }
            let entry = LogEntry {
                digest: commit_ref.to_hex(),
                subtree: commit.as_subtree().digest.to_hex(),
                parents: hex_all(parents),
                author: match commit.as_author() {
                    Some(a) => Some(a.duplicate()),
                    None => None,
                },
                timestamp: commit.as_timestamp(),
                message: text_copy(commit.as_message()),
            };
            proof {
                let f = push_parents(f0, ps, 0);
                t = Traversal { stack: f.stack, visited: f.visited, shown: before.shown.push(commit_ref@) };
                n = n + 1;
                assert(entry@ == log_entry(commit_ref@, commit@));
                let a = entries_view(entries@.push(entry));
                let b = log_entries(objs, t.shown);
                assert(entries_view(entries@).len() == entries@.len());
                assert(log_entries(objs, before.shown).len() == before.shown.len());
                assert(entries_view(entries@) == log_entries(objs, before.shown));
                assert(a.len() == b.len());
                assert forall|k: int| 0 <= k < a.len() implies a[k] == b[k] by {
                    if k < entries@.len() {
                        assert(a[k] == entries_view(entries@)[k]);
                        assert(t.shown[k] == before.shown[k]);
                        assert(b[k] == log_entries(objs, before.shown)[k]);
                    } else {
                        assert(t.shown[k] == commit_ref@);
                    }
                }
                assert(a =~= b);
            }
            entries.push(entry);
        }
        proof {
            assert(log_ends(objs, head@, n, t.shown));
        }
        Ok(LogOut { entries })
    }
}

} // verus!
