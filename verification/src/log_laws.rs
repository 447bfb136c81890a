//! What holds of the log: it shows the commits that can be reached from the
//! head, and no others; and it shows each of them once, unless the head is
//! its own ancestor.

use vstd::prelude::*;
use vstd::multiset::Multiset;
use vstd::seq_lib::to_multiset_build;
use vstd::seq_lib::to_multiset_contains;
use crate::error::Error;
use crate::log::Frontier;
use crate::log::Traversal;
use crate::log::log_ends;
use crate::log::log_run;
use crate::log::log_start;
use crate::log::log_step;
use crate::log::push_parents;
use crate::store::Objects;
use crate::store::load_commit;

verus! {

/// Whether the commit under `c` lists `p` as a parent.
pub open spec fn parent_of(objs: Objects, c: Seq<u8>, p: Seq<u8>) -> bool {
    load_commit(objs, c) matches Ok(commit) && commit.parents.contains(p)
}

/// Whether each commit of the chain lists the next one as a parent.
pub open spec fn is_chain(objs: Objects, chain: Seq<Seq<u8>>) -> bool {
    forall|i: int| 0 <= i < chain.len() - 1 ==> parent_of(objs, #[trigger] chain[i], chain[i + 1])
}

/// Whether a chain of parents leads from `head` to `c`. The head can be
/// reached from itself.
pub open spec fn reachable(objs: Objects, head: Seq<u8>, c: Seq<u8>) -> bool {
    exists|chain: Seq<Seq<u8>>|
        chain.len() >= 1 && chain[0] == head && chain.last() == c && #[trigger] is_chain(
            objs,
            chain,
        )
}

/// The head can be reached from itself.
pub proof fn lemma_reach_head(objs: Objects, head: Seq<u8>)
    ensures
        reachable(objs, head, head),
{
    let chain = seq![head];
    assert(is_chain(objs, chain));
    assert(chain[0] == head && chain.last() == head);
}

/// A parent of a commit that can be reached can be reached.
pub proof fn lemma_reach_parent(objs: Objects, head: Seq<u8>, c: Seq<u8>, p: Seq<u8>)
    requires
        reachable(objs, head, c),
        parent_of(objs, c, p),
    ensures
        reachable(objs, head, p),
{
    let chain = choose|chain: Seq<Seq<u8>>|
        chain.len() >= 1 && chain[0] == head && chain.last() == c && #[trigger] is_chain(
            objs,
            chain,
        );
    let longer = chain.push(p);
    assert forall|i: int| 0 <= i < longer.len() - 1 implies parent_of(
        objs,
        #[trigger] longer[i],
        longer[i + 1],
    ) by {
        if i < chain.len() - 1 {
            assert(longer[i] == chain[i] && longer[i + 1] == chain[i + 1]);
        } else {
            assert(longer[i] == c && longer[i + 1] == p);
        }
    }
    assert(is_chain(objs, longer));
    assert(longer[0] == head && longer.last() == p);
}

/// What meeting parents does: the same commits are added to the stack and
/// to the visited list, none twice; all the parents are visited afterwards;
/// and nothing is added that is no parent.
pub proof fn lemma_push_parents(f: Frontier, parents: Seq<Seq<u8>>, j: int)
    requires
        0 <= j,
    ensures
        ({
            let g = push_parents(f, parents, j);
            &&& g.stack.to_multiset().add(f.visited.to_multiset()) =~= f.stack.to_multiset().add(
                g.visited.to_multiset(),
            )
            &&& f.visited.no_duplicates() ==> g.visited.no_duplicates()
            &&& forall|x: Seq<u8>| f.visited.contains(x) ==> g.visited.contains(x)
            &&& forall|x: Seq<u8>| f.stack.contains(x) ==> g.stack.contains(x)
            &&& forall|i: int| j <= i < parents.len() ==> g.visited.contains(#[trigger] parents[i])
            &&& forall|x: Seq<u8>|
                g.visited.contains(x) ==> f.visited.contains(x) || parents.contains(x)
            &&& forall|x: Seq<u8>| g.stack.contains(x) ==> f.stack.contains(x) || parents.contains(x)
        }),
    decreases parents.len() - j,
{
    broadcast use vstd::multiset::group_multiset_axioms;

    if j < parents.len() {
        let p = parents[j];
        if f.visited.contains(p) {
            lemma_push_parents(f, parents, j + 1);
            let g = push_parents(f, parents, j);
            assert(g == push_parents(f, parents, j + 1));
            assert forall|i: int| j <= i < parents.len() implies g.visited.contains(
                #[trigger] parents[i],
            ) by {
                if i == j {
                    assert(f.visited.contains(p));
                }
            }
        } else {
            let h = Frontier { stack: f.stack.push(p), visited: f.visited.push(p) };
            lemma_push_parents(h, parents, j + 1);
            let g = push_parents(h, parents, j + 1);
            to_multiset_build(f.stack, p);
            to_multiset_build(f.visited, p);
            assert(h.visited.no_duplicates() <== f.visited.no_duplicates()) by {
                if f.visited.no_duplicates() {
                    assert forall|a: int, b: int|
                        0 <= a < h.visited.len() && 0 <= b < h.visited.len() && a
                            != b implies h.visited[a] != h.visited[b] by {
                        if a < f.visited.len() && b < f.visited.len() {
                        } else if a < f.visited.len() {
                            assert(f.visited[a] != p);
                        } else {
                            assert(f.visited[b] != p);
                        }
                    }
                }
            }
            assert forall|x: Seq<u8>| f.visited.contains(x) implies h.visited.contains(x) by {
                let i = choose|i: int| 0 <= i < f.visited.len() && f.visited[i] == x;
                assert(h.visited[i] == x);
            }
            assert forall|x: Seq<u8>| f.stack.contains(x) implies h.stack.contains(x) by {
                let i = choose|i: int| 0 <= i < f.stack.len() && f.stack[i] == x;
                assert(h.stack[i] == x);
            }
            assert(h.visited[f.visited.len() as int] == p);
            assert(h.visited.contains(p));
            assert forall|x: Seq<u8>| h.visited.contains(x) implies f.visited.contains(x) || x
                == p by {
                let i = choose|i: int| 0 <= i < h.visited.len() && h.visited[i] == x;
                if i < f.visited.len() {
                    assert(f.visited[i] == x);
                }
            }
            assert forall|x: Seq<u8>| h.stack.contains(x) implies f.stack.contains(x) || x == p by {
                let i = choose|i: int| 0 <= i < h.stack.len() && h.stack[i] == x;
                if i < f.stack.len() {
                    assert(f.stack[i] == x);
                }
            }
            assert(parents.contains(p));
            assert(g == push_parents(f, parents, j));
            let ms = f.stack.to_multiset();
            let mv = f.visited.to_multiset();
            assert(h.stack.to_multiset() == ms.insert(p));
            assert(h.visited.to_multiset() == mv.insert(p));
            assert(g.stack.to_multiset().add(mv.insert(p)) == ms.insert(p).add(
                g.visited.to_multiset(),
            ));
            assert forall|x: Seq<u8>|
                g.stack.to_multiset().add(mv).count(x) == ms.add(g.visited.to_multiset()).count(
                    x,
                ) by {
                assert(g.stack.to_multiset().add(mv.insert(p)).count(x) == ms.insert(p).add(
                    g.visited.to_multiset(),
                ).count(x));
            }
            assert(g.stack.to_multiset().add(mv) =~= ms.add(g.visited.to_multiset()));
            assert forall|i: int| j <= i < parents.len() implies g.visited.contains(
                #[trigger] parents[i],
            ) by {
                if i == j {
                    assert(h.visited.contains(p));
                }
            }
            assert forall|x: Seq<u8>| g.visited.contains(x) implies f.visited.contains(x)
                || parents.contains(x) by {
                if h.visited.contains(x) {
                }
            }
            assert forall|x: Seq<u8>| g.stack.contains(x) implies f.stack.contains(x)
                || parents.contains(x) by {
                if h.stack.contains(x) {
                }
            }
        }
    } else {
        let g = push_parents(f, parents, j);
        assert(g == f);
    }
}

/// What holds of a walk from `head` at every step.
pub open spec fn walk_inv(objs: Objects, head: Seq<u8>, t: Traversal) -> bool {
    &&& t.shown.to_multiset().add(t.stack.to_multiset()) =~= t.visited.to_multiset().insert(head)
    &&& t.visited.no_duplicates()
    &&& forall|x: Seq<u8>| t.stack.contains(x) ==> reachable(objs, head, x)
    &&& forall|x: Seq<u8>| t.shown.contains(x) ==> reachable(objs, head, x)
    &&& forall|s: Seq<u8>, p: Seq<u8>|
        t.shown.contains(s) && parent_of(objs, s, p) ==> t.visited.contains(p)
    &&& forall|v: Seq<u8>|
        t.visited.contains(v) ==> exists|s: Seq<u8>|
            t.shown.contains(s) && #[trigger] parent_of(objs, s, v)
}

/// What holds at every step holds before the first.
pub proof fn lemma_inv_start(objs: Objects, head: Seq<u8>)
    ensures
        walk_inv(objs, head, log_start(head)),
{
    broadcast use vstd::multiset::group_multiset_axioms;

    let t = log_start(head);
    to_multiset_build(Seq::<Seq<u8>>::empty(), head);
    assert(Seq::<Seq<u8>>::empty().push(head) =~= t.stack);
    assert(t.shown.to_multiset() =~= Multiset::<Seq<u8>>::empty()) by {
        t.shown.to_multiset_ensures();
    }
    assert(t.visited.to_multiset() =~= Multiset::<Seq<u8>>::empty()) by {
        t.visited.to_multiset_ensures();
    }
    lemma_reach_head(objs, head);
    assert forall|x: Seq<u8>| t.stack.contains(x) implies reachable(objs, head, x) by {
        let i = choose|i: int| 0 <= i < t.stack.len() && t.stack[i] == x;
        assert(x == head);
    }
}

/// What holds at every step is kept by a step.
pub proof fn lemma_inv_step(objs: Objects, head: Seq<u8>, t: Traversal)
    requires
        walk_inv(objs, head, t),
    ensures
        log_step(objs, t) matches Ok(u) ==> walk_inv(objs, head, u),
{
    broadcast use vstd::multiset::group_multiset_axioms;

    if t.stack.len() > 0 {
        if let Ok(u) = log_step(objs, t) {
            let top = t.stack.last();
            let rest = t.stack.drop_last();
            let c = load_commit(objs, top)->Ok_0;
            let f = Frontier { stack: rest, visited: t.visited };
            let g = push_parents(f, c.parents, 0);
            lemma_push_parents(f, c.parents, 0);
            assert(rest.push(top) =~= t.stack);
            to_multiset_build(rest, top);
            to_multiset_build(t.shown, top);
            let ms = t.shown.to_multiset();
            let mr = rest.to_multiset();
            let mv = t.visited.to_multiset();
            assert(t.stack.to_multiset() == mr.insert(top));
            assert(u.shown.to_multiset() == ms.insert(top));
            assert(ms.add(mr.insert(top)) == mv.insert(head));
            assert(g.stack.to_multiset().add(mv) == mr.add(g.visited.to_multiset()));
            assert forall|x: Seq<u8>|
                u.shown.to_multiset().add(u.stack.to_multiset()).count(x)
                    == u.visited.to_multiset().insert(head).count(x) by {
                assert(ms.add(mr.insert(top)).count(x) == mv.insert(head).count(x));
                assert(g.stack.to_multiset().add(mv).count(x) == mr.add(
                    g.visited.to_multiset(),
                ).count(x));
            }
            assert(u.shown.to_multiset().add(u.stack.to_multiset()) =~= u.visited.to_multiset().insert(
                head,
            ));
            assert(u.visited.no_duplicates());
            assert(t.stack[t.stack.len() - 1] == top);
            assert(t.stack.contains(top));
            assert(reachable(objs, head, top));
            assert forall|x: Seq<u8>| rest.contains(x) implies t.stack.contains(x) by {
                let i = choose|i: int| 0 <= i < rest.len() && rest[i] == x;
                assert(t.stack[i] == x);
            }
            assert forall|x: Seq<u8>| u.shown.contains(x) implies t.shown.contains(x) || x
                == top by {
                let i = choose|i: int| 0 <= i < u.shown.len() && u.shown[i] == x;
                if i < t.shown.len() {
                    assert(t.shown[i] == x);
                }
            }
            assert forall|x: Seq<u8>| t.shown.contains(x) implies u.shown.contains(x) by {
                let i = choose|i: int| 0 <= i < t.shown.len() && t.shown[i] == x;
                assert(u.shown[i] == x);
            }
            assert(u.shown[t.shown.len() as int] == top);
            assert(u.shown.contains(top));
            assert forall|x: Seq<u8>| u.stack.contains(x) implies reachable(objs, head, x) by {
                assert(g.stack.contains(x));
                if !rest.contains(x) {
                    assert(c.parents.contains(x));
                    assert(parent_of(objs, top, x));
                    lemma_reach_parent(objs, head, top, x);
                } else {
                    assert(t.stack.contains(x));
                }
            }
            assert forall|x: Seq<u8>| u.shown.contains(x) implies reachable(objs, head, x) by {
                if x != top {
                    assert(t.shown.contains(x));
                }
            }
            assert forall|s: Seq<u8>, p: Seq<u8>|
                u.shown.contains(s) && parent_of(objs, s, p) implies u.visited.contains(p) by {
                if s == top {
                    let i = choose|i: int| 0 <= i < c.parents.len() && c.parents[i] == p;
                    assert(g.visited.contains(c.parents[i]));
                } else {
                    assert(t.shown.contains(s));
                    assert(t.visited.contains(p));
                    assert(g.visited.contains(p));
                }
            }
            assert forall|v: Seq<u8>| u.visited.contains(v) implies exists|s: Seq<u8>|
                u.shown.contains(s) && #[trigger] parent_of(objs, s, v) by {
                assert(g.visited.contains(v));
                if t.visited.contains(v) {
                    let s = choose|s: Seq<u8>| t.shown.contains(s) && #[trigger] parent_of(objs, s, v);
                    assert(u.shown.contains(s) && parent_of(objs, s, v));
                } else {
                    assert(c.parents.contains(v));
                    assert(u.shown.contains(top) && parent_of(objs, top, v));
                }
            }
        }
    }
}

/// What holds at every step holds after any number of steps.
pub proof fn lemma_inv_run(objs: Objects, head: Seq<u8>, n: nat)
    ensures
        log_run(objs, log_start(head), n) matches Ok(t) ==> walk_inv(objs, head, t),
    decreases n,
{
    if n == 0 {
        lemma_inv_start(objs, head);
    } else {
        lemma_inv_run(objs, head, (n - 1) as nat);
        if let Ok(u) = log_run(objs, log_start(head), (n - 1) as nat) {
            lemma_inv_step(objs, head, u);
        }
    }
}

/// Every commit of a chain from the head is shown once the walk has ended.
proof fn lemma_chain_shown(objs: Objects, head: Seq<u8>, t: Traversal, chain: Seq<Seq<u8>>, k: int)
    requires
        walk_inv(objs, head, t),
        t.stack.len() == 0,
        chain.len() >= 1,
        chain[0] == head,
        is_chain(objs, chain),
        0 <= k < chain.len(),
    ensures
        t.shown.contains(chain[k]),
    decreases k,
{
    broadcast use vstd::multiset::group_multiset_axioms;

    assert(t.stack.to_multiset() =~= Multiset::<Seq<u8>>::empty()) by {
        t.stack.to_multiset_ensures();
    }
    let x = if k == 0 {
        head
    } else {
        chain[k]
    };
    if k > 0 {
        lemma_chain_shown(objs, head, t, chain, k - 1);
        assert(parent_of(objs, chain[k - 1], chain[k]));
        assert(t.visited.contains(x));
        to_multiset_contains(t.visited, x);
    }
    let lhs = t.shown.to_multiset().add(t.stack.to_multiset());
    let rhs = t.visited.to_multiset().insert(head);
    assert(lhs == rhs);
    assert(rhs.count(x) > 0);
    assert(lhs.count(x) == t.shown.to_multiset().count(x) + t.stack.to_multiset().count(x));
    assert(t.shown.to_multiset().count(x) > 0);
    to_multiset_contains(t.shown, x);
}

/// The log shows exactly the commits that can be reached from the head.
pub proof fn lemma_log_shows_reachable(objs: Objects, head: Seq<u8>, n: nat, shown: Seq<Seq<u8>>)
    requires
        log_ends(objs, head, n, shown),
    ensures
        forall|c: Seq<u8>| reachable(objs, head, c) <==> shown.contains(c),
{
    lemma_inv_run(objs, head, n);
    let t = log_run(objs, log_start(head), n)->Ok_0;
    assert forall|c: Seq<u8>| reachable(objs, head, c) implies shown.contains(c) by {
        let chain = choose|chain: Seq<Seq<u8>>|
            chain.len() >= 1 && chain[0] == head && chain.last() == c && #[trigger] is_chain(
                objs,
                chain,
            );
        lemma_chain_shown(objs, head, t, chain, chain.len() - 1);
    }
}

/// The log shows no commit twice, provided that the head is not its own
/// ancestor: that no commit that can be reached lists the head as a parent.
pub proof fn lemma_log_shows_once(objs: Objects, head: Seq<u8>, n: nat, shown: Seq<Seq<u8>>)
    requires
        log_ends(objs, head, n, shown),
        forall|c: Seq<u8>| reachable(objs, head, c) ==> !parent_of(objs, c, head),
    ensures
        shown.no_duplicates(),
{
    broadcast use vstd::multiset::group_multiset_axioms;

    lemma_inv_run(objs, head, n);
    let t = log_run(objs, log_start(head), n)->Ok_0;
    assert(!t.visited.contains(head)) by {
        if t.visited.contains(head) {
            let s = choose|s: Seq<u8>| t.shown.contains(s) && #[trigger] parent_of(objs, s, head);
            assert(reachable(objs, head, s));
        }
    }
    to_multiset_contains(t.visited, head);
    t.visited.lemma_multiset_has_no_duplicates();
    assert(t.stack.to_multiset() =~= Multiset::<Seq<u8>>::empty()) by {
        t.stack.to_multiset_ensures();
    }
    assert forall|x: Seq<u8>| shown.to_multiset().contains(x) implies shown.to_multiset().count(x)
        == 1 by {
        assert(shown.to_multiset().count(x) == t.visited.to_multiset().insert(head).count(x));
        if x != head {
            assert(t.visited.to_multiset().contains(x));
        }
    }
    shown.lemma_multiset_has_no_duplicates_conv();
}

/// Once the walk has ended, further steps change nothing: the log is the
/// same whatever the number of steps after which it is read.
pub proof fn lemma_log_ends_once(objs: Objects, head: Seq<u8>, n: nat, m: nat, shown: Seq<Seq<u8>>)
    requires
        log_ends(objs, head, n, shown),
        n <= m,
    ensures
        log_ends(objs, head, m, shown),
    decreases m - n,
{
    if n < m {
        lemma_log_ends_once(objs, head, n, (m - 1) as nat, shown);
    }
}

/// The log of a repository is one: two walks that have ended have shown the
/// same commits in the same order.
pub proof fn lemma_log_unique(
    objs: Objects,
    head: Seq<u8>,
    n: nat,
    m: nat,
    first: Seq<Seq<u8>>,
    second: Seq<Seq<u8>>,
)
    requires
        log_ends(objs, head, n, first),
        log_ends(objs, head, m, second),
    ensures
        first == second,
{
    if n <= m {
        lemma_log_ends_once(objs, head, n, m, first);
    } else {
        lemma_log_ends_once(objs, head, m, n, second);
    }
}

/// A walk that has ended has not failed: a log and an error exclude each
/// other.
pub proof fn lemma_log_ends_or_fails(
    objs: Objects,
    head: Seq<u8>,
    n: nat,
    m: nat,
    shown: Seq<Seq<u8>>,
    e: Error,
)
    requires
        log_ends(objs, head, n, shown),
    ensures
        !crate::log::log_fails(objs, head, m, e),
    decreases m,
{
    if n <= m {
        lemma_log_ends_once(objs, head, n, m, shown);
    } else {
        if crate::log::log_fails(objs, head, m, e) {
            lemma_fails_stays(objs, head, m, n, e);
        }
    }
}

/// A walk that has failed stays failed.
proof fn lemma_fails_stays(objs: Objects, head: Seq<u8>, m: nat, n: nat, e: Error)
    requires
        crate::log::log_fails(objs, head, m, e),
        m <= n,
    ensures
        crate::log::log_fails(objs, head, n, e),
    decreases n - m,
{
    if m < n {
        lemma_fails_stays(objs, head, m, (n - 1) as nat, e);
    }
}

} // verus!
