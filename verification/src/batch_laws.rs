//! What holds of applying operations to trees: an operation decides what
//! lies at its path, and leaves alone what lies at paths that are neither
//! above nor below its own.

use vstd::prelude::*;
use crate::batch::OperationView;
use crate::batch::add_spec;
use crate::batch::apply_spec;
use crate::batch::graft;
use crate::batch::remove_spec;
use crate::batch::run_spec;
use crate::bytes::lemma_lex_total;
use crate::bytes::lex_lt;
use crate::hierarchy::TreeMap;
use crate::hierarchy::Walk;
use crate::hierarchy::tree_of;
use crate::hierarchy::walk;
use crate::hierarchy::walk_in;
use crate::object::ObjectKind;
use crate::object::ObjectRefView;
use crate::object::ref_wf;
use crate::path::is_prefix;
use crate::store::Objects;
use crate::store::extends;
use crate::store::lemma_extends_trans;
use crate::store::lemma_put_extends;
use crate::store::tree_ref;
use crate::tree::TreeEntryView;
use crate::tree::entries_map;
use crate::tree::has_name;
use crate::tree::index_of;
use crate::tree::lemma_insert_map;
use crate::tree::lemma_listing_of;
use crate::tree::lemma_map_at;
use crate::tree::lemma_remove_map;
use crate::tree::lemma_update_map;
use crate::tree::listing_of;
use crate::tree::valid_name;
use crate::wire::encode_tree;
use crate::wire::entries_fit;
use crate::wire::lemma_tree_round_trip;
use crate::wire::parse_bytes;
use crate::wire::parse_entries;
use crate::wire::parse_entry;

verus! {

/// A name that a tree can hold and that can be encoded.
pub open spec fn name_fits(n: Seq<u8>) -> bool {
    valid_name(n) && n.len() <= u64::MAX
}

/// A path whose components can all be names in a tree.
pub open spec fn path_fits(p: Seq<Seq<u8>>) -> bool {
    forall|i: int| 0 <= i < p.len() ==> name_fits(#[trigger] p[i])
}

/// A mapping that is the mapping of a tree: it has a sound listing that can
/// be encoded.
pub open spec fn tree_fits(t: TreeMap) -> bool {
    exists|es: Seq<TreeEntryView>| entries_fit(es) && #[trigger] entries_map(es) == t
}

/// Two paths of which neither leads to the other or to something above it.
pub open spec fn independent(p: Seq<Seq<u8>>, q: Seq<Seq<u8>>) -> bool {
    !is_prefix(p, q) && !is_prefix(q, p)
}

/// An operation whose path and reference can be entered into a tree.
pub open spec fn operation_fits(op: OperationView) -> bool {
    match op {
        OperationView::Add(p, r) => path_fits(p) && ref_wf(r),
        OperationView::Delete(p) => path_fits(p),
    }
}

/// The path of an operation.
pub open spec fn operation_path(op: OperationView) -> Seq<Seq<u8>> {
    match op {
        OperationView::Add(p, _) => p,
        OperationView::Delete(p) => p,
    }
}

/// What lies at the path of an operation once it has been applied.
pub open spec fn operation_leaves(op: OperationView) -> Walk {
    match op {
        OperationView::Add(_, r) => Walk::Found(r),
        OperationView::Delete(_) => Walk::Absent,
    }
}

/// The listing of a fitting mapping is a sound listing of that mapping.
pub proof fn lemma_fits_listing(t: TreeMap)
    requires
        tree_fits(t),
    ensures
        entries_fit(listing_of(t)),
        entries_map(listing_of(t)) == t,
{
    let es = choose|es: Seq<TreeEntryView>| entries_fit(es) && #[trigger] entries_map(es) == t;
    lemma_listing_of(es);
}

/// In a fitting mapping every name fits and every target has a digest of
/// the right width.
pub proof fn lemma_fits_entry(t: TreeMap, n: Seq<u8>)
    requires
        tree_fits(t),
        t.dom().contains(n),
    ensures
        name_fits(n),
        ref_wf(t[n]),
{
    lemma_fits_listing(t);
    let es = listing_of(t);
    assert(has_name(es, n));
    let i = index_of(es, n);
    lemma_map_at(es, i);
}

/// The empty mapping fits.
pub proof fn lemma_fits_empty()
    ensures
        tree_fits(Map::<Seq<u8>, ObjectRefView>::empty()),
{
    let es = Seq::<TreeEntryView>::empty();
    assert(entries_map(es) =~= Map::<Seq<u8>, ObjectRefView>::empty());
    assert(entries_fit(es));
}

/// The place of a name in a sorted listing: behind all names before it.
proof fn lemma_position(es: Seq<TreeEntryView>, n: Seq<u8>, from: int) -> (pos: int)
    requires
        0 <= from <= es.len(),
        forall|k: int| 0 <= k < from ==> lex_lt((#[trigger] es[k]).name, n),
    ensures
        from <= pos <= es.len(),
        forall|k: int| 0 <= k < pos ==> lex_lt((#[trigger] es[k]).name, n),
        pos < es.len() ==> !lex_lt(es[pos].name, n),
    decreases es.len() - from,
{
    if from == es.len() {
        from
    } else if lex_lt(es[from].name, n) {
        lemma_position(es, n, from + 1)
    } else {
        from
    }
}

/// Entering a fitting name with a sound target into a fitting mapping gives
/// a fitting mapping.
pub proof fn lemma_fits_insert(t: TreeMap, n: Seq<u8>, r: ObjectRefView)
    requires
        tree_fits(t),
        name_fits(n),
        ref_wf(r),
    ensures
        tree_fits(t.insert(n, r)),
{
    lemma_fits_listing(t);
    let es = listing_of(t);
    let pos = lemma_position(es, n, 0);
    let e = TreeEntryView { name: n, target: r };
    if pos < es.len() && es[pos].name == n {
        lemma_update_map(es, pos, r);
        let u = es.update(pos, e);
        assert(entries_fit(u)) by {
            assert forall|i: int| 0 <= i < u.len() implies valid_name(#[trigger] u[i].name)
                && ref_wf(u[i].target) && u[i].name.len() <= u64::MAX by {
                if i != pos {
                    assert(u[i] == es[i]);
                }
            }
        }
        assert(entries_map(u) == t.insert(n, r));
    } else {
        if pos < es.len() {
            lemma_lex_total(es[pos].name, n);
        }
        lemma_insert_map(es, pos, e);
        let u = es.insert(pos, e);
        assert(entries_fit(u)) by {
            assert forall|i: int| 0 <= i < u.len() implies valid_name(#[trigger] u[i].name)
                && ref_wf(u[i].target) && u[i].name.len() <= u64::MAX by {
                if i < pos {
                    assert(u[i] == es[i]);
                } else if i > pos {
                    assert(u[i] == es[i - 1]);
                }
            }
        }
        assert(entries_map(u) == t.insert(n, r));
    }
}

/// Removing a name from a fitting mapping gives a fitting mapping.
pub proof fn lemma_fits_remove(t: TreeMap, n: Seq<u8>)
    requires
        tree_fits(t),
    ensures
        tree_fits(t.remove(n)),
{
    lemma_fits_listing(t);
    let es = listing_of(t);
    if has_name(es, n) {
        let i = index_of(es, n);
        lemma_remove_map(es, i);
        let u = es.remove(i);
        assert(entries_fit(u)) by {
            assert forall|k: int| 0 <= k < u.len() implies valid_name(#[trigger] u[k].name)
                && ref_wf(u[k].target) && u[k].name.len() <= u64::MAX by {
                if k < i {
                    assert(u[k] == es[k]);
                } else {
                    assert(u[k] == es[k + 1]);
                }
            }
        }
        assert(entries_map(u) == t.remove(n));
    } else {
        assert(t.remove(n) =~= t);
    }
}

/// Names that were parsed have lengths that eight bytes can hold.
proof fn lemma_parsed_names_fit(b: Seq<u8>, pos: int)
    ensures
        parse_entries(b, pos) matches Some(es) ==> forall|i: int|
            0 <= i < es.len() ==> (#[trigger] es[i]).name.len() <= u64::MAX,
    decreases b.len() - pos,
{
    if pos < b.len() {
        if let Some((e, p)) = parse_entry(b, pos) {
            if p > pos {
                lemma_parsed_names_fit(b, p);
                if let Some(rest) = parse_entries(b, p) {
                    let es = seq![e] + rest;
                    assert forall|i: int| 0 <= i < es.len() implies (#[trigger] es[i]).name.len()
                        <= u64::MAX by {
                        if i > 0 {
                            assert(es[i] == rest[i - 1]);
                        } else {
                            assert(es[0] == e);
                            assert(parse_bytes(b, pos) is Some);
                        }
                    }
                }
            }
        }
    }
}

/// The mapping of a tree that the store gives fits.
pub proof fn lemma_loaded_fits(objs: Objects, digest: Seq<u8>)
    ensures
        tree_of(objs, digest) matches Ok(t) ==> tree_fits(t),
{
    if let Ok(t) = tree_of(objs, digest) {
        let b = objs[digest];
        lemma_parsed_names_fit(b, 1);
        let es = parse_entries(b, 1)->0;
        assert(entries_fit(es));
        assert(entries_map(es) == t);
    }
}

/// A changed subtree that has been grafted is what the store gives under
/// its new reference.
pub proof fn lemma_graft(objs: Objects, tree: TreeMap, name: Seq<u8>, child: TreeMap)
    requires
        tree_fits(child),
    ensures
        ref_wf(tree_ref(listing_of(child))),
        graft(objs, tree, name, child) matches Ok(a) ==> extends(a.objs, objs) && a.tree
            == tree.insert(name, tree_ref(listing_of(child))) && tree_of(
            a.objs,
            tree_ref(listing_of(child)).digest,
        ) == Ok::<TreeMap, crate::error::Error>(child),
{
    lemma_fits_listing(child);
    let listing = listing_of(child);
    lemma_tree_round_trip(listing);
    lemma_put_extends(objs, encode_tree(listing));
}

/// What a walk finds does not change when the store grows, as long as the
/// walk did not end at a tree that the store could not give.
pub proof fn lemma_walk_stable(before: Objects, after: Objects, at: ObjectRefView, path: Seq<Seq<u8>>)
    requires
        extends(after, before),
        !(walk(before, at, path) is Broken),
    ensures
        walk(after, at, path) == walk(before, at, path),
    decreases path.len(),
{
    if path.len() > 0 && at.kind == ObjectKind::Tree {
        match tree_of(before, at.digest) {
            Ok(t) => {
                assert(before.dom().contains(at.digest));
                assert(tree_of(after, at.digest) == tree_of(before, at.digest));
                if t.dom().contains(path[0]) {
                    lemma_walk_stable(before, after, t[path[0]], path.skip(1));
                }
            },
            Err(_) => {},
        }
    }
}

/// The same, for a walk from a tree that is at hand.
pub proof fn lemma_walk_in_stable(before: Objects, after: Objects, tree: TreeMap, path: Seq<Seq<u8>>)
    requires
        extends(after, before),
        !(walk_in(before, tree, path) is Broken),
    ensures
        walk_in(after, tree, path) == walk_in(before, tree, path),
{
    if tree.dom().contains(path[0]) {
        lemma_walk_stable(before, after, tree[path[0]], path.skip(1));
    }
}

/// A walk through a tree that the store gives under a reference is the walk
/// from that tree.
pub proof fn lemma_walk_through(objs: Objects, at: ObjectRefView, tree: TreeMap, path: Seq<Seq<u8>>)
    requires
        path.len() > 0,
        at.kind == ObjectKind::Tree,
        tree_of(objs, at.digest) == Ok::<TreeMap, crate::error::Error>(tree),
    ensures
        walk(objs, at, path) == walk_in(objs, tree, path),
{
}

/// Two independent paths that start alike both go on, and go on
/// independently.
pub proof fn lemma_independent_step(p: Seq<Seq<u8>>, q: Seq<Seq<u8>>)
    requires
        p.len() >= 1,
        q.len() >= 1,
        independent(p, q),
        p[0] == q[0],
    ensures
        p.len() > 1,
        q.len() > 1,
        independent(p.skip(1), q.skip(1)),
{
    if p.len() == 1 {
        assert(q.take(1) =~= p);
    }
    if q.len() == 1 {
        assert(p.take(1) =~= q);
    }
    let ps = p.skip(1);
    let qs = q.skip(1);
    if is_prefix(ps, qs) {
        assert(q.take(p.len() as int) =~= p) by {
            assert forall|i: int| 0 <= i < p.len() implies q.take(p.len() as int)[i] == p[i] by {
                if i > 0 {
                    assert(qs.take(ps.len() as int)[i - 1] == ps[i - 1]);
                }
            }
        }
    }
    if is_prefix(qs, ps) {
        assert(p.take(q.len() as int) =~= q) by {
            assert forall|i: int| 0 <= i < q.len() implies p.take(q.len() as int)[i] == q[i] by {
                if i > 0 {
                    assert(ps.take(qs.len() as int)[i - 1] == qs[i - 1]);
                }
            }
        }
    }
}

/// The rest of a fitting path fits.
pub proof fn lemma_path_rest_fits(p: Seq<Seq<u8>>)
    requires
        p.len() >= 1,
        path_fits(p),
    ensures
        path_fits(p.skip(1)),
        name_fits(p[0]),
{
    assert forall|i: int| 0 <= i < p.skip(1).len() implies name_fits(#[trigger] p.skip(1)[i]) by {
        assert(p.skip(1)[i] == p[i + 1]);
    }
}

/// The subtree that an addition goes on in: the one entered under the name,
/// or an empty one where nothing is entered.
pub open spec fn subtree_for(objs: Objects, tree: TreeMap, name: Seq<u8>) -> TreeMap {
    if tree.dom().contains(name) {
        tree_of(objs, tree[name].digest)->Ok_0
    } else {
        Map::empty()
    }
}

/// An addition that succeeds gives a fitting tree over a store that has
/// only grown, and what it added lies at its path.
pub proof fn lemma_add(objs: Objects, tree: TreeMap, path: Seq<Seq<u8>>, target: ObjectRefView)
    requires
        tree_fits(tree),
        path.len() >= 1,
        path_fits(path),
        ref_wf(target),
    ensures
        add_spec(objs, tree, path, target) matches Ok(a) ==> tree_fits(a.tree) && extends(
            a.objs,
            objs,
        ) && walk_in(a.objs, a.tree, path) == Walk::Found(target),
    decreases path.len(),
{
    let name = path[0];
    lemma_path_rest_fits(path);
    if let Ok(a) = add_spec(objs, tree, path, target) {
        let rest = path.skip(1);
        if path.len() <= 1 {
            lemma_fits_insert(tree, name, target);
            assert(rest.len() == 0);
        } else {
            let c = subtree_for(objs, tree, name);
            if tree.dom().contains(name) {
                lemma_loaded_fits(objs, tree[name].digest);
            } else {
                lemma_fits_empty();
            }
            lemma_add(objs, c, rest, target);
            let inner = add_spec(objs, c, rest, target)->Ok_0;
            lemma_graft(inner.objs, tree, name, inner.tree);
            let tref = tree_ref(listing_of(inner.tree));
            lemma_fits_insert(tree, name, tref);
            lemma_extends_trans(objs, inner.objs, a.objs);
            lemma_walk_in_stable(inner.objs, a.objs, inner.tree, rest);
            lemma_walk_through(a.objs, tref, inner.tree, rest);
        }
    }
}

/// An addition that succeeds leaves what lies at every path that is
/// independent of its own.
pub proof fn lemma_add_frame(
    objs: Objects,
    tree: TreeMap,
    path: Seq<Seq<u8>>,
    target: ObjectRefView,
    other: Seq<Seq<u8>>,
)
    requires
        tree_fits(tree),
        path.len() >= 1,
        path_fits(path),
        ref_wf(target),
        other.len() >= 1,
        independent(path, other),
        !(walk_in(objs, tree, other) is Broken),
    ensures
        add_spec(objs, tree, path, target) matches Ok(a) ==> walk_in(a.objs, a.tree, other)
            == walk_in(objs, tree, other),
    decreases path.len(),
{
    let name = path[0];
    lemma_path_rest_fits(path);
    if let Ok(a) = add_spec(objs, tree, path, target) {
        lemma_add(objs, tree, path, target);
        let rest = path.skip(1);
        if other[0] != name {
            if path.len() > 1 {
                let c = subtree_for(objs, tree, name);
                if tree.dom().contains(name) {
                    lemma_loaded_fits(objs, tree[name].digest);
                } else {
                    lemma_fits_empty();
                }
                lemma_add(objs, c, rest, target);
                let inner = add_spec(objs, c, rest, target)->Ok_0;
                lemma_graft(inner.objs, tree, name, inner.tree);
            }
            assert(a.tree.dom().contains(other[0]) == tree.dom().contains(other[0]));
            if tree.dom().contains(other[0]) {
                assert(a.tree[other[0]] == tree[other[0]]);
                lemma_walk_stable(objs, a.objs, tree[other[0]], other.skip(1));
            }
        } else {
            lemma_independent_step(path, other);
            let others = other.skip(1);
            let c = subtree_for(objs, tree, name);
            if tree.dom().contains(name) {
                lemma_loaded_fits(objs, tree[name].digest);
                lemma_walk_through(objs, tree[name], c, others);
            } else {
                lemma_fits_empty();
            }
            assert(walk_in(objs, c, others) == walk_in(objs, tree, other));
            lemma_add(objs, c, rest, target);
            lemma_add_frame(objs, c, rest, target, others);
            let inner = add_spec(objs, c, rest, target)->Ok_0;
            lemma_graft(inner.objs, tree, name, inner.tree);
            let tref = tree_ref(listing_of(inner.tree));
            lemma_walk_in_stable(inner.objs, a.objs, inner.tree, others);
            lemma_walk_through(a.objs, tref, inner.tree, others);
        }
    }
}

/// A removal of something that is there gives a fitting tree over a store
/// that has only grown, and nothing lies at its path any more.
pub proof fn lemma_remove(objs: Objects, tree: TreeMap, path: Seq<Seq<u8>>)
    requires
        tree_fits(tree),
        path.len() >= 1,
        walk_in(objs, tree, path) is Found,
    ensures
        remove_spec(objs, tree, path) matches Ok(a) ==> tree_fits(a.tree) && extends(a.objs, objs)
            && walk_in(a.objs, a.tree, path) == Walk::Absent,
    decreases path.len(),
{
    let name = path[0];
    if let Ok(a) = remove_spec(objs, tree, path) {
        let rest = path.skip(1);
        lemma_fits_remove(tree, name);
        if path.len() > 1 {
            assert(tree.dom().contains(name));
            lemma_fits_entry(tree, name);
            let c = tree_of(objs, tree[name].digest)->Ok_0;
            lemma_loaded_fits(objs, tree[name].digest);
            lemma_walk_through(objs, tree[name], c, rest);
            lemma_remove(objs, c, rest);
            let inner = remove_spec(objs, c, rest)->Ok_0;
            if inner.tree != Map::<Seq<u8>, ObjectRefView>::empty() {
                lemma_graft(inner.objs, tree, name, inner.tree);
                let tref = tree_ref(listing_of(inner.tree));
                lemma_fits_insert(tree, name, tref);
                lemma_extends_trans(objs, inner.objs, a.objs);
                lemma_walk_in_stable(inner.objs, a.objs, inner.tree, rest);
                lemma_walk_through(a.objs, tref, inner.tree, rest);
            }
        }
    }
}

/// A removal of something that is there leaves what lies at every path
/// that is independent of its own.
pub proof fn lemma_remove_frame(objs: Objects, tree: TreeMap, path: Seq<Seq<u8>>, other: Seq<Seq<u8>>)
    requires
        tree_fits(tree),
        path.len() >= 1,
        walk_in(objs, tree, path) is Found,
        other.len() >= 1,
        independent(path, other),
        !(walk_in(objs, tree, other) is Broken),
    ensures
        remove_spec(objs, tree, path) matches Ok(a) ==> walk_in(a.objs, a.tree, other) == walk_in(
            objs,
            tree,
            other,
        ),
    decreases path.len(),
{
    let name = path[0];
    if let Ok(a) = remove_spec(objs, tree, path) {
        lemma_remove(objs, tree, path);
        let rest = path.skip(1);
        if other[0] != name {
            if path.len() > 1 {
                let c = tree_of(objs, tree[name].digest)->Ok_0;
                lemma_loaded_fits(objs, tree[name].digest);
                lemma_walk_through(objs, tree[name], c, rest);
                lemma_remove(objs, c, rest);
                let inner = remove_spec(objs, c, rest)->Ok_0;
                if inner.tree != Map::<Seq<u8>, ObjectRefView>::empty() {
                    lemma_graft(inner.objs, tree, name, inner.tree);
                }
            }
            assert(a.tree.dom().contains(other[0]) == tree.dom().contains(other[0]));
            if tree.dom().contains(other[0]) {
                assert(a.tree[other[0]] == tree[other[0]]);
                lemma_walk_stable(objs, a.objs, tree[other[0]], other.skip(1));
            }
        } else {
            lemma_independent_step(path, other);
            let others = other.skip(1);
            let c = tree_of(objs, tree[name].digest)->Ok_0;
            lemma_loaded_fits(objs, tree[name].digest);
            lemma_walk_through(objs, tree[name], c, rest);
            lemma_walk_through(objs, tree[name], c, others);
            lemma_remove(objs, c, rest);
            lemma_remove_frame(objs, c, rest, others);
            let inner = remove_spec(objs, c, rest)->Ok_0;
            if inner.tree != Map::<Seq<u8>, ObjectRefView>::empty() {
                lemma_graft(inner.objs, tree, name, inner.tree);
                let tref = tree_ref(listing_of(inner.tree));
                lemma_walk_in_stable(inner.objs, a.objs, inner.tree, others);
                lemma_walk_through(a.objs, tref, inner.tree, others);
            }
        }
    }
}

/// An operation that succeeds gives a fitting tree over a store that has
/// only grown.
pub proof fn lemma_apply_fits(objs: Objects, tree: TreeMap, op: OperationView)
    requires
        tree_fits(tree),
        operation_fits(op),
    ensures
        apply_spec(objs, tree, op) matches Ok(a) ==> tree_fits(a.tree) && extends(a.objs, objs),
{
    match op {
        OperationView::Add(path, target) => {
            if path.len() == 0 {
                lemma_loaded_fits(objs, target.digest);
            } else {
                lemma_add(objs, tree, path, target);
            }
        },
        OperationView::Delete(path) => {
            if path.len() == 0 {
                lemma_fits_empty();
            } else if walk_in(objs, tree, path) is Found {
                lemma_remove(objs, tree, path);
            }
        },
    }
}

/// The last write wins, in one step: once an operation has been applied,
/// what it added lies at its path, or nothing does where it deleted.
pub proof fn lemma_apply_decides(objs: Objects, tree: TreeMap, op: OperationView)
    requires
        tree_fits(tree),
        operation_fits(op),
        operation_path(op).len() >= 1,
    ensures
        apply_spec(objs, tree, op) matches Ok(a) ==> walk_in(a.objs, a.tree, operation_path(op))
            == operation_leaves(op),
{
    match op {
        OperationView::Add(path, target) => {
            lemma_add(objs, tree, path, target);
        },
        OperationView::Delete(path) => {
            if walk_in(objs, tree, path) is Found {
                lemma_remove(objs, tree, path);
            }
        },
    }
}

/// An operation that succeeds leaves what lies at every path that is
/// independent of its own.
pub proof fn lemma_apply_frame(objs: Objects, tree: TreeMap, op: OperationView, other: Seq<Seq<u8>>)
    requires
        tree_fits(tree),
        operation_fits(op),
        other.len() >= 1,
        independent(operation_path(op), other),
        !(walk_in(objs, tree, other) is Broken),
    ensures
        apply_spec(objs, tree, op) matches Ok(a) ==> walk_in(a.objs, a.tree, other) == walk_in(
            objs,
            tree,
            other,
        ),
{
    match op {
        OperationView::Add(path, target) => {
            if path.len() == 0 {
                assert(other.take(0) =~= path);
            } else {
                lemma_add_frame(objs, tree, path, target, other);
            }
        },
        OperationView::Delete(path) => {
            if path.len() == 0 {
                assert(other.take(0) =~= path);
            } else if walk_in(objs, tree, path) is Found {
                lemma_remove_frame(objs, tree, path, other);
            }
        },
    }
}

/// A delete of a path at which nothing lies changes nothing.
pub proof fn lemma_delete_absent(objs: Objects, tree: TreeMap, path: Seq<Seq<u8>>)
    requires
        path.len() >= 1,
        walk_in(objs, tree, path) is Absent,
    ensures
        apply_spec(objs, tree, OperationView::Delete(path)) == Ok::<
            crate::batch::Applied,
            crate::error::Error,
        >(crate::batch::Applied { objs, tree }),
{
}

/// A run that succeeds gives a fitting tree over a store that has only
/// grown.
pub proof fn lemma_run_fits(objs: Objects, tree: TreeMap, ops: Seq<OperationView>)
    requires
        tree_fits(tree),
        forall|i: int| 0 <= i < ops.len() ==> operation_fits(#[trigger] ops[i]),
    ensures
        run_spec(objs, tree, ops) matches Ok(a) ==> tree_fits(a.tree) && extends(a.objs, objs),
    decreases ops.len(),
{
    if ops.len() > 0 {
        lemma_apply_fits(objs, tree, ops[0]);
        if let Ok(a) = apply_spec(objs, tree, ops[0]) {
            let rest = ops.skip(1);
            assert forall|i: int| 0 <= i < rest.len() implies operation_fits(#[trigger] rest[i]) by {
                assert(rest[i] == ops[i + 1]);
            }
            lemma_run_fits(a.objs, a.tree, rest);
            if let Ok(b) = run_spec(a.objs, a.tree, rest) {
                lemma_extends_trans(objs, a.objs, b.objs);
            }
        }
    }
}

/// A run that succeeds leaves what lies at a path that is independent of
/// the paths of all its operations.
pub proof fn lemma_run_frame(objs: Objects, tree: TreeMap, ops: Seq<OperationView>, other: Seq<Seq<u8>>)
    requires
        tree_fits(tree),
        forall|i: int| 0 <= i < ops.len() ==> operation_fits(#[trigger] ops[i]),
        other.len() >= 1,
        forall|i: int| 0 <= i < ops.len() ==> independent(operation_path(#[trigger] ops[i]), other),
        !(walk_in(objs, tree, other) is Broken),
    ensures
        run_spec(objs, tree, ops) matches Ok(a) ==> walk_in(a.objs, a.tree, other) == walk_in(
            objs,
            tree,
            other,
        ),
    decreases ops.len(),
{
    if ops.len() > 0 {
        lemma_apply_fits(objs, tree, ops[0]);
        lemma_apply_frame(objs, tree, ops[0], other);
        if let Ok(a) = apply_spec(objs, tree, ops[0]) {
            let rest = ops.skip(1);
            assert forall|i: int| 0 <= i < rest.len() implies operation_fits(#[trigger] rest[i])
                && independent(operation_path(rest[i]), other) by {
                assert(rest[i] == ops[i + 1]);
            }
            lemma_run_frame(a.objs, a.tree, rest, other);
        }
    }
}

/// The last write wins: when a batch has run, what lies at the path of an
/// operation is what that operation left there, provided that no later
/// operation of the batch has a path that leads to it, to something above it
/// or to something below it. A deletion counts as absence.
pub proof fn lemma_last_write_wins(objs: Objects, tree: TreeMap, ops: Seq<OperationView>, k: int)
    requires
        tree_fits(tree),
        forall|i: int| 0 <= i < ops.len() ==> operation_fits(#[trigger] ops[i]),
        0 <= k < ops.len(),
        operation_path(ops[k]).len() >= 1,
        forall|j: int|
            k < j < ops.len() ==> independent(
                operation_path(#[trigger] ops[j]),
                operation_path(ops[k]),
            ),
    ensures
        run_spec(objs, tree, ops) matches Ok(a) ==> walk_in(a.objs, a.tree, operation_path(ops[k]))
            == operation_leaves(ops[k]),
    decreases ops.len(),
{
    lemma_apply_fits(objs, tree, ops[0]);
    if let Ok(a) = apply_spec(objs, tree, ops[0]) {
        let rest = ops.skip(1);
        assert forall|i: int| 0 <= i < rest.len() implies operation_fits(#[trigger] rest[i]) by {
            assert(rest[i] == ops[i + 1]);
        }
        if k == 0 {
            lemma_apply_decides(objs, tree, ops[0]);
            assert forall|i: int| 0 <= i < rest.len() implies independent(
                operation_path(#[trigger] rest[i]),
                operation_path(ops[0]),
            ) by {
                assert(rest[i] == ops[i + 1]);
            }
            lemma_run_frame(a.objs, a.tree, rest, operation_path(ops[0]));
        } else {
            assert(rest[k - 1] == ops[k]);
            assert forall|j: int| k - 1 < j < rest.len() implies independent(
                operation_path(#[trigger] rest[j]),
                operation_path(rest[k - 1]),
            ) by {
                assert(rest[j] == ops[j + 1]);
            }
            lemma_last_write_wins(a.objs, a.tree, rest, k - 1);
        }
    }
}

} // verus!
