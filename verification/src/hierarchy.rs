//! Hierarchies: read-only views over a tree for lookups by path.

use vstd::prelude::*;
use crate::error::Error;
use crate::object::ObjectKind;
use crate::object::ObjectRef;
use crate::object::ObjectRefView;
use crate::path::ObjectPath;
use crate::store::Objects;
use crate::store::Store;
use crate::store::load_tree;
use crate::tree::Tree;
use crate::tree::entries_map;

verus! {

/// The mapping of a tree: from names to targets.
pub type TreeMap = Map<Seq<u8>, ObjectRefView>;

/// The mapping of the tree under a digest.
pub open spec fn tree_of(objs: Objects, digest: Seq<u8>) -> Result<TreeMap, Error> {
    match load_tree(objs, digest) {
        Ok(es) => Ok(entries_map(es)),
        Err(e) => Err(e),
    }
}

/// Where a walk along a path ends.
pub enum Walk {
    /// At an object.
    Found(ObjectRefView),
    /// Nowhere: a name is not entered, or the path goes on below something
    /// that is not a tree.
    Absent,
    /// At a tree that the store cannot give.
    Broken(Error),
}

/// The walk from an object down a path: each component is looked up in the
/// tree that the walk has reached.
pub open spec fn walk(objs: Objects, at: ObjectRefView, path: Seq<Seq<u8>>) -> Walk
    decreases path.len(),
{
    if path.len() == 0 {
        Walk::Found(at)
    } else if at.kind != ObjectKind::Tree {
        Walk::Absent
    } else {
        match tree_of(objs, at.digest) {
            Err(e) => Walk::Broken(e),
            Ok(t) => if t.dom().contains(path[0]) {
                walk(objs, t[path[0]], path.skip(1))
            } else {
                Walk::Absent
            },
        }
    }
}

/// The walk from a tree that is at hand down a path that is not empty.
pub open spec fn walk_in(objs: Objects, tree: TreeMap, path: Seq<Seq<u8>>) -> Walk {
    if tree.dom().contains(path[0]) {
        walk(objs, tree[path[0]], path.skip(1))
    } else {
        Walk::Absent
    }
}

/// A walk as the result of a lookup.
pub open spec fn walk_result(w: Walk) -> Result<Option<ObjectRefView>, Error> {
    match w {
        Walk::Found(r) => Ok(Some(r)),
        Walk::Absent => Ok(None),
        Walk::Broken(e) => Err(e),
    }
}

/// What a hierarchy rooted at `root` holds at `path`.
pub open spec fn hierarchy_get(objs: Objects, root: Option<ObjectRefView>, path: Seq<Seq<u8>>) -> Result<
    Option<ObjectRefView>,
    Error,
> {
    match root {
        None => Ok(None),
        Some(r) => walk_result(walk(objs, r, path)),
    }
}

/// The view of an optional reference.
pub open spec fn ref_view(r: Option<ObjectRef>) -> Option<ObjectRefView> {
    match r {
        Some(x) => Some(x@),
        None => None,
    }
}

/// A copy of an optional reference.
pub fn ref_copy(r: &Option<ObjectRef>) -> (out: Option<ObjectRef>)
    ensures
        ref_view(out) == ref_view(*r),
{
    match r {
        Some(x) => Some(x.duplicate()),
        None => None,
    }
}

/// Walks from `start` down the components of `path` from position `from` on.
pub fn walk_from(store: &Store, start: &ObjectRef, path: &ObjectPath, from: usize) -> (r: Result<
    Option<ObjectRef>,
    Error,
>)
    requires
        from <= path@.len(),
    ensures
        match r {
            Ok(x) => walk_result(walk(store@, start@, path@.skip(from as int))) == Ok::<
                Option<ObjectRefView>,
                Error,
            >(ref_view(x)),
            Err(e) => walk_result(walk(store@, start@, path@.skip(from as int))) == Err::<
                Option<ObjectRefView>,
                Error,
            >(e),
        },
{
    let mut cur = start.duplicate();
    let mut i: usize = from;
    while i < path.len()
        invariant
            from <= i <= path@.len(),
            walk(store@, start@, path@.skip(from as int)) == walk(
                store@,
                cur@,
                path@.skip(i as int),
            ),
        decreases path@.len() - i,
    {
        proof {
            assert(path@.skip(i as int)[0] == path@[i as int]);
            assert(path@.skip(i as int).skip(1) =~= path@.skip(i + 1));
        }
        if !cur.is_tree() {
            return Ok(None);
        }
        let tree = match store.get_tree(&cur.digest) {
            Ok(t) => t,
            Err(e) => {
                return Err(e);
            },
        };
        match tree.get(path.component(i).as_slice()) {
            Some(next) => {
                cur = next.duplicate();
            },
            None => {
                return Ok(None);
            },
        }
        i = i + 1;
    }
    Ok(Some(cur))
}

/// Walks from a tree that is at hand down a path that is not empty.
pub fn walk_tree(store: &Store, tree: &Tree, path: &ObjectPath) -> (r: Result<
    Option<ObjectRef>,
    Error,
>)
    requires
        path@.len() > 0,
    ensures
        match r {
            Ok(x) => walk_result(walk_in(store@, tree@, path@)) == Ok::<
                Option<ObjectRefView>,
                Error,
            >(ref_view(x)),
            Err(e) => walk_result(walk_in(store@, tree@, path@)) == Err::<
                Option<ObjectRefView>,
                Error,
            >(e),
        },
{
    match tree.get(path.component(0).as_slice()) {
        Some(first) => walk_from(store, first, path, 1),
        None => Ok(None),
    }
}

/// A read-only view over the tree of a commit, or over nothing.
#[derive(Debug)]
pub struct Hierarchy {
    pub root: Option<ObjectRef>,
}

impl View for Hierarchy {
    type V = Option<ObjectRefView>;

    open spec fn view(&self) -> Option<ObjectRefView> {
        ref_view(self.root)
    }
}

impl Hierarchy {
    /// The hierarchy that holds nothing.
    pub fn new() -> (h: Hierarchy)
        ensures
            h@ is None,
    {
        Hierarchy { root: None }
    }

    /// The hierarchy below a tree.
    pub fn from(root: ObjectRef) -> (h: Hierarchy)
        ensures
            h@ == Some(root@),
    {
        Hierarchy { root: Some(root) }
    }

    /// What lies at `path`: a reference, or nothing.
    pub fn get(&self, store: &Store, path: &ObjectPath) -> (r: Result<Option<ObjectRef>, Error>)
        ensures
            match r {
                Ok(x) => hierarchy_get(store@, self@, path@) == Ok::<Option<ObjectRefView>, Error>(
                    ref_view(x),
                ),
                Err(e) => hierarchy_get(store@, self@, path@) == Err::<
                    Option<ObjectRefView>,
                    Error,
                >(e),
            },
    {
        match &self.root {
            None => Ok(None),
            Some(root) => {
                proof {
                    assert(path@.skip(0) =~= path@);
                }
                walk_from(store, root, path, 0)
            },
        }
    }
}

} // verus!
