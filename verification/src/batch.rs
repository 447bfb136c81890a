//! Object batches: ordered lists of additions and deletions by path, and
//! their application to a tree.
//!
//! Operations are applied in the order in which they were added, so of two
//! operations on one path the later one decides. Subtrees on the way to a
//! path are created where they are missing, and a subtree that a deletion
//! leaves empty is removed from its parent.

use vstd::prelude::*;
use crate::bytes::bytes_copy;
use crate::error::Error;
use crate::hierarchy::TreeMap;
use crate::hierarchy::Walk;
use crate::hierarchy::tree_of;
use crate::hierarchy::walk_in;
use crate::hierarchy::walk_tree;
use crate::object::ObjectKind;
use crate::object::ObjectRef;
use crate::object::ObjectRefView;
use crate::path::ObjectPath;
use crate::store::Objects;
use crate::store::Store;
use crate::store::extends;
use crate::store::lemma_put_extends;
use crate::store::store_put;
use crate::store::tree_ref;
use crate::tree::Tree;
use crate::tree::TreeBuilder;
use crate::tree::lemma_listing_of;
use crate::tree::listing_of;
use crate::wire::encode_tree;

verus! {

/// One operation of a batch.
#[derive(Debug)]
pub enum ObjectOperation {
    /// Enter a reference at a path, replacing what is there.
    Add(ObjectPath, ObjectRef),
    /// Remove what is at a path.
    Delete(ObjectPath),
}

/// The mathematical value of an [`ObjectOperation`].
pub enum OperationView {
    Add(Seq<Seq<u8>>, ObjectRefView),
    Delete(Seq<Seq<u8>>),
}

impl View for ObjectOperation {
    type V = OperationView;

    open spec fn view(&self) -> OperationView {
        match self {
            ObjectOperation::Add(p, r) => OperationView::Add(p@, r@),
            ObjectOperation::Delete(p) => OperationView::Delete(p@),
        }
    }
}

impl ObjectOperation {
    /// A copy of this operation.
    pub fn duplicate(&self) -> (op: ObjectOperation)
        ensures
            op@ == self@,
    {
        match self {
            ObjectOperation::Add(p, r) => ObjectOperation::Add(p.duplicate(), r.duplicate()),
            ObjectOperation::Delete(p) => ObjectOperation::Delete(p.duplicate()),
        }
    }
}

/// A store and a tree over it: what an operation is applied to and what it
/// gives.
pub struct Applied {
    pub objs: Objects,
    pub tree: TreeMap,
}

/// The tree with `target` under `name`, where `name` leads to a subtree that
/// has been changed into `child`: the changed subtree is kept in the store
/// and entered under its new reference.
pub open spec fn graft(objs: Objects, tree: TreeMap, name: Seq<u8>, child: TreeMap) -> Result<
    Applied,
    Error,
> {
    let listing = listing_of(child);
    match store_put(objs, encode_tree(listing)) {
        Ok(m) => Ok(Applied { objs: m, tree: tree.insert(name, tree_ref(listing)) }),
        Err(e) => Err(e),
    }
}

/// Entering `target` at a path that is not empty. Subtrees on the way are
/// created where nothing is; something on the way that is not a tree shadows
/// the path.
pub open spec fn add_spec(objs: Objects, tree: TreeMap, path: Seq<Seq<u8>>, target: ObjectRefView) -> Result<
    Applied,
    Error,
>
    decreases path.len(),
{
    let name = path[0];
    if path.len() <= 1 {
        Ok(Applied { objs, tree: tree.insert(name, target) })
    } else if tree.dom().contains(name) && tree[name].kind != ObjectKind::Tree {
        Err(Error::PathShadowed)
    } else {
        let child = if tree.dom().contains(name) {
            tree_of(objs, tree[name].digest)
        } else {
            Ok(Map::empty())
        };
        match child {
            Err(e) => Err(e),
            Ok(c) => match add_spec(objs, c, path.skip(1), target) {
                Err(e) => Err(e),
                Ok(a) => graft(a.objs, tree, name, a.tree),
            },
        }
    }
}

/// Removing what is at a path that is not empty and at which something is.
/// A subtree that is left empty is removed from its parent.
pub open spec fn remove_spec(objs: Objects, tree: TreeMap, path: Seq<Seq<u8>>) -> Result<
    Applied,
    Error,
>
    decreases path.len(),
{
    let name = path[0];
    if path.len() <= 1 {
        Ok(Applied { objs, tree: tree.remove(name) })
    } else if !tree.dom().contains(name) || tree[name].kind != ObjectKind::Tree {
        Ok(Applied { objs, tree })
    } else {
        match tree_of(objs, tree[name].digest) {
            Err(e) => Err(e),
            Ok(c) => match remove_spec(objs, c, path.skip(1)) {
                Err(e) => Err(e),
                Ok(a) => if a.tree == Map::<Seq<u8>, ObjectRefView>::empty() {
                    Ok(Applied { objs: a.objs, tree: tree.remove(name) })
                } else {
                    graft(a.objs, tree, name, a.tree)
                },
            },
        }
    }
}

/// Applying one operation.
///
/// At the root an addition replaces the whole tree by the tree added, and a
/// deletion empties it. Below the root an addition enters its reference and
/// a deletion removes what it finds; a deletion that finds nothing changes
/// nothing.
pub open spec fn apply_spec(objs: Objects, tree: TreeMap, op: OperationView) -> Result<
    Applied,
    Error,
> {
    match op {
        OperationView::Add(path, target) => if path.len() == 0 {
            if target.kind != ObjectKind::Tree {
                Err(Error::PathShadowed)
            } else {
                match tree_of(objs, target.digest) {
                    Ok(t) => Ok(Applied { objs, tree: t }),
                    Err(e) => Err(e),
                }
            }
        } else {
            add_spec(objs, tree, path, target)
        },
        OperationView::Delete(path) => if path.len() == 0 {
            Ok(Applied { objs, tree: Map::empty() })
        } else {
            match walk_in(objs, tree, path) {
                Walk::Found(_) => remove_spec(objs, tree, path),
                Walk::Absent => Ok(Applied { objs, tree }),
                Walk::Broken(e) => Err(e),
            }
        },
    }
}

/// Applying operations one after the other; the first failure ends the run.
pub open spec fn run_spec(objs: Objects, tree: TreeMap, ops: Seq<OperationView>) -> Result<
    Applied,
    Error,
>
    decreases ops.len(),
{
    if ops.len() == 0 {
        Ok(Applied { objs, tree })
    } else {
        match apply_spec(objs, tree, ops[0]) {
            Err(e) => Err(e),
            Ok(a) => run_spec(a.objs, a.tree, ops.skip(1)),
        }
    }
}

/// Whether an exec result carries what the specification gives.
pub open spec fn applied_as(
    spec: Result<Applied, Error>,
    r: Result<Tree, Error>,
    objs: Objects,
) -> bool {
    match spec {
        Ok(a) => r is Ok && r->Ok_0@ == a.tree && objs == a.objs,
        Err(e) => r is Err && r->Err_0 == e,
    }
}

/// Keeps a changed subtree and enters it under `name`.
fn graft_child(store: &mut Store, tree: Tree, name: Vec<u8>, child: Tree) -> (r: Result<Tree, Error>)
    requires
        crate::tree::valid_name(name@),
    ensures
        extends(final(store)@, old(store)@),
        applied_as(graft(old(store)@, tree@, name@, child@), r, final(store)@),
{
    proof {
        use_type_invariant(&child);
        lemma_listing_of(child.listing());
        lemma_put_extends(store@, encode_tree(child.listing()));
    }
    match store.put_tree(&child) {
        Ok(child_ref) => Ok(tree.with_entry(name, child_ref)),
        Err(e) => Err(e),
    }
}

/// Enters `target` at the components of `path` from position `from` on.
fn add_at(store: &mut Store, tree: Tree, path: &ObjectPath, from: usize, target: ObjectRef) -> (r:
    Result<Tree, Error>)
    requires
        from < path@.len(),
    ensures
        extends(final(store)@, old(store)@),
        applied_as(
            add_spec(old(store)@, tree@, path@.skip(from as int), target@),
            r,
            final(store)@,
        ),
    decreases path@.len() - from,
{
    let component = path.component(from);
    let n = component.len();
    let name = bytes_copy(component.as_slice(), 0, n);
    proof {
        assert(component@.subrange(0, n as int) =~= component@);
        assert(path@.skip(from as int)[0] == path@[from as int]);
        assert(path@.skip(from as int).skip(1) =~= path@.skip(from + 1));
    }
    let depth = path.len();
    if from + 1 == depth {
        return Ok(tree.with_entry(name, target));
    }
    let child = match tree.get(component.as_slice()) {
        Some(found) => {
            if !found.is_tree() {
                return Err(Error::PathShadowed);
            }
            match store.get_tree(&found.digest) {
                Ok(t) => t,
                Err(e) => {
                    return Err(e);
                },
            }
        },
        None => Tree::new(),
    };
    match add_at(store, child, path, from + 1, target) {
        Ok(changed) => graft_child(store, tree, name, changed),
        Err(e) => Err(e),
    }
}

/// Removes what is at the components of `path` from position `from` on.
fn remove_at(store: &mut Store, tree: Tree, path: &ObjectPath, from: usize) -> (r: Result<
    Tree,
    Error,
>)
    requires
        from < path@.len(),
    ensures
        extends(final(store)@, old(store)@),
        applied_as(remove_spec(old(store)@, tree@, path@.skip(from as int)), r, final(store)@),
    decreases path@.len() - from,
{
    let component = path.component(from);
    let n = component.len();
    let name = bytes_copy(component.as_slice(), 0, n);
    proof {
        assert(component@.subrange(0, n as int) =~= component@);
        assert(path@.skip(from as int)[0] == path@[from as int]);
        assert(path@.skip(from as int).skip(1) =~= path@.skip(from + 1));
    }
    let depth = path.len();
    if from + 1 == depth {
        return Ok(tree.without_entry(name.as_slice()));
    }
    let child = match tree.get(component.as_slice()) {
        Some(found) => {
            if !found.is_tree() {
                return Ok(tree);
            }
            match store.get_tree(&found.digest) {
                Ok(t) => t,
                Err(e) => {
                    return Err(e);
                },
            }
        },
        None => {
            return Ok(tree);
        },
    };
    match remove_at(store, child, path, from + 1) {
        Ok(changed) => {
            if changed.is_empty() {
                Ok(tree.without_entry(name.as_slice()))
            } else {
                graft_child(store, tree, name, changed)
            }
        },
        Err(e) => Err(e),
    }
}

/// Applies one operation to a tree over a store.
///
/// The store only grows. Where the operation fails, what it has put into the
/// store by then stays there.
pub fn apply_operation(store: &mut Store, tree: Tree, op: &ObjectOperation) -> (r: Result<
    Tree,
    Error,
>)
    ensures
        extends(final(store)@, old(store)@),
        applied_as(apply_spec(old(store)@, tree@, op@), r, final(store)@),
{
    match op {
        ObjectOperation::Add(path, target) => {
            if path.is_root() {
                if !target.is_tree() {
                    Err(Error::PathShadowed)
                } else {
                    store.get_tree(&target.digest)
                }
            } else {
                proof {
                    assert(path@.skip(0) =~= path@);
                }
                add_at(store, tree, path, 0, target.duplicate())
            }
        },
        ObjectOperation::Delete(path) => {
            if path.is_root() {
                Ok(Tree::new())
            } else {
                proof {
                    assert(path@.skip(0) =~= path@);
                }
                match walk_tree(store, &tree, path) {
                    Ok(Some(_)) => remove_at(store, tree, path, 0),
                    Ok(None) => Ok(tree),
                    Err(e) => Err(e),
                }
            }
        },
    }
}

/// The values of a list of operations.
pub open spec fn operations_view(ops: Seq<ObjectOperation>) -> Seq<OperationView> {
    ops.map_values(|op: ObjectOperation| op@)
}

/// An ordered accumulator of operations.
#[derive(Debug)]
pub struct ObjectBatch {
    ops: Vec<ObjectOperation>,
}

impl View for ObjectBatch {
    type V = Seq<OperationView>;

    closed spec fn view(&self) -> Seq<OperationView> {
        operations_view(self.ops@)
    }
}

impl ObjectBatch {
    /// The batch without operations.
    pub fn new() -> (b: ObjectBatch)
        ensures
            b@ == Seq::<OperationView>::empty(),
    {
        let b = ObjectBatch { ops: Vec::new() };
        assert(b@ =~= Seq::<OperationView>::empty());
        b
    }

    /// The number of operations.
    pub fn len(&self) -> (n: usize)
        ensures
            n == self@.len(),
    {
        self.ops.len()
    }

    /// This batch with one more operation at its end.
    pub fn add(self, op: ObjectOperation) -> (b: ObjectBatch)
        ensures
            b@ == self@.push(op@),
    {
        let mut ops = self.ops;
        ops.push(op);
        let b = ObjectBatch { ops };
        assert(b@ =~= self@.push(op@));
        b
    }

    /// Applies the operations in order, starting from `base`, and gives the
    /// builder that results. The first operation that fails ends the run
    /// with its error.
    pub fn run(&self, store: &mut Store, base: TreeBuilder) -> (r: Result<TreeBuilder, Error>)
        ensures
            extends(final(store)@, old(store)@),
            match run_spec(old(store)@, base@, self@) {
                Ok(a) => r is Ok && r->Ok_0@ == a.tree && final(store)@ == a.objs,
                Err(e) => r is Err && r->Err_0 == e,
            },
    {
        let mut tree = base.into_tree();
        let mut i: usize = 0;
        proof {
            assert(self@.skip(0) =~= self@);
        }
        while i < self.ops.len()
            invariant
                i <= self.ops@.len(),
                extends(store@, old(store)@),
                run_spec(old(store)@, base@, self@) == run_spec(store@, tree@, self@.skip(i as int)),
            decreases self.ops@.len() - i,
        {
            proof {
                assert(self@.skip(i as int)[0] == self.ops@[i as int]@);
                assert(self@.skip(i as int).skip(1) =~= self@.skip(i + 1));
            }
            match apply_operation(store, tree, &self.ops[i]) {
                Ok(next) => {
                    tree = next;
                },
                Err(e) => {
                    return Err(e);
                },
            }
            i = i + 1;
        }
        Ok(TreeBuilder::from_tree(tree))
    }
}

} // verus!
