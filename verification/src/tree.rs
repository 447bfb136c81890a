//! Trees: mappings from one path component to an object reference.
//!
//! A tree keeps its entries ordered by name, so that equal trees have equal
//! encodings.

use vstd::prelude::*;
use crate::bytes::bytes_copy;
use crate::bytes::bytes_eq;
use crate::bytes::bytes_lt;
use crate::bytes::lemma_lex_asymmetric;
use crate::bytes::lemma_lex_total;
use crate::bytes::lemma_lex_transitive;
use crate::bytes::lex_lt;
use crate::error::Error;
use crate::object::ObjectRef;
use crate::object::ObjectRefView;
use crate::object::ref_wf;

verus! {

/// The byte that separates the components of a path.
pub const SEPARATOR: u8 = 47;

/// A name under which a tree can hold an entry: not empty and free of
/// separators.
pub open spec fn valid_name(n: Seq<u8>) -> bool {
    &&& n.len() > 0
    &&& forall|i: int| 0 <= i < n.len() ==> n[i] != SEPARATOR
}

/// Whether `n` can name an entry of a tree.
pub fn is_valid_name(n: &[u8]) -> (b: bool)
    ensures
        b == valid_name(n@),
{
    if n.len() == 0 {
        return false;
    }
    let mut i: usize = 0;
    while i < n.len()
        invariant
            i <= n@.len(),
            forall|j: int| 0 <= j < i ==> n@[j] != SEPARATOR,
        decreases n@.len() - i,
    {
        if n[i] == SEPARATOR {
            return false;
        }
        i = i + 1;
    }
    true
}

/// One entry of a tree.
#[derive(Debug)]
pub struct TreeEntry {
    pub name: Vec<u8>,
    pub target: ObjectRef,
}

/// The mathematical value of a [`TreeEntry`].
pub struct TreeEntryView {
    pub name: Seq<u8>,
    pub target: ObjectRefView,
}

impl View for TreeEntry {
    type V = TreeEntryView;

    open spec fn view(&self) -> TreeEntryView {
        TreeEntryView { name: self.name@, target: self.target@ }
    }
}

/// The values of a list of entries.
pub open spec fn entries_view(es: Seq<TreeEntry>) -> Seq<TreeEntryView> {
    es.map_values(|e: TreeEntry| e@)
}

/// Whether the names strictly ascend in the lexicographic order.
pub open spec fn entries_sorted(es: Seq<TreeEntryView>) -> bool {
    forall|i: int, j: int| 0 <= i < j < es.len() ==> lex_lt(#[trigger] es[i].name, #[trigger] es[j].name)
}

/// Whether a list of entries can be the listing of a tree: names valid and
/// strictly ascending, digests of the right width.
pub open spec fn entries_wf(es: Seq<TreeEntryView>) -> bool {
    &&& entries_sorted(es)
    &&& forall|i: int| 0 <= i < es.len() ==> valid_name(#[trigger] es[i].name)
    &&& forall|i: int| 0 <= i < es.len() ==> ref_wf(#[trigger] es[i].target)
}

/// Whether some entry of the list bears the name.
pub open spec fn has_name(es: Seq<TreeEntryView>, n: Seq<u8>) -> bool {
    exists|i: int| 0 <= i < es.len() && (#[trigger] es[i]).name == n
}

/// The position of an entry that bears the name, where there is one.
pub open spec fn index_of(es: Seq<TreeEntryView>, n: Seq<u8>) -> int {
    choose|i: int| 0 <= i < es.len() && (#[trigger] es[i]).name == n
}

/// The mapping that a list of entries stands for.
pub open spec fn entries_map(es: Seq<TreeEntryView>) -> Map<Seq<u8>, ObjectRefView> {
    Map::new(|n: Seq<u8>| has_name(es, n), |n: Seq<u8>| es[index_of(es, n)].target)
}

/// In a sorted listing a name occurs at one position only.
pub proof fn lemma_sorted_distinct(es: Seq<TreeEntryView>, i: int, j: int)
    requires
        entries_sorted(es),
        0 <= i < es.len(),
        0 <= j < es.len(),
        es[i].name == es[j].name,
    ensures
        i == j,
{
    if i < j {
        lemma_lex_asymmetric(es[i].name, es[j].name);
    } else if j < i {
        lemma_lex_asymmetric(es[j].name, es[i].name);
    }
}

/// The mapping of a sorted listing sends the name at each position to the
/// target at that position.
pub proof fn lemma_map_at(es: Seq<TreeEntryView>, i: int)
    requires
        entries_sorted(es),
        0 <= i < es.len(),
    ensures
        entries_map(es).dom().contains(es[i].name),
        entries_map(es)[es[i].name] == es[i].target,
{
    let n = es[i].name;
    assert(has_name(es, n));
    lemma_sorted_distinct(es, i, index_of(es, n));
}

/// Two sorted listings that stand for the same mapping are the same listing:
/// a tree has one listing only.
pub proof fn lemma_listing_unique(a: Seq<TreeEntryView>, b: Seq<TreeEntryView>)
    requires
        entries_sorted(a),
        entries_sorted(b),
        entries_map(a) == entries_map(b),
    ensures
        a == b,
    decreases a.len() + b.len(),
{
    if a.len() == 0 {
        if b.len() > 0 {
            lemma_map_at(b, 0);
            assert(has_name(a, b[0].name));
        }
        assert(a =~= b);
    } else if b.len() == 0 {
        lemma_map_at(a, 0);
        assert(has_name(b, a[0].name));
    } else {
        // The first names agree: each is the least name of the same set.
        lemma_map_at(a, 0);
        lemma_map_at(b, 0);
        assert(has_name(b, a[0].name));
        assert(has_name(a, b[0].name));
        let ib = index_of(b, a[0].name);
        let ia = index_of(a, b[0].name);
        if ib != 0 {
            // b[0] < b[ib] = a[0] <= a[ia] = b[0]
            assert(lex_lt(b[0].name, b[ib].name));
            if ia != 0 {
                assert(lex_lt(a[0].name, a[ia].name));
                lemma_lex_transitive(b[0].name, a[0].name, b[0].name);
            }
            lemma_lex_asymmetric(b[0].name, a[0].name);
            assert(false);
        }
        assert(a[0].name == b[0].name);
        assert(a[0] == b[0]);
        let ta = a.skip(1);
        let tb = b.skip(1);
        assert(entries_sorted(ta)) by {
            assert forall|i: int, j: int| 0 <= i < j < ta.len() implies lex_lt(
                #[trigger] ta[i].name,
                #[trigger] ta[j].name,
            ) by {
                assert(ta[i] == a[i + 1] && ta[j] == a[j + 1]);
            }
        }
        assert(entries_sorted(tb)) by {
            assert forall|i: int, j: int| 0 <= i < j < tb.len() implies lex_lt(
                #[trigger] tb[i].name,
                #[trigger] tb[j].name,
            ) by {
                assert(tb[i] == b[i + 1] && tb[j] == b[j + 1]);
            }
        }
        assert(entries_map(ta) =~= entries_map(tb)) by {
            lemma_tail_map(a);
            lemma_tail_map(b);
        }
        lemma_listing_unique(ta, tb);
        assert(a =~= seq![a[0]] + ta);
        assert(b =~= seq![b[0]] + tb);
    }
}

/// Dropping the first entry of a sorted listing removes its name from the
/// mapping and changes nothing else.
pub proof fn lemma_tail_map(es: Seq<TreeEntryView>)
    requires
        entries_sorted(es),
        es.len() > 0,
    ensures
        entries_sorted(es.skip(1)),
        entries_map(es.skip(1)) == entries_map(es).remove(es[0].name),
{
    let t = es.skip(1);
    assert forall|i: int, j: int| 0 <= i < j < t.len() implies lex_lt(
        #[trigger] t[i].name,
        #[trigger] t[j].name,
    ) by {
        assert(t[i] == es[i + 1] && t[j] == es[j + 1]);
    }
    let m = entries_map(es).remove(es[0].name);
    assert forall|n: Seq<u8>| entries_map(t).dom().contains(n) <==> m.dom().contains(n) by {
        if has_name(t, n) {
            let k = index_of(t, n);
            assert(t[k] == es[k + 1]);
            assert(has_name(es, n));
            lemma_sorted_distinct(es, k + 1, k + 1);
            if n == es[0].name {
                lemma_sorted_distinct(es, 0, k + 1);
            }
        }
        if m.dom().contains(n) {
            let k = index_of(es, n);
            assert(k != 0);
            assert(t[k - 1] == es[k]);
        }
    }
    assert(entries_sorted(t));
    assert forall|n: Seq<u8>| entries_map(t).dom().contains(n) implies entries_map(t)[n] == m[n] by {
        assert(has_name(t, n));
        let k = index_of(t, n);
        lemma_map_at(t, k);
        assert(t[k] == es[k + 1]);
        lemma_map_at(es, k + 1);
        if n == es[0].name {
            lemma_sorted_distinct(es, 0, k + 1);
        }
    }
    assert(entries_map(t) =~= m);
}

/// Replacing the target at a position keeps the listing sorted and updates
/// the mapping at that name.
pub proof fn lemma_update_map(es: Seq<TreeEntryView>, i: int, target: ObjectRefView)
    requires
        entries_sorted(es),
        0 <= i < es.len(),
    ensures
        entries_sorted(es.update(i, TreeEntryView { name: es[i].name, target })),
        entries_map(es.update(i, TreeEntryView { name: es[i].name, target })) == entries_map(
            es,
        ).insert(es[i].name, target),
{
    let e = TreeEntryView { name: es[i].name, target };
    let u = es.update(i, e);
    assert forall|a: int, b: int| 0 <= a < b < u.len() implies lex_lt(
        #[trigger] u[a].name,
        #[trigger] u[b].name,
    ) by {
        assert(u[a].name == es[a].name && u[b].name == es[b].name);
    }
    let m = entries_map(es).insert(es[i].name, target);
    assert forall|n: Seq<u8>| entries_map(u).dom().contains(n) <==> m.dom().contains(n) by {
        if has_name(u, n) {
            let k = index_of(u, n);
            assert(u[k].name == es[k].name);
            assert(has_name(es, n));
        }
        if has_name(es, n) {
            let k = index_of(es, n);
            assert(u[k].name == es[k].name);
            assert(has_name(u, n));
        }
        if n == es[i].name {
            assert(u[i].name == n);
            assert(has_name(u, n));
        }
    }
    assert forall|n: Seq<u8>| entries_map(u).dom().contains(n) implies entries_map(u)[n] == m[n] by {
        let k = index_of(u, n);
        lemma_map_at(u, k);
        if k != i {
            assert(u[k] == es[k]);
            lemma_map_at(es, k);
            lemma_sorted_distinct(es, k, k);
            if n == es[i].name {
                lemma_sorted_distinct(es, k, i);
            }
        }
    }
    assert(entries_map(u) =~= m);
}

/// Inserting an entry where the order wants it keeps the listing sorted and
/// adds the name to the mapping.
pub proof fn lemma_insert_map(es: Seq<TreeEntryView>, pos: int, e: TreeEntryView)
    requires
        entries_sorted(es),
        0 <= pos <= es.len(),
        forall|k: int| 0 <= k < pos ==> lex_lt((#[trigger] es[k]).name, e.name),
        pos < es.len() ==> lex_lt(e.name, es[pos].name),
    ensures
        entries_sorted(es.insert(pos, e)),
        entries_map(es.insert(pos, e)) == entries_map(es).insert(e.name, e.target),
{
    let u = es.insert(pos, e);
    assert forall|k: int| pos <= k < es.len() implies lex_lt(e.name, (#[trigger] es[k]).name) by {
        if k > pos {
            assert(lex_lt(es[pos].name, es[k].name));
            lemma_lex_transitive(e.name, es[pos].name, es[k].name);
        }
    }
    assert forall|a: int, b: int| 0 <= a < b < u.len() implies lex_lt(
        #[trigger] u[a].name,
        #[trigger] u[b].name,
    ) by {
        if b < pos {
            assert(u[a] == es[a] && u[b] == es[b]);
        } else if b == pos {
            assert(u[a] == es[a]);
        } else if a < pos {
            assert(u[a] == es[a] && u[b] == es[b - 1]);
        } else if a == pos {
            assert(u[b] == es[b - 1]);
        } else {
            assert(u[a] == es[a - 1] && u[b] == es[b - 1]);
        }
    }
    let m = entries_map(es).insert(e.name, e.target);
    assert forall|n: Seq<u8>| entries_map(u).dom().contains(n) <==> m.dom().contains(n) by {
        if has_name(u, n) {
            let k = index_of(u, n);
            if k < pos {
                assert(u[k] == es[k]);
                assert(has_name(es, n));
            } else if k > pos {
                assert(u[k] == es[k - 1]);
                assert(has_name(es, n));
            }
        }
        if has_name(es, n) {
            let k = index_of(es, n);
            if k < pos {
                assert(u[k] == es[k]);
            } else {
                assert(u[k + 1] == es[k]);
            }
            assert(has_name(u, n));
        }
        if n == e.name {
            assert(u[pos] == e);
            assert(has_name(u, n));
        }
    }
    assert forall|n: Seq<u8>| entries_map(u).dom().contains(n) implies entries_map(u)[n] == m[n] by {
        let k = index_of(u, n);
        lemma_map_at(u, k);
        if k < pos {
            assert(u[k] == es[k]);
            lemma_map_at(es, k);
            lemma_lex_asymmetric(es[k].name, e.name);
        } else if k > pos {
            assert(u[k] == es[k - 1]);
            lemma_map_at(es, k - 1);
            lemma_lex_asymmetric(e.name, es[k - 1].name);
        }
    }
    assert(entries_map(u) =~= m);
}

/// Removing the entry at a position keeps the listing sorted and removes its
/// name from the mapping.
pub proof fn lemma_remove_map(es: Seq<TreeEntryView>, i: int)
    requires
        entries_sorted(es),
        0 <= i < es.len(),
    ensures
        entries_sorted(es.remove(i)),
        entries_map(es.remove(i)) == entries_map(es).remove(es[i].name),
{
    let u = es.remove(i);
    assert forall|a: int, b: int| 0 <= a < b < u.len() implies lex_lt(
        #[trigger] u[a].name,
        #[trigger] u[b].name,
    ) by {
        let a0 = if a < i { a } else { a + 1 };
        let b0 = if b < i { b } else { b + 1 };
        assert(u[a] == es[a0] && u[b] == es[b0]);
    }
    let m = entries_map(es).remove(es[i].name);
    assert forall|n: Seq<u8>| entries_map(u).dom().contains(n) <==> m.dom().contains(n) by {
        if has_name(u, n) {
            let k = index_of(u, n);
            let k0 = if k < i { k } else { k + 1 };
            assert(u[k] == es[k0]);
            assert(has_name(es, n));
            if n == es[i].name {
                lemma_sorted_distinct(es, k0, i);
            }
        }
        if m.dom().contains(n) {
            let k = index_of(es, n);
            assert(k != i);
            let k1 = if k < i { k } else { k - 1 };
            assert(u[k1] == es[k]);
            assert(has_name(u, n));
        }
    }
    assert(entries_sorted(u));
    assert forall|n: Seq<u8>| entries_map(u).dom().contains(n) implies entries_map(u)[n] == m[n] by {
        assert(has_name(u, n));
        let k = index_of(u, n);
        lemma_map_at(u, k);
        let k0 = if k < i { k } else { k + 1 };
        assert(u[k] == es[k0]);
        lemma_map_at(es, k0);
        if n == es[i].name {
            lemma_sorted_distinct(es, i, k0);
        }
    }
    assert(entries_map(u) =~= m);
}

/// An immutable tree.
#[derive(Debug)]
pub struct Tree {
    entries: Vec<TreeEntry>,
}

impl View for Tree {
    type V = Map<Seq<u8>, ObjectRefView>;

    open spec fn view(&self) -> Map<Seq<u8>, ObjectRefView> {
        entries_map(self.listing())
    }
}

impl Tree {
    /// The entries in the order of their names.
    pub closed spec fn listing(&self) -> Seq<TreeEntryView> {
        entries_view(self.entries@)
    }

    /// The entries of a tree are valid and strictly ascending.
    #[verifier::type_invariant]
    pub open spec fn inv(&self) -> bool {
        entries_wf(self.listing())
    }

    /// The tree without entries.
    pub fn new() -> (t: Tree)
        ensures
            t.listing() == Seq::<TreeEntryView>::empty(),
            t@ == Map::<Seq<u8>, ObjectRefView>::empty(),
    {
        let t = Tree { entries: Vec::new() };
        assert(t.listing() =~= Seq::<TreeEntryView>::empty());
        assert(t@ =~= Map::<Seq<u8>, ObjectRefView>::empty());
        t
    }

    /// The number of entries.
    pub fn len(&self) -> (n: usize)
        ensures
            n == self.listing().len(),
    {
        self.entries.len()
    }

    /// Whether the tree has no entries.
    pub fn is_empty(&self) -> (b: bool)
        ensures
            b == (self.listing().len() == 0),
            b == (self@ == Map::<Seq<u8>, ObjectRefView>::empty()),
    {
        proof {
            use_type_invariant(self);
            if self.listing().len() > 0 {
                lemma_map_at(self.listing(), 0);
            } else {
                assert(self@ =~= Map::<Seq<u8>, ObjectRefView>::empty());
            }
        }
        self.entries.len() == 0
    }

    /// The entry at a position of the listing.
    pub fn entry(&self, i: usize) -> (e: &TreeEntry)
        requires
            i < self.listing().len(),
        ensures
            e@ == self.listing()[i as int],
    {
        &self.entries[i]
    }

    /// The position of the entry that bears the name, if there is one.
    fn find(&self, name: &[u8]) -> (r: Option<usize>)
        ensures
            match r {
                Some(i) => i < self.listing().len() && self.listing()[i as int].name == name@,
                None => !has_name(self.listing(), name@),
            },
    {
        let mut i: usize = 0;
        while i < self.entries.len()
            invariant
                i <= self.entries@.len(),
                forall|j: int| 0 <= j < i ==> (#[trigger] self.listing()[j]).name != name@,
            decreases self.entries@.len() - i,
        {
            if bytes_eq(self.entries[i].name.as_slice(), name) {
                return Some(i);
            }
            i = i + 1;
        }
        None
    }

    /// The target of the entry that bears the name, if there is one.
    pub fn get(&self, name: &[u8]) -> (r: Option<&ObjectRef>)
        ensures
            r is Some <==> self@.dom().contains(name@),
            r matches Some(t) ==> t@ == self@[name@],
    {
        proof {
            use_type_invariant(self);
        }
        match self.find(name) {
            Some(i) => {
                proof {
                    lemma_map_at(self.listing(), i as int);
                }
                Some(&self.entries[i].target)
            },
            None => None,
        }
    }

    /// This tree with the entry under a valid name set to `target`.
    pub fn with_entry(self, name: Vec<u8>, target: ObjectRef) -> (t: Tree)
        requires
            valid_name(name@),
        ensures
            t@ == self@.insert(name@, target@),
    {
        proof {
            use_type_invariant(&self);
            use_type_invariant(&target.digest);
        }
        let ghost before = self.listing();
        let mut entries = self.entries;
        let mut pos: usize = 0;
        while pos < entries.len() && bytes_lt(entries[pos].name.as_slice(), name.as_slice())
            invariant
                pos <= entries@.len(),
                entries_view(entries@) == before,
                forall|k: int| 0 <= k < pos ==> lex_lt((#[trigger] before[k]).name, name@),
            decreases entries@.len() - pos,
        {
            pos = pos + 1;
        }
        let ghost e = TreeEntryView { name: name@, target: target@ };
        if pos < entries.len() && bytes_eq(entries[pos].name.as_slice(), name.as_slice()) {
            proof {
                lemma_update_map(before, pos as int, target@);
            }
            entries.set(pos, TreeEntry { name, target });
            assert(entries_view(entries@) =~= before.update(pos as int, e));
        } else {
            proof {
                if pos < before.len() {
                    lemma_lex_total(before[pos as int].name, name@);
                }
                lemma_insert_map(before, pos as int, e);
            }
            entries.insert(pos, TreeEntry { name, target });
            assert(entries_view(entries@) =~= before.insert(pos as int, e));
        }
        Tree { entries }
    }

    /// This tree without the entry under the name.
    pub fn without_entry(self, name: &[u8]) -> (t: Tree)
        ensures
            t@ == self@.remove(name@),
    {
        proof {
            use_type_invariant(&self);
        }
        let ghost before = self.listing();
        match self.find(name) {
            Some(i) => {
                proof {
                    lemma_remove_map(before, i as int);
                }
                let mut entries = self.entries;
                entries.remove(i);
                assert(entries_view(entries@) =~= before.remove(i as int));
                Tree { entries }
            },
            None => {
                assert(self@ =~= self@.remove(name@));
                self
            },
        }
    }

    /// A copy of this tree.
    pub fn duplicate(&self) -> (t: Tree)
        ensures
            t.listing() == self.listing(),
            t@ == self@,
    {
        proof {
            use_type_invariant(self);
        }
        let mut entries: Vec<TreeEntry> = Vec::new();
        let mut i: usize = 0;
        while i < self.entries.len()
            invariant
                i <= self.entries@.len(),
                entries@.len() == i,
                forall|j: int| 0 <= j < i ==> entries@[j]@ == self.entries@[j]@,
            decreases self.entries@.len() - i,
        {
            let e = &self.entries[i];
            let n = e.name.len();
            entries.push(
                TreeEntry { name: bytes_copy(e.name.as_slice(), 0, n), target: e.target.duplicate() },
            );
            proof {
                assert(e.name@.subrange(0, n as int) =~= e.name@);
            }
            i = i + 1;
        }
        assert(entries_view(entries@) =~= self.listing());
        Tree { entries }
    }

    /// Takes a list of entries as a tree if it is a sound listing: names
    /// valid and strictly ascending.
    pub fn from_entries(entries: Vec<TreeEntry>) -> (t: Option<Tree>)
        ensures
            t is Some <==> entries_wf(entries_view(entries@)),
            t matches Some(x) ==> x.listing() == entries_view(entries@),
    {
        let ghost es = entries_view(entries@);
        let mut i: usize = 0;
        while i < entries.len()
            invariant
                i <= entries@.len(),
                es == entries_view(entries@),
                forall|k: int| 0 <= k < i ==> valid_name(#[trigger] es[k].name),
                forall|k: int| 0 <= k < i ==> ref_wf(#[trigger] es[k].target),
                forall|k: int| 0 < k < i ==> lex_lt(es[k - 1].name, #[trigger] es[k].name),
            decreases entries@.len() - i,
        {
            if !is_valid_name(entries[i].name.as_slice()) {
                assert(!valid_name(es[i as int].name));
                return None;
            }
            if i > 0 && !bytes_lt(entries[i - 1].name.as_slice(), entries[i].name.as_slice()) {
                assert(!lex_lt(es[i - 1].name, es[i as int].name));
                return None;
            }
            let e = &entries[i];
            proof {
                use_type_invariant(&e.target.digest);
            }
            i = i + 1;
        }
        proof {
            lemma_steps_sorted(es);
        }
        Some(Tree { entries })
    }
}

/// The listing of a mapping: the sorted listing that stands for it.
pub open spec fn listing_of(m: Map<Seq<u8>, ObjectRefView>) -> Seq<TreeEntryView> {
    choose|es: Seq<TreeEntryView>| entries_sorted(es) && entries_map(es) == m
}

/// The listing of the mapping of a sorted listing is that listing.
pub proof fn lemma_listing_of(es: Seq<TreeEntryView>)
    requires
        entries_sorted(es),
    ensures
        listing_of(entries_map(es)) == es,
{
    let m = entries_map(es);
    let chosen = listing_of(m);
    assert(entries_sorted(chosen) && entries_map(chosen) == m);
    lemma_listing_unique(chosen, es);
}

/// A listing in which each name comes before the next is sorted.
pub proof fn lemma_steps_sorted(es: Seq<TreeEntryView>)
    requires
        forall|k: int| 0 < k < es.len() ==> lex_lt(es[k - 1].name, #[trigger] es[k].name),
    ensures
        entries_sorted(es),
{
    assert forall|i: int, j: int| 0 <= i < j < es.len() implies lex_lt(
        #[trigger] es[i].name,
        #[trigger] es[j].name,
    ) by {
        lemma_steps_reach(es, i, j);
    }
}

proof fn lemma_steps_reach(es: Seq<TreeEntryView>, i: int, j: int)
    requires
        forall|k: int| 0 < k < es.len() ==> lex_lt(es[k - 1].name, #[trigger] es[k].name),
        0 <= i < j < es.len(),
    ensures
        lex_lt(es[i].name, es[j].name),
    decreases j - i,
{
    assert(lex_lt(es[j - 1].name, es[j].name));
    if i < j - 1 {
        lemma_steps_reach(es, i, j - 1);
        lemma_lex_transitive(es[i].name, es[j - 1].name, es[j].name);
    }
}

/// A tree in the making: entries can still be set and removed.
#[derive(Debug)]
pub struct TreeBuilder {
    tree: Tree,
}

impl View for TreeBuilder {
    type V = Map<Seq<u8>, ObjectRefView>;

    closed spec fn view(&self) -> Map<Seq<u8>, ObjectRefView> {
        self.tree@
    }
}

impl TreeBuilder {
    /// A builder over the empty tree.
    pub fn new() -> (b: TreeBuilder)
        ensures
            b@ == Map::<Seq<u8>, ObjectRefView>::empty(),
    {
        TreeBuilder { tree: Tree::new() }
    }

    /// Whether nothing is entered.
    pub fn is_empty(&self) -> (b: bool)
        ensures
            b == (self@ == Map::<Seq<u8>, ObjectRefView>::empty()),
    {
        self.tree.is_empty()
    }

    /// The target entered under the name, if there is one.
    pub fn get(&self, name: &[u8]) -> (r: Option<&ObjectRef>)
        ensures
            r is Some <==> self@.dom().contains(name@),
            r matches Some(t) ==> t@ == self@[name@],
    {
        self.tree.get(name)
    }

    /// Enters `target` under `name`, replacing what was there. A name that is
    /// empty or holds a separator is refused and nothing changes.
    pub fn insert(&mut self, name: Vec<u8>, target: ObjectRef) -> (r: Result<(), Error>)
        ensures
            valid_name(name@) ==> r is Ok && final(self)@ == old(self)@.insert(name@, target@),
            !valid_name(name@) ==> r == Err::<(), Error>(Error::PathInvalid) && final(self)@ == old(
                self,
            )@,
    {
        if is_valid_name(name.as_slice()) {
            let mut tree = Tree::new();
            core::mem::swap(&mut self.tree, &mut tree);
            self.tree = tree.with_entry(name, target);
            Ok(())
        } else {
            Err(Error::PathInvalid)
        }
    }

    /// Removes what is entered under `name`; nothing changes where nothing is.
    pub fn remove(&mut self, name: &[u8])
        ensures
            final(self)@ == old(self)@.remove(name@),
    {
        let mut tree = Tree::new();
        core::mem::swap(&mut self.tree, &mut tree);
        self.tree = tree.without_entry(name);
    }

    /// The tree as it stands.
    pub fn as_tree(&self) -> (t: Tree)
        ensures
            t@ == self@,
    {
        self.tree.duplicate()
    }

    /// A builder over a tree.
    pub fn from_tree(tree: Tree) -> (b: TreeBuilder)
        ensures
            b@ == tree@,
    {
        TreeBuilder { tree }
    }

    /// Freezes the builder.
    pub fn into_tree(self) -> (t: Tree)
        ensures
            t@ == self@,
    {
        self.tree
    }
}

impl Tree {
    /// Clones this tree back into its builder form.
    pub fn diverge(&self) -> (b: TreeBuilder)
        ensures
            b@ == self@,
    {
        TreeBuilder { tree: self.duplicate() }
    }
}

} // verus!
