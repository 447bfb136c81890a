//! Object paths: normalized repository-relative paths, the keys into trees.

use vstd::prelude::*;
use vstd::string::StringSliceAdditionalSpecFns;
use crate::bytes::bytes_append;
use crate::bytes::bytes_copy;
use crate::bytes::bytes_eq;
use crate::error::Error;
use crate::tree::SEPARATOR;
use crate::tree::is_valid_name;
use crate::tree::valid_name;

verus! {

/// The byte of a full stop.
pub const DOT: u8 = 46;

/// A component of an object path: a valid name that is neither `.` nor `..`.
pub open spec fn valid_component(c: Seq<u8>) -> bool {
    &&& valid_name(c)
    &&& c != seq![DOT]
    &&& c != seq![DOT, DOT]
}

/// Whether every component of a path is valid.
pub open spec fn valid_path(p: Seq<Seq<u8>>) -> bool {
    forall|i: int| 0 <= i < p.len() ==> valid_component(#[trigger] p[i])
}

/// The segments between the separators of a byte string. There is always at
/// least one segment; an empty string has one empty segment.
pub open spec fn split(s: Seq<u8>) -> Seq<Seq<u8>>
    decreases s.len(),
{
    if s.len() == 0 {
        seq![Seq::<u8>::empty()]
    } else {
        let before = split(s.drop_last());
        if s.last() == SEPARATOR {
            before.push(Seq::<u8>::empty())
        } else {
            before.update(before.len() - 1, before.last().push(s.last()))
        }
    }
}

/// The segments joined by separators.
pub open spec fn join(p: Seq<Seq<u8>>) -> Seq<u8>
    decreases p.len(),
{
    if p.len() == 0 {
        Seq::<u8>::empty()
    } else if p.len() == 1 {
        p[0]
    } else {
        join(p.drop_last()) + seq![SEPARATOR] + p.last()
    }
}

/// The object path that a relative path spells: the root for the empty text,
/// else its segments, provided that each is a valid component.
pub open spec fn parse_path(s: Seq<u8>) -> Option<Seq<Seq<u8>>> {
    if s.len() == 0 {
        Some(Seq::<Seq<u8>>::empty())
    } else if valid_path(split(s)) {
        Some(split(s))
    } else {
        None
    }
}

/// Whether `p` leads to `q` or to something above it.
pub open spec fn is_prefix(p: Seq<Seq<u8>>, q: Seq<Seq<u8>>) -> bool {
    p.len() <= q.len() && q.take(p.len() as int) == p
}

/// Splitting never gives an empty list of segments.
pub proof fn lemma_split_nonempty(s: Seq<u8>)
    ensures
        split(s).len() >= 1,
    decreases s.len(),
{
    if s.len() > 0 {
        lemma_split_nonempty(s.drop_last());
    }
}

/// Joining the segments of a byte string gives the byte string back.
pub proof fn lemma_join_split(s: Seq<u8>)
    ensures
        join(split(s)) == s,
    decreases s.len(),
{
    if s.len() == 0 {
        assert(join(split(s)) =~= s);
    } else {
        let t = s.drop_last();
        let before = split(t);
        lemma_split_nonempty(t);
        lemma_join_split(t);
        if s.last() == SEPARATOR {
            let now = before.push(Seq::<u8>::empty());
            assert(now.drop_last() =~= before);
            assert(join(now) =~= join(before) + seq![SEPARATOR] + Seq::<u8>::empty());
            assert(join(now) =~= t.push(s.last()));
            assert(t.push(s.last()) =~= s);
        } else {
            let last = before.last().push(s.last());
            let now = before.update(before.len() - 1, last);
            lemma_join_last_push(before, s.last());
            assert(t.push(s.last()) =~= s);
        }
    }
}

/// Appending a byte to the last segment appends it to the joined text.
pub proof fn lemma_join_last_push(p: Seq<Seq<u8>>, x: u8)
    requires
        p.len() >= 1,
    ensures
        join(p.update(p.len() - 1, p.last().push(x))) == join(p).push(x),
{
    let now = p.update(p.len() - 1, p.last().push(x));
    if p.len() == 1 {
        assert(join(now) =~= join(p).push(x));
    } else {
        assert(now.drop_last() =~= p.drop_last());
        assert(join(now) =~= join(p).push(x));
    }
}

/// Splitting the joined text of segments that hold no separator gives the
/// segments back.
pub proof fn lemma_split_join(p: Seq<Seq<u8>>)
    requires
        p.len() >= 1,
        forall|i: int, j: int| 0 <= i < p.len() && 0 <= j < p[i].len() ==> p[i][j] != SEPARATOR,
    ensures
        split(join(p)) == p,
    decreases p.len(), p.last().len(),
{
    let last = p.last();
    if last.len() > 0 {
        let shorter = p.update(p.len() - 1, last.drop_last());
        assert(shorter.last().push(last.last()) =~= last);
        assert(shorter.update(shorter.len() - 1, shorter.last().push(last.last())) =~= p);
        lemma_join_last_push(shorter, last.last());
        assert forall|i: int, j: int|
            0 <= i < shorter.len() && 0 <= j < shorter[i].len() implies shorter[i][j]
            != SEPARATOR by {
            if i == p.len() - 1 {
                assert(shorter[i][j] == p[i][j]);
            } else {
                assert(shorter[i] == p[i]);
            }
        }
        lemma_split_join(shorter);
        let s = join(p);
        assert(s.drop_last() =~= join(shorter));
        assert(s.last() == last.last());
        assert(p[p.len() - 1][last.len() - 1] != SEPARATOR);
    } else if p.len() == 1 {
        assert(last =~= Seq::<u8>::empty());
        assert(p[0] == last);
        assert(p =~= seq![Seq::<u8>::empty()]);
        assert(join(p) =~= Seq::<u8>::empty());
    } else {
        let front = p.drop_last();
        assert forall|i: int, j: int|
            0 <= i < front.len() && 0 <= j < front[i].len() implies front[i][j] != SEPARATOR by {
            assert(front[i] == p[i]);
        }
        lemma_split_join(front);
        let s = join(p);
        assert(s =~= join(front).push(SEPARATOR));
        assert(s.drop_last() =~= join(front));
        assert(last =~= Seq::<u8>::empty());
        assert(front.push(Seq::<u8>::empty()) =~= p);
    }
}

/// Whether `c` can be a component of an object path.
pub fn is_valid_component(c: &[u8]) -> (b: bool)
    ensures
        b == valid_component(c@),
{
    if !is_valid_name(c) {
        return false;
    }
    if c.len() == 1 && c[0] == DOT {
        assert(c@ =~= seq![DOT]);
        return false;
    }
    if c.len() == 2 && c[0] == DOT && c[1] == DOT {
        assert(c@ =~= seq![DOT, DOT]);
        return false;
    }
    proof {
        if c@ == seq![DOT] {
            assert(c@.len() == 1 && c@[0] == DOT);
        }
        if c@ == seq![DOT, DOT] {
            assert(c@.len() == 2 && c@[0] == DOT && c@[1] == DOT);
        }
    }
    true
}

/// The values of a list of byte strings.
pub open spec fn segments_view(v: Seq<Vec<u8>>) -> Seq<Seq<u8>> {
    v.map_values(|c: Vec<u8>| c@)
}

/// The segments between the separators of `b`.
pub fn split_bytes(b: &[u8]) -> (out: Vec<Vec<u8>>)
    ensures
        segments_view(out@) == split(b@),
{
    let mut done: Vec<Vec<u8>> = Vec::new();
    let mut cur: Vec<u8> = Vec::new();
    let mut i: usize = 0;
    proof {
        assert(b@.take(0) =~= Seq::<u8>::empty());
        assert(segments_view(done@).push(cur@) =~= split(b@.take(0)));
    }
    while i < b.len()
        invariant
            i <= b@.len(),
            split(b@.take(i as int)) == segments_view(done@).push(cur@),
        decreases b@.len() - i,
    {
        let ghost before = segments_view(done@).push(cur@);
        proof {
            assert(b@.take(i + 1).drop_last() =~= b@.take(i as int));
            assert(b@.take(i + 1).last() == b@[i as int]);
        }
        if b[i] == SEPARATOR {
            let full = cur;
            cur = Vec::new();
            done.push(full);
            proof {
                assert(segments_view(done@) =~= before);
            }
        } else {
            cur.push(b[i]);
            proof {
                assert(segments_view(done@).push(cur@) =~= before.update(
                    before.len() - 1,
                    before.last().push(b@[i as int]),
                ));
            }
        }
        i = i + 1;
    }
    proof {
        assert(b@.take(b@.len() as int) =~= b@);
        let ghost before = segments_view(done@).push(cur@);
        assert(segments_view(done@.push(cur)) =~= before);
    }
    done.push(cur);
    done
}

/// A normalized repository-relative path: a list of valid components. The
/// empty list is the root.
#[derive(Debug)]
pub struct ObjectPath {
    components: Vec<Vec<u8>>,
}

impl View for ObjectPath {
    type V = Seq<Seq<u8>>;

    closed spec fn view(&self) -> Seq<Seq<u8>> {
        segments_view(self.components@)
    }
}

impl ObjectPath {
    /// Every component is a valid component.
    #[verifier::type_invariant]
    pub open spec fn inv(&self) -> bool {
        valid_path(self@)
    }

    /// The root.
    pub fn root() -> (p: ObjectPath)
        ensures
            p@ == Seq::<Seq<u8>>::empty(),
    {
        let p = ObjectPath { components: Vec::new() };
        assert(p@ =~= Seq::<Seq<u8>>::empty());
        p
    }

    /// The object path that the bytes of a relative path spell. Empty
    /// segments, `.` and `..` are refused with `PathInvalid`; so is a leading
    /// separator, which gives an empty first segment.
    pub fn from_bytes(b: &[u8]) -> (r: Result<ObjectPath, Error>)
        ensures
            match r {
                Ok(p) => parse_path(b@) == Some(p@),
                Err(e) => e == Error::PathInvalid && parse_path(b@) is None,
            },
    {
        if b.len() == 0 {
            return Ok(ObjectPath::root());
        }
        let components = split_bytes(b);
        let mut i: usize = 0;
        while i < components.len()
            invariant
                i <= components@.len(),
                b@.len() > 0,
                segments_view(components@) == split(b@),
                forall|k: int| 0 <= k < i ==> valid_component(#[trigger] split(b@)[k]),
            decreases components@.len() - i,
        {
            assert(segments_view(components@)[i as int] == components@[i as int]@);
            if !is_valid_component(components[i].as_slice()) {
                assert(!valid_component(split(b@)[i as int]));
                return Err(Error::PathInvalid);
            }
            i = i + 1;
        }
        Ok(ObjectPath { components })
    }

    /// The object path that a relative path spells.
    pub fn from_path(text: &str) -> (r: Result<ObjectPath, Error>)
        ensures
            match r {
                Ok(p) => parse_path(text.spec_bytes()) == Some(p@),
                Err(e) => e == Error::PathInvalid && parse_path(text.spec_bytes()) is None,
            },
    {
        ObjectPath::from_bytes(text.as_bytes())
    }

    /// The number of components.
    pub fn len(&self) -> (n: usize)
        ensures
            n == self@.len(),
    {
        self.components.len()
    }

    /// Whether this is the root.
    pub fn is_root(&self) -> (b: bool)
        ensures
            b == (self@.len() == 0),
    {
        self.components.len() == 0
    }

    /// The `i`-th component.
    pub fn component(&self, i: usize) -> (c: &Vec<u8>)
        requires
            i < self@.len(),
        ensures
            c@ == self@[i as int],
            valid_component(c@),
    {
        proof {
            use_type_invariant(self);
            assert(self@[i as int] == self.components@[i as int]@);
        }
        &self.components[i]
    }

    /// Whether two paths hold the same components.
    pub fn same(&self, other: &ObjectPath) -> (b: bool)
        ensures
            b == (self@ == other@),
    {
        assert(self@.len() == self.components@.len());
        assert(other@.len() == other.components@.len());
        if self.components.len() != other.components.len() {
            return false;
        }
        let mut i: usize = 0;
        while i < self.components.len()
            invariant
                i <= self@.len(),
                self@.len() == other@.len(),
                forall|k: int| 0 <= k < i ==> self@[k] == other@[k],
            decreases self@.len() - i,
        {
            if !bytes_eq(self.components[i].as_slice(), other.components[i].as_slice()) {
                assert(self@[i as int] != other@[i as int]);
                return false;
            }
            i = i + 1;
        }
        assert(self@ =~= other@);
        true
    }

    /// Whether this path leads to `other` or to something above it.
    pub fn is_prefix_of(&self, other: &ObjectPath) -> (b: bool)
        ensures
            b == is_prefix(self@, other@),
    {
        assert(self@.len() == self.components@.len());
        assert(other@.len() == other.components@.len());
        if self.components.len() > other.components.len() {
            return false;
        }
        let mut i: usize = 0;
        while i < self.components.len()
            invariant
                i <= self@.len() <= other@.len(),
                forall|k: int| 0 <= k < i ==> self@[k] == other@[k],
            decreases self@.len() - i,
        {
            if !bytes_eq(self.components[i].as_slice(), other.components[i].as_slice()) {
                assert(other@.take(self@.len() as int)[i as int] != self@[i as int]);
                return false;
            }
            i = i + 1;
        }
        assert(other@.take(self@.len() as int) =~= self@);
        true
    }

    /// The components from position `from` on.
    pub fn suffix(&self, from: usize) -> (p: ObjectPath)
        requires
            from <= self@.len(),
        ensures
            p@ == self@.skip(from as int),
    {
        proof {
            use_type_invariant(self);
        }
        let mut components: Vec<Vec<u8>> = Vec::new();
        let mut i: usize = from;
        while i < self.components.len()
            invariant
                from <= i <= self@.len(),
                components@.len() == i - from,
                forall|k: int| 0 <= k < i - from ==> components@[k]@ == self@[from + k],
            decreases self@.len() - i,
        {
            let c = &self.components[i];
            let n = c.len();
            components.push(bytes_copy(c.as_slice(), 0, n));
            proof {
                assert(c@.subrange(0, n as int) =~= c@);
            }
            i = i + 1;
        }
        assert(segments_view(components@) =~= self@.skip(from as int));
        ObjectPath { components }
    }

    /// A copy of this path.
    pub fn duplicate(&self) -> (p: ObjectPath)
        ensures
            p@ == self@,
    {
        let p = self.suffix(0);
        assert(self@.skip(0) =~= self@);
        p
    }

    /// This path followed by the components of `rest`.
    pub fn concat(&self, rest: &ObjectPath) -> (p: ObjectPath)
        ensures
            p@ == self@ + rest@,
    {
        proof {
            use_type_invariant(self);
            use_type_invariant(rest);
        }
        let mut components: Vec<Vec<u8>> = self.duplicate().components;
        let mut i: usize = 0;
        while i < rest.components.len()
            invariant
                i <= rest@.len(),
                segments_view(components@) == self@ + rest@.take(i as int),
            decreases rest@.len() - i,
        {
            let c = &rest.components[i];
            let n = c.len();
            let ghost before = segments_view(components@);
            components.push(bytes_copy(c.as_slice(), 0, n));
            proof {
                assert(c@.subrange(0, n as int) =~= c@);
                assert(segments_view(components@) =~= before.push(c@));
                assert(before.push(c@) =~= self@ + rest@.take(i + 1));
            }
            i = i + 1;
        }
        proof {
            assert(rest@.take(rest@.len() as int) =~= rest@);
            assert forall|k: int| 0 <= k < (self@ + rest@).len() implies valid_component(
                #[trigger] (self@ + rest@)[k],
            ) by {
                if k < self@.len() {
                    assert((self@ + rest@)[k] == self@[k]);
                } else {
                    assert((self@ + rest@)[k] == rest@[k - self@.len()]);
                }
            }
        }
        ObjectPath { components }
    }

    /// The path as bytes: the components joined by separators.
    pub fn to_bytes(&self) -> (out: Vec<u8>)
        ensures
            out@ == join(self@),
    {
        let mut out: Vec<u8> = Vec::new();
        let mut i: usize = 0;
        proof {
            assert(self@.take(0) =~= Seq::<Seq<u8>>::empty());
        }
        while i < self.components.len()
            invariant
                i <= self@.len(),
                out@ == join(self@.take(i as int)),
            decreases self@.len() - i,
        {
            proof {
                assert(self@.take(i + 1).drop_last() =~= self@.take(i as int));
                assert(self@.take(i + 1).last() == self@[i as int]);
            }
            if i > 0 {
                out.push(SEPARATOR);
            }
            bytes_append(&mut out, self.components[i].as_slice());
            proof {
                if i == 0 {
                    assert(out@ =~= self@[0]);
                } else {
                    assert(out@ =~= join(self@.take(i as int)) + seq![SEPARATOR] + self@[i as int]);
                }
            }
            i = i + 1;
        }
        proof {
            assert(self@.take(self@.len() as int) =~= self@);
        }
        out
    }
}

/// A path written out and read again is the same path.
pub proof fn lemma_path_round_trip(p: Seq<Seq<u8>>)
    requires
        valid_path(p),
    ensures
        parse_path(join(p)) == Some(p),
{
    if p.len() == 0 {
        assert(p =~= Seq::<Seq<u8>>::empty());
    } else {
        assert forall|i: int, j: int| 0 <= i < p.len() && 0 <= j < p[i].len() implies p[i][j]
            != SEPARATOR by {
            assert(valid_component(p[i]));
        }
        lemma_split_join(p);
        lemma_join_nonempty(p);
    }
}

/// The joined text of valid components is not empty.
pub proof fn lemma_join_nonempty(p: Seq<Seq<u8>>)
    requires
        p.len() >= 1,
        valid_path(p),
    ensures
        join(p).len() > 0,
{
    assert(valid_component(p[p.len() - 1]));
    if p.len() == 1 {
    } else {
        assert(join(p) == join(p.drop_last()) + seq![SEPARATOR] + p.last());
    }
}

} // verus!
