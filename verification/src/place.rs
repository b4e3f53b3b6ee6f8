//! Places and the prefix relation.
//!
//! A place is a pair of a root local variable and an ordered sequence of
//! projections.  Places are immutable: the algebra only builds new places by
//! copying and extending or truncating the projection sequence.

use vstd::prelude::*;

verus! {

/// One step of a place path.
#[derive(Clone, Copy, PartialEq, Eq, Structural, Debug)]
pub enum Projection {
    /// Selects one field of a struct, a tuple, or a downcast enum variant.
    Field(usize),
    /// Follows a reference to its single pointee.
    Deref,
    /// Narrows an enum place to one of its variants.
    Downcast(usize),
}

/// A path to a memory location: a root local refined by projections.
pub struct Place {
    pub local: usize,
    pub projection: Vec<Projection>,
}

/// The mathematical value of a [`Place`].
pub ghost struct PlaceModel {
    pub local: nat,
    pub projection: Seq<Projection>,
}

impl PlaceModel {
    /// The place one projection step deeper.
    pub open spec fn child(self, elem: Projection) -> PlaceModel {
        PlaceModel { local: self.local, projection: self.projection.push(elem) }
    }

    /// The place one projection step shallower.
    pub open spec fn parent(self) -> PlaceModel {
        PlaceModel { local: self.local, projection: self.projection.drop_last() }
    }

    /// The place cut down to its first `n` projection steps.
    pub open spec fn trunc(self, n: int) -> PlaceModel {
        PlaceModel { local: self.local, projection: self.projection.subrange(0, n) }
    }
}

impl View for Place {
    type V = PlaceModel;

    open spec fn view(&self) -> PlaceModel {
        PlaceModel { local: self.local as nat, projection: self.projection@ }
    }
}

/// `prefix` is an ancestor of `place` or `place` itself: same root, and
/// `place`'s projection sequence begins with exactly `prefix`'s.
pub open spec fn is_prefix_model(place: PlaceModel, prefix: PlaceModel) -> bool {
    &&& place.local == prefix.local
    &&& prefix.projection.len() <= place.projection.len()
    &&& place.projection.subrange(0, prefix.projection.len() as int) == prefix.projection
}

impl Place {
    /// A root place: a bare local with no projections.
    pub fn new(local: usize) -> (r: Place)
        ensures
            r@ == (PlaceModel { local: local as nat, projection: Seq::<Projection>::empty() }),
    {
        Place { local, projection: Vec::new() }
    }

    /// A structurally equal copy of this place.
    pub fn duplicate(&self) -> (r: Place)
        ensures
            r@ == self@,
    {
        let mut projection: Vec<Projection> = Vec::new();
        let n: usize = self.projection.len();
        let mut i: usize = 0;
        while i < n
            invariant
                i <= n,
                n == self.projection.len(),
                projection@ == self.projection@.subrange(0, i as int),
            decreases n - i,
        {
            projection.push(self.projection[i]);
            i += 1;
        }
        proof {
            assert(projection@ =~= self.projection@);
        }
        Place { local: self.local, projection }
    }

    /// This place extended by one projection step.
    pub fn child(&self, elem: Projection) -> (r: Place)
        ensures
            r@ == self@.child(elem),
    {
        let mut r = self.duplicate();
        r.projection.push(elem);
        r
    }

    /// This place with its last projection step removed.
    pub fn parent(&self) -> (r: Place)
        requires
            self@.projection.len() > 0,
        ensures
            r@ == self@.parent(),
    {
        let mut r = self.duplicate();
        r.projection.pop();
        proof {
            assert(r.projection@ =~= self@.projection.drop_last());
        }
        r
    }

    /// This place cut down to its first `n` projection steps.
    pub fn truncated(&self, n: usize) -> (r: Place)
        requires
            n <= self@.projection.len(),
        ensures
            r@ == self@.trunc(n as int),
    {
        let mut projection: Vec<Projection> = Vec::new();
        let mut i: usize = 0;
        while i < n
            invariant
                i <= n,
                n <= self.projection.len(),
                projection@ == self.projection@.subrange(0, i as int),
            decreases n - i,
        {
            projection.push(self.projection[i]);
            i += 1;
        }
        Place { local: self.local, projection }
    }

    /// Structural equality of two places.
    pub fn equals(&self, other: &Place) -> (r: bool)
        ensures
            r == (self@ == other@),
    {
        if self.local != other.local {
            return false;
        }
        if self.projection.len() != other.projection.len() {
            return false;
        }
        let n: usize = self.projection.len();
        let mut i: usize = 0;
        while i < n
            invariant
                i <= n,
                n == self.projection.len(),
                n == other.projection.len(),
                self.local == other.local,
                forall|j: int| 0 <= j < i ==> self.projection@[j] == other.projection@[j],
            decreases n - i,
        {
            if self.projection[i] != other.projection[i] {
                return false;
            }
            i += 1;
        }
        proof {
            assert(self.projection@ =~= other.projection@);
        }
        true
    }
}

/// Whether `potential_prefix` is a prefix of `place`: the same root local,
/// and `place`'s projection sequence starts with `potential_prefix`'s,
/// element for element.
pub fn is_prefix(place: &Place, potential_prefix: &Place) -> (r: bool)
    ensures
        r == is_prefix_model(place@, potential_prefix@),
{
    if place.local != potential_prefix.local {
        return false;
    }
    if potential_prefix.projection.len() > place.projection.len() {
        return false;
    }
    let n: usize = potential_prefix.projection.len();
    let mut i: usize = 0;
    while i < n
        invariant
            i <= n,
            n == potential_prefix.projection.len(),
            n <= place.projection.len(),
            forall|j: int| 0 <= j < i ==> place.projection@[j] == potential_prefix.projection@[j],
        decreases n - i,
    {
        if place.projection[i] != potential_prefix.projection[i] {
            proof {
                assert(place.projection@.subrange(0, n as int)[i as int]
                    != potential_prefix.projection@[i as int]);
            }
            return false;
        }
        i += 1;
    }
    proof {
        assert(place.projection@.subrange(0, n as int) =~= potential_prefix.projection@);
    }
    true
}

/// The prefix relation is reflexive: every place is a prefix of itself.
pub proof fn lemma_is_prefix_reflexive(p: PlaceModel)
    ensures
        is_prefix_model(p, p),
{
    assert(p.projection.subrange(0, p.projection.len() as int) =~= p.projection);
}

/// Two distinct siblings — places built from one parent by two different
/// one-step projections — are never in a prefix relation with each other.
pub proof fn lemma_siblings_not_prefix(base: PlaceModel, e1: Projection, e2: Projection)
    requires
        e1 != e2,
    ensures
        !is_prefix_model(base.child(e1), base.child(e2)),
        !is_prefix_model(base.child(e2), base.child(e1)),
{
    let n = base.projection.len() as int;
    if is_prefix_model(base.child(e1), base.child(e2)) {
        assert(base.child(e1).projection.subrange(0, n + 1)[n] == e1);
    }
    if is_prefix_model(base.child(e2), base.child(e1)) {
        assert(base.child(e2).projection.subrange(0, n + 1)[n] == e2);
    }
}

/// Two prefixes of one place are comparable: the shorter is a prefix of
/// the longer.
pub proof fn lemma_prefixes_comparable(t: PlaceModel, a: PlaceModel, b: PlaceModel)
    requires
        is_prefix_model(t, a),
        is_prefix_model(t, b),
        a.projection.len() <= b.projection.len(),
    ensures
        is_prefix_model(b, a),
{
    let la = a.projection.len() as int;
    let lb = b.projection.len() as int;
    assert forall|i: int| 0 <= i < la
        implies b.projection.subrange(0, la)[i] == a.projection[i] by {
        assert(t.projection.subrange(0, la)[i] == t.projection[i]);
        assert(t.projection.subrange(0, lb)[i] == t.projection[i]);
    }
    assert(b.projection.subrange(0, la) =~= a.projection);
}

/// `e` leaves the path of `s` at step `k`: their projections agree
/// strictly below `k` and differ at `k`.
pub open spec fn diverge_at(e: PlaceModel, s: PlaceModel, k: int) -> bool {
    &&& 0 <= k < e.projection.len()
    &&& k < s.projection.len()
    &&& e.projection.subrange(0, k) == s.projection.subrange(0, k)
    &&& e.projection[k] != s.projection[k]
}

/// `e` shares `s`'s root local but leaves its path at some step.
pub open spec fn branches_off(e: PlaceModel, s: PlaceModel) -> bool {
    &&& e.local == s.local
    &&& exists|k: int| diverge_at(e, s, k)
}

/// Neither of two places is a prefix of the other: their denotations are
/// disjoint regions of memory.
pub open spec fn incomparable(a: PlaceModel, b: PlaceModel) -> bool {
    !is_prefix_model(a, b) && !is_prefix_model(b, a)
}

/// A place that branches off another is incomparable with it.
pub proof fn lemma_branches_off_incomparable(e: PlaceModel, s: PlaceModel)
    requires
        branches_off(e, s),
    ensures
        incomparable(e, s),
        e != s,
{
    let k = choose|k: int| diverge_at(e, s, k);
    if is_prefix_model(e, s) {
        assert(e.projection.subrange(0, s.projection.len() as int)[k] == e.projection[k]);
    }
    if is_prefix_model(s, e) {
        assert(s.projection.subrange(0, e.projection.len() as int)[k] == s.projection[k]);
    }
    if e == s {
        assert(e.projection[k] != s.projection[k]);
    }
}

/// Divergence survives extension: a place that leaves the path of `s` at
/// step `k` also leaves the path of every extension of `s` at step `k`.
pub proof fn lemma_diverge_extend(e: PlaceModel, s: PlaceModel, s2: PlaceModel, k: int)
    requires
        diverge_at(e, s, k),
        is_prefix_model(s2, s),
    ensures
        diverge_at(e, s2, k),
{
    let ls = s.projection.len() as int;
    assert forall|i: int| 0 <= i < k
        implies s2.projection.subrange(0, k)[i] == e.projection.subrange(0, k)[i] by {
        assert(s2.projection.subrange(0, ls)[i] == s2.projection[i]);
        assert(e.projection.subrange(0, k)[i] == s.projection.subrange(0, k)[i]);
    }
    assert(s2.projection.subrange(0, k) =~= e.projection.subrange(0, k));
    assert(s2.projection.subrange(0, ls)[k] == s2.projection[k]);
}

/// The prefix relation is transitive.
pub proof fn lemma_prefix_transitive(a: PlaceModel, b: PlaceModel, c: PlaceModel)
    requires
        is_prefix_model(a, b),
        is_prefix_model(b, c),
    ensures
        is_prefix_model(a, c),
{
    let lb = b.projection.len() as int;
    let lc = c.projection.len() as int;
    assert forall|i: int| 0 <= i < lc
        implies a.projection.subrange(0, lc)[i] == c.projection[i] by {
        assert(a.projection.subrange(0, lb)[i] == a.projection[i]);
        assert(b.projection.subrange(0, lc)[i] == b.projection[i]);
    }
    assert(a.projection.subrange(0, lc) =~= c.projection);
}

/// A prefix of a place is a prefix of every truncation long enough to
/// still contain it.
pub proof fn lemma_prefix_of_trunc(s: PlaceModel, m: PlaceModel, l: int)
    requires
        is_prefix_model(s, m),
        m.projection.len() <= l <= s.projection.len(),
    ensures
        is_prefix_model(s.trunc(l), m),
{
    let lm = m.projection.len() as int;
    assert forall|i: int| 0 <= i < lm
        implies s.trunc(l).projection.subrange(0, lm)[i] == m.projection[i] by {
        assert(s.projection.subrange(0, l)[i] == s.projection[i]);
        assert(s.projection.subrange(0, lm)[i] == s.projection[i]);
    }
    assert(s.trunc(l).projection.subrange(0, lm) =~= m.projection);
}

/// Every place extends its own parent.
pub proof fn lemma_parent_prefix(s: PlaceModel)
    requires
        s.projection.len() > 0,
    ensures
        is_prefix_model(s, s.parent()),
{
    assert(s.projection.subrange(0, (s.projection.len() - 1) as int)
        =~= s.projection.drop_last());
}

/// Every child extends its parent by one step.
pub proof fn lemma_child_prefix(b: PlaceModel, e: Projection)
    ensures
        is_prefix_model(b.child(e), b),
        b.child(e).projection.len() == b.projection.len() + 1,
{
    assert(b.child(e).projection.subrange(0, b.projection.len() as int) =~= b.projection);
}

} // verus!
