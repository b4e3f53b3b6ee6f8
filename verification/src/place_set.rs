//! An unordered, deduplicated set of places.
//!
//! The set of memory locations an analysis currently tracks, at whatever
//! granularity.  Membership is binary: no ordering, no multiplicity.

use vstd::prelude::*;
use crate::place::{Place, PlaceModel, is_prefix, is_prefix_model};

verus! {

/// A set of places: the locations tracked by the calling analysis.
pub struct PlaceSet {
    places: Vec<Place>,
}

impl View for PlaceSet {
    type V = Set<PlaceModel>;

    closed spec fn view(&self) -> Set<PlaceModel> {
        self.places@.map_values(|p: Place| p@).to_set()
    }
}

impl PlaceSet {
    /// The stored places, in storage order.
    pub closed spec fn models(&self) -> Seq<PlaceModel> {
        self.places@.map_values(|p: Place| p@)
    }

    /// The representation holds each place at most once.
    pub closed spec fn wf(&self) -> bool {
        self.models().no_duplicates()
    }

    /// The empty set.
    pub fn new() -> (r: PlaceSet)
        ensures
            r.wf(),
            r@ == Set::<PlaceModel>::empty(),
    {
        let r = PlaceSet { places: Vec::new() };
        proof {
            assert(r.models() =~= Seq::<PlaceModel>::empty());
            assert(r@ =~= Set::<PlaceModel>::empty());
        }
        r
    }

    /// How many places the set holds.
    pub fn len(&self) -> (n: usize)
        requires
            self.wf(),
        ensures
            n == self@.len(),
    {
        proof {
            self.models().unique_seq_to_set();
        }
        self.places.len()
    }

    /// Whether `p` is in the set.
    pub fn contains(&self, p: &Place) -> (r: bool)
        ensures
            r == self@.contains(p@),
    {
        let n: usize = self.places.len();
        let mut i: usize = 0;
        while i < n
            invariant
                i <= n,
                n == self.places@.len(),
                forall|j: int| 0 <= j < i ==> self.models()[j] != p@,
            decreases n - i,
        {
            if self.places[i].equals(p) {
                proof {
                    assert(self.models()[i as int] == p@);
                    assert(self.models().contains(p@));
                }
                return true;
            }
            i += 1;
        }
        proof {
            assert(!self.models().contains(p@));
        }
        false
    }

    /// Adds `p` to the set; a no-op if it is already present.
    pub fn insert(&mut self, p: Place)
        requires
            old(self).wf(),
        ensures
            final(self).wf(),
            final(self)@ == old(self)@.insert(p@),
    {
        if self.contains(&p) {
            proof {
                assert(self@ =~= old(self)@.insert(p@));
            }
        } else {
            let ghost oldm = self.models();
            let ghost m = p@;
            self.places.push(p);
            proof {
                assert(self.models() =~= oldm.push(m));
                assert(!oldm.contains(m));
                assert forall|i: int, j: int|
                    0 <= i < self.models().len() && 0 <= j < self.models().len() && i != j
                    implies self.models()[i] != self.models()[j] by {
                    if i < oldm.len() && j < oldm.len() {
                        assert(oldm.no_duplicates());
                    } else if j == oldm.len() {
                        if self.models()[i] == self.models()[j] {
                            assert(oldm[i] == m);
                            assert(oldm.contains(m));
                        }
                    } else {
                        if self.models()[i] == self.models()[j] {
                            assert(oldm[j] == m);
                            assert(oldm.contains(m));
                        }
                    }
                }
                assert forall|x: PlaceModel| self@.contains(x)
                    implies old(self)@.insert(m).contains(x) by {
                    let i = choose|i: int|
                        0 <= i < self.models().len() && self.models()[i] == x;
                    if i < oldm.len() {
                        assert(oldm.contains(x));
                    }
                }
                assert forall|x: PlaceModel| old(self)@.insert(m).contains(x)
                    implies self@.contains(x) by {
                    if x == m {
                        assert(self.models()[oldm.len() as int] == x);
                        assert(self.models().contains(x));
                    } else {
                        let i = choose|i: int| 0 <= i < oldm.len() && oldm[i] == x;
                        assert(self.models()[i] == x);
                        assert(self.models().contains(x));
                    }
                }
                assert(self@ =~= old(self)@.insert(m));
            }
        }
    }

    /// Where `p` is stored, if it is present.
    fn index_of(&self, p: &Place) -> (r: Option<usize>)
        ensures
            match r {
                Some(i) => i < self.models().len() && self.models()[i as int] == p@,
                None => !self.models().contains(p@),
            },
    {
        let n: usize = self.places.len();
        let mut i: usize = 0;
        while i < n
            invariant
                i <= n,
                n == self.places@.len(),
                forall|j: int| 0 <= j < i ==> self.models()[j] != p@,
            decreases n - i,
        {
            if self.places[i].equals(p) {
                return Some(i);
            }
            i += 1;
        }
        None
    }

    /// Removes `p` from the set; a no-op if it is absent.
    pub fn remove(&mut self, p: &Place)
        requires
            old(self).wf(),
        ensures
            final(self).wf(),
            final(self)@ == old(self)@.remove(p@),
    {
        let ghost m = p@;
        match self.index_of(p) {
            Some(i) => {
                let ghost oldm = self.models();
                self.places.remove(i);
                proof {
                    oldm.remove_ensures(i as int);
                    assert(self.models() =~= oldm.remove(i as int));
                    assert(oldm[i as int] == m);
                    assert forall|a: int, b: int|
                        0 <= a < self.models().len() && 0 <= b < self.models().len() && a != b
                        implies self.models()[a] != self.models()[b] by {
                        let a0: int = if a < i { a } else { a + 1 };
                        let b0: int = if b < i { b } else { b + 1 };
                        assert(self.models()[a] == oldm[a0]);
                        assert(self.models()[b] == oldm[b0]);
                    }
                    assert forall|x: PlaceModel| self@.contains(x)
                        implies old(self)@.remove(m).contains(x) by {
                        let j = choose|j: int|
                            0 <= j < self.models().len() && self.models()[j] == x;
                        let j0: int = if j < i { j } else { j + 1 };
                        assert(oldm[j0] == x);
                        assert(oldm.contains(x));
                        assert(x != m);
                    }
                    assert forall|x: PlaceModel| old(self)@.remove(m).contains(x)
                        implies self@.contains(x) by {
                        let j = choose|j: int| 0 <= j < oldm.len() && oldm[j] == x;
                        assert(j != i);
                        let j1: int = if j < i { j } else { j - 1 };
                        assert(self.models()[j1] == x);
                        assert(self.models().contains(x));
                    }
                    assert(self@ =~= old(self)@.remove(m));
                }
            },
            None => {
                proof {
                    assert(self@ =~= old(self)@.remove(m));
                }
            },
        }
    }

    /// Some place in the set of which `target` is an extension (or
    /// `target` itself), if any is present.
    pub fn find_prefix_of(&self, target: &Place) -> (r: Option<Place>)
        ensures
            match r {
                Some(p) => self@.contains(p@) && is_prefix_model(target@, p@),
                None => forall|x: PlaceModel|
                    self@.contains(x) ==> !is_prefix_model(target@, x),
            },
    {
        let n: usize = self.places.len();
        let mut i: usize = 0;
        while i < n
            invariant
                i <= n,
                n == self.places@.len(),
                forall|j: int| 0 <= j < i ==> !is_prefix_model(target@, self.models()[j]),
            decreases n - i,
        {
            if is_prefix(target, &self.places[i]) {
                let found = self.places[i].duplicate();
                proof {
                    assert(self.models()[i as int] == found@);
                    assert(self.models().contains(found@));
                }
                return Some(found);
            }
            i += 1;
        }
        proof {
            assert forall|x: PlaceModel| self@.contains(x)
                implies !is_prefix_model(target@, x) by {
                let j = choose|j: int|
                    0 <= j < self.models().len() && self.models()[j] == x;
            }
        }
        None
    }
}

} // verus!
