//! The place-set normalizer: the façade the calling analysis uses.
//!
//! `refine` makes a target place available at exactly the needed
//! granularity, splitting a coarser ancestor already tracked if necessary;
//! `generalize` folds complete sibling groups back into their parents.
//! Neither ever builds an expand or collapse call with an invalid prefix
//! relationship.

use vstd::prelude::*;
use crate::place::{Place, PlaceModel, is_prefix_model, lemma_prefixes_comparable};
use crate::typing::{TypeOracle, lemma_wf_trunc, wf_place};
use crate::expand::{expand, expand_model};
use crate::place_set::PlaceSet;
use crate::collapse::{collapse, collapse_model, lemma_to_set_push, models_of};

verus! {

/// No tracked place is an ancestor of another: the granularities in the
/// set denote pairwise disjoint memory.
pub open spec fn pairwise_incomparable(s: Set<PlaceModel>) -> bool {
    forall|a: PlaceModel, b: PlaceModel|
        s.contains(a) && s.contains(b) && a != b ==> !is_prefix_model(a, b)
}

/// Makes `target_place` present at exactly the needed granularity: if a
/// strict ancestor of it is tracked, that ancestor is split by `expand`
/// into the target and the siblings along the way; if the target itself is
/// tracked, or nothing above it is, the set is left as it is.
pub fn refine(oracle: &TypeOracle, places: &mut PlaceSet, target_place: &Place)
    requires
        old(places).wf(),
        wf_place(oracle@, target_place@),
        pairwise_incomparable(old(places)@),
    ensures
        final(places).wf(),
        (forall|m: PlaceModel| old(places)@.contains(m)
            ==> !(is_prefix_model(target_place@, m) && m != target_place@))
            ==> final(places)@ == old(places)@,
        forall|m: PlaceModel|
            old(places)@.contains(m) && is_prefix_model(target_place@, m)
                && m != target_place@
            ==> final(places)@ == old(places)@.remove(m)
                .union(expand_model(oracle@, m, target_place@).to_set())
                .insert(target_place@),
{
    let found = places.find_prefix_of(target_place);
    match found {
        None => {
        },
        Some(p) => {
            if p.equals(target_place) {
                proof {
                    assert forall|m: PlaceModel|
                        old(places)@.contains(m) && is_prefix_model(target_place@, m)
                            && m != target_place@
                        implies places@ == old(places)@.remove(m)
                            .union(expand_model(oracle@, m, target_place@).to_set())
                            .insert(target_place@) by {
                        assert(old(places)@.contains(target_place@));
                        assert(!is_prefix_model(target_place@, m));
                    }
                }
            } else {
                proof {
                    let k = p@.projection.len() as int;
                    assert(target_place@.trunc(k) == p@);
                    lemma_wf_trunc(oracle@, target_place@, k);
                }
                places.remove(&p);
                let pieces = expand(oracle, &p, target_place);
                let ghost after_remove = places@;
                let n: usize = pieces.len();
                let mut j: usize = 0;
                proof {
                    assert(models_of(pieces@).subrange(0, 0).to_set()
                        =~= Set::<PlaceModel>::empty());
                    assert(places@ =~= after_remove.union(
                        models_of(pieces@).subrange(0, 0).to_set()));
                }
                while j < n
                    invariant
                        j <= n,
                        n == pieces@.len(),
                        places.wf(),
                        places@ == after_remove.union(
                            models_of(pieces@).subrange(0, j as int).to_set()),
                    decreases n - j,
                {
                    let ghost taken = models_of(pieces@).subrange(0, j as int);
                    let piece = pieces[j].duplicate();
                    places.insert(piece);
                    proof {
                        assert(taken.push(pieces@[j as int]@)
                            =~= models_of(pieces@).subrange(0, j + 1));
                        lemma_to_set_push(taken, pieces@[j as int]@);
                        assert(after_remove.union(taken.to_set()).insert(pieces@[j as int]@)
                            =~= after_remove.union(
                                models_of(pieces@).subrange(0, j + 1).to_set()));
                    }
                    j += 1;
                }
                proof {
                    assert(models_of(pieces@).subrange(0, n as int) =~= models_of(pieces@));
                }
                places.insert(target_place.duplicate());
                proof {
                    assert(models_of(pieces@).to_set()
                        == expand_model(oracle@, p@, target_place@).to_set());
                    assert(places@ =~= old(places)@.remove(p@)
                        .union(expand_model(oracle@, p@, target_place@).to_set())
                        .insert(target_place@));
                    assert forall|m: PlaceModel|
                        old(places)@.contains(m) && is_prefix_model(target_place@, m)
                            && m != target_place@
                        implies places@ == old(places)@.remove(m)
                            .union(expand_model(oracle@, m, target_place@).to_set())
                            .insert(target_place@) by {
                        if m != p@ {
                            if m.projection.len() <= p@.projection.len() {
                                lemma_prefixes_comparable(target_place@, m, p@);
                                assert(is_prefix_model(p@, m));
                            } else {
                                lemma_prefixes_comparable(target_place@, p@, m);
                                assert(is_prefix_model(m, p@));
                            }
                            assert(false);
                        }
                    }
                }
            }
        },
    }
}

/// Normalizes the set toward the coarsest granularity consistent with what
/// is tracked, by collapsing along `guide_place`.
pub fn generalize(oracle: &TypeOracle, places: &mut PlaceSet, guide_place: &Place)
    requires
        old(places).wf(),
        wf_place(oracle@, guide_place@),
    ensures
        final(places).wf(),
        final(places)@ == collapse_model(oracle@, old(places)@, guide_place@),
{
    collapse(oracle, places, guide_place);
}

} // verus!
