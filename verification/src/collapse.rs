//! The collapse operation: folding complete sibling groups back into their
//! parent place.
//!
//! Collapse walks a guide place from its deepest prefix upward.  At each
//! level it takes the full sibling group of the current parent; when every
//! sibling is tracked, the group is replaced by the parent, and the walk
//! continues one level up.  The first incomplete group stops the walk:
//! collapse is all or nothing at each level.

use vstd::prelude::*;
use crate::place::{Place, PlaceModel, Projection};
use crate::typing::{TypeOracle, TypeTree, lemma_wf_parent, state_of, wf_place};
use crate::expand::{expand_struct_place, expansion_model, may_expand};
use crate::place_set::PlaceSet;

verus! {

/// The models of a sequence of places.
pub open spec fn models_of(s: Seq<Place>) -> Seq<PlaceModel> {
    s.map_values(|p: Place| p@)
}

/// The full sibling group at one level of the collapse walk: the children
/// of `base`, except that for a downcast step — whose child is unique —
/// the group is just the downcast place itself.
pub open spec fn group_model(locals: Seq<TypeTree>, base: PlaceModel, elem: Projection)
    -> Seq<PlaceModel> {
    match elem {
        Projection::Downcast(_) => seq![base.child(elem)],
        _ => expansion_model(locals, base, None),
    }
}

/// What `collapse` leaves in the set: walking the guide from its deepest
/// prefix upward, each complete sibling group is replaced by its parent;
/// the first incomplete group stops the walk with the set as it stands.
pub open spec fn collapse_model(locals: Seq<TypeTree>, s: Set<PlaceModel>, guide: PlaceModel)
    -> Set<PlaceModel>
    decreases guide.projection.len(),
{
    if guide.projection.len() == 0 {
        s
    } else {
        let base = guide.parent();
        let group = group_model(locals, base, guide.projection.last()).to_set();
        if group.subset_of(s) {
            collapse_model(locals, s.difference(group).insert(base), base)
        } else {
            s
        }
    }
}

/// Turning a sequence into a set commutes with appending one element.
pub proof fn lemma_to_set_push(s: Seq<PlaceModel>, x: PlaceModel)
    ensures
        s.push(x).to_set() == s.to_set().insert(x),
{
    assert forall|y: PlaceModel| s.push(x).to_set().contains(y)
        implies s.to_set().insert(x).contains(y) by {
        let i = choose|i: int| 0 <= i < s.push(x).len() && s.push(x)[i] == y;
        if i < s.len() {
            assert(s[i] == y);
            assert(s.contains(y));
        }
    }
    assert forall|y: PlaceModel| s.to_set().insert(x).contains(y)
        implies s.push(x).to_set().contains(y) by {
        if y == x {
            assert(s.push(x)[s.len() as int] == y);
            assert(s.push(x).contains(y));
        } else {
            let i = choose|i: int| 0 <= i < s.len() && s[i] == y;
            assert(s.push(x)[i] == y);
            assert(s.push(x).contains(y));
        }
    }
    assert(s.push(x).to_set() =~= s.to_set().insert(x));
}

/// Removes every place of `group` from `places`.
fn remove_all(places: &mut PlaceSet, group: &Vec<Place>)
    requires
        old(places).wf(),
    ensures
        final(places).wf(),
        final(places)@ == old(places)@.difference(models_of(group@).to_set()),
{
    let n: usize = group.len();
    let mut j: usize = 0;
    proof {
        assert(models_of(group@).subrange(0, 0).to_set() =~= Set::<PlaceModel>::empty());
        assert(places@ =~= places@.difference(models_of(group@).subrange(0, 0).to_set()));
    }
    while j < n
        invariant
            j <= n,
            n == group@.len(),
            places.wf(),
            places@ == old(places)@.difference(models_of(group@).subrange(0, j as int).to_set()),
        decreases n - j,
    {
        let ghost taken = models_of(group@).subrange(0, j as int);
        places.remove(&group[j]);
        proof {
            assert(taken.push(group@[j as int]@) =~= models_of(group@).subrange(0, j + 1));
            lemma_to_set_push(taken, group@[j as int]@);
            assert(old(places)@.difference(taken.to_set()).remove(group@[j as int]@)
                =~= old(places)@.difference(models_of(group@).subrange(0, j + 1).to_set()));
        }
        j += 1;
    }
    proof {
        assert(models_of(group@).subrange(0, n as int) =~= models_of(group@));
    }
}

/// Whether every place of `group` is in `places`.
fn all_contained(places: &PlaceSet, group: &Vec<Place>) -> (r: bool)
    ensures
        r == models_of(group@).to_set().subset_of(places@),
{
    let n: usize = group.len();
    let mut j: usize = 0;
    while j < n
        invariant
            j <= n,
            n == group@.len(),
            forall|k: int| 0 <= k < j ==> places@.contains(models_of(group@)[k]),
        decreases n - j,
    {
        if !places.contains(&group[j]) {
            proof {
                assert(models_of(group@)[j as int] == group@[j as int]@);
                assert(models_of(group@).contains(models_of(group@)[j as int]));
                assert(models_of(group@).to_set().contains(models_of(group@)[j as int]));
            }
            return false;
        }
        j += 1;
    }
    proof {
        assert forall|x: PlaceModel| models_of(group@).to_set().contains(x)
            implies places@.contains(x) by {
            let k = choose|k: int|
                0 <= k < models_of(group@).len() && models_of(group@)[k] == x;
        }
    }
    true
}

/// Tries to fold the places in `places` together by following
/// `guide_place`: at each level, from the guide's deepest prefix upward,
/// the full sibling group of the current parent is replaced by the parent
/// itself, provided every sibling is present.  The walk stops at the first
/// level whose group is incomplete; no level is ever merged partially.
pub fn collapse(oracle: &TypeOracle, places: &mut PlaceSet, guide_place: &Place)
    requires
        old(places).wf(),
        wf_place(oracle@, guide_place@),
    ensures
        final(places).wf(),
        final(places)@ == collapse_model(oracle@, old(places)@, guide_place@),
{
    let mut current = guide_place.duplicate();
    while current.projection.len() > 0
        invariant
            places.wf(),
            wf_place(oracle@, current@),
            collapse_model(oracle@, old(places)@, guide_place@)
                == collapse_model(oracle@, places@, current@),
        decreases current@.projection.len(),
    {
        let last_idx: usize = current.projection.len() - 1;
        let elem = current.projection[last_idx];
        proof {
            assert(current@.projection.last() == elem);
            lemma_wf_parent(oracle@, current@);
        }
        let base = current.parent();
        let group: Vec<Place> = match elem {
            Projection::Downcast(_) => {
                let mut g: Vec<Place> = Vec::new();
                g.push(base.child(elem));
                proof {
                    assert(models_of(g@) =~= group_model(oracle@, base@, elem));
                }
                g
            },
            _ => {
                proof {
                    assert(may_expand(oracle@, base@, None));
                }
                let g = expand_struct_place(&base, oracle, None);
                g
            },
        };
        let ghost pre = places@;
        if !all_contained(places, &group) {
            proof {
                assert(collapse_model(oracle@, places@, current@) == places@);
            }
            return;
        }
        remove_all(places, &group);
        places.insert(base.duplicate());
        proof {
            let g = group_model(oracle@, base@, elem).to_set();
            assert(models_of(group@).to_set() == g);
            assert(places@ == pre.difference(g).insert(base@));
            assert(collapse_model(oracle@, pre, current@)
                == collapse_model(oracle@, places@, base@));
        }
        current = base;
    }
    proof {
        assert(collapse_model(oracle@, places@, current@) == places@);
    }
}

/// Turning a sequence into a set commutes with concatenation.
pub proof fn lemma_to_set_add(a: Seq<PlaceModel>, b: Seq<PlaceModel>)
    ensures
        (a + b).to_set() == a.to_set().union(b.to_set()),
{
    assert forall|y: PlaceModel| (a + b).to_set().contains(y)
        implies a.to_set().union(b.to_set()).contains(y) by {
        let i = choose|i: int| 0 <= i < (a + b).len() && (a + b)[i] == y;
        if i < a.len() {
            assert(a[i] == y);
            assert(a.contains(y));
        } else {
            assert(b[i - a.len()] == y);
            assert(b.contains(y));
        }
    }
    assert forall|y: PlaceModel| a.to_set().union(b.to_set()).contains(y)
        implies (a + b).to_set().contains(y) by {
        if a.contains(y) {
            let i = choose|i: int| 0 <= i < a.len() && a[i] == y;
            assert((a + b)[i] == y);
            assert((a + b).contains(y));
        } else {
            let i = choose|i: int| 0 <= i < b.len() && b[i] == y;
            assert((a + b)[a.len() + i] == y);
            assert((a + b).contains(y));
        }
    }
    assert((a + b).to_set() =~= a.to_set().union(b.to_set()));
}

/// Along a well-formed guide, the sibling group of one collapse level is a
/// non-empty set of children of the guide's parent, and the guide itself
/// is one of them.
pub proof fn lemma_group_children(locals: Seq<TypeTree>, guide: PlaceModel)
    requires
        wf_place(locals, guide),
        guide.projection.len() > 0,
    ensures
        forall|x: PlaceModel|
            group_model(locals, guide.parent(), guide.projection.last()).to_set().contains(x)
            ==> exists|e: Projection| x == guide.parent().child(e),
        group_model(locals, guide.parent(), guide.projection.last()).to_set().contains(guide),
{
    let base = guide.parent();
    let elem = guide.projection.last();
    let gq = group_model(locals, base, elem);
    crate::typing::lemma_wf_parent(locals, guide);
    assert(base.child(elem).projection =~= guide.projection);
    assert(base.child(elem) == guide);
    match elem {
        Projection::Downcast(_) => {
            assert(gq[0] == guide);
            assert(gq.contains(guide));
            assert forall|x: PlaceModel| gq.to_set().contains(x)
                implies exists|e: Projection| x == base.child(e) by {
                let i = choose|i: int| 0 <= i < gq.len() && gq[i] == x;
                assert(x == base.child(elem));
            }
        },
        Projection::Deref => {
            assert(gq == seq![base.child(Projection::Deref)]);
            assert(gq[0] == guide);
            assert(gq.contains(guide));
            assert forall|x: PlaceModel| gq.to_set().contains(x)
                implies exists|e: Projection| x == base.child(e) by {
                let i = choose|i: int| 0 <= i < gq.len() && gq[i] == x;
                assert(x == base.child(elem));
            }
        },
        Projection::Field(fi) => {
            let s = state_of(locals, base)->0;
            match s.ty {
                TypeTree::Structure { fields } => {
                    vstd::std_specs::vec::axiom_spec_len(&fields);
                    lemma_field_group(locals, base, fi, fields@.len() as int);
                },
                TypeTree::Tuple { elements } => {
                    vstd::std_specs::vec::axiom_spec_len(&elements);
                    lemma_field_group(locals, base, fi, elements@.len() as int);
                },
                TypeTree::Enumeration { variants } => {
                    let fs = variants@[s.variant->0 as int];
                    vstd::std_specs::vec::axiom_spec_len(&fs);
                    lemma_field_group(locals, base, fi, fs@.len() as int);
                },
                _ => {
                    assert(false);
                },
            }
        },
    }
}

/// The field case of `lemma_group_children`: the group is the full field
/// expansion of the parent.
proof fn lemma_field_group(locals: Seq<TypeTree>, base: PlaceModel, fi: usize, n: int)
    requires
        n <= usize::MAX as int,
        fi < n,
        group_model(locals, base, Projection::Field(fi))
            == crate::expand::fields_upto(base, n, None),
    ensures
        forall|x: PlaceModel|
            group_model(locals, base, Projection::Field(fi)).to_set().contains(x)
            ==> exists|e: Projection| x == base.child(e),
        group_model(locals, base, Projection::Field(fi)).to_set()
            .contains(base.child(Projection::Field(fi))),
{
    let gq = group_model(locals, base, Projection::Field(fi));
    crate::expand::lemma_fields_upto_membership(base, n, None);
    assert forall|x: PlaceModel| gq.to_set().contains(x)
        implies exists|e: Projection| x == base.child(e) by {
        let f = choose|f: usize| x == base.child(Projection::Field(f))
            && (f as int) < n && Some(f as int) != None::<int>;
        assert(x == base.child(Projection::Field(f)));
    }
    assert(gq.contains(base.child(Projection::Field(fi))));
}

} // verus!
