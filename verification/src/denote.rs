//! Denotations: the set of leaf locations a place covers.
//!
//! A leaf is a well-formed place of atomic shape.  The denotation of a
//! place is the set of leaves that extend it; two places denote disjoint
//! memory exactly when neither is a prefix of the other.  The expand
//! operation is sound because the denotations of its results, together
//! with the subtrahend's, partition the minuend's.

use vstd::prelude::*;
use crate::place::{PlaceModel, Projection, is_prefix_model, incomparable,
    lemma_prefixes_comparable, lemma_prefix_transitive, lemma_prefix_of_trunc,
    lemma_parent_prefix, lemma_child_prefix};
use crate::typing::{TypeTree, proj_step, state_of, wf_place, lemma_wf_trunc, lemma_trunc_step,
    lemma_wf_parent};
use crate::expand::{expand_model, step_siblings, fields_upto,
    lemma_fields_upto_membership};

verus! {

/// A leaf place: well formed, with a shape that has no children.
pub open spec fn is_leaf_place(locals: Seq<TypeTree>, l: PlaceModel) -> bool {
    match state_of(locals, l) {
        Some(s) => s.ty is Atomic,
        None => false,
    }
}

/// The denotation of a place: every leaf location it covers.
pub open spec fn denotation(locals: Seq<TypeTree>, p: PlaceModel) -> Set<PlaceModel> {
    Set::new(|l: PlaceModel| is_leaf_place(locals, l) && is_prefix_model(l, p))
}

/// The union of the denotations of a sequence of places.
pub open spec fn denotation_union(locals: Seq<TypeTree>, q: Seq<PlaceModel>) -> Set<PlaceModel>
    decreases q.len(),
{
    if q.len() == 0 {
        Set::empty()
    } else {
        denotation_union(locals, q.drop_last()).union(denotation(locals, q.last()))
    }
}

/// A leaf is in the union exactly when it is in some member's denotation.
pub proof fn lemma_denotation_union_membership(locals: Seq<TypeTree>, q: Seq<PlaceModel>)
    ensures
        forall|x: PlaceModel| denotation_union(locals, q).contains(x)
            <==> exists|i: int| 0 <= i < q.len()
                && denotation(locals, #[trigger] q[i]).contains(x),
    decreases q.len(),
{
    if q.len() == 0 {
    } else {
        lemma_denotation_union_membership(locals, q.drop_last());
        assert forall|x: PlaceModel| denotation_union(locals, q).contains(x)
            implies exists|i: int| 0 <= i < q.len()
                && denotation(locals, #[trigger] q[i]).contains(x) by {
            if denotation_union(locals, q.drop_last()).contains(x) {
                let i = choose|i: int| 0 <= i < q.drop_last().len()
                    && denotation(locals, q.drop_last()[i]).contains(x);
                assert(q[i] == q.drop_last()[i]);
            } else {
                assert(q[q.len() - 1] == q.last());
            }
        }
        assert forall|x: PlaceModel, i: int|
            0 <= i < q.len() && #[trigger] denotation(locals, q[i]).contains(x)
            implies denotation_union(locals, q).contains(x) by {
            if i < q.len() - 1 {
                assert(q.drop_last()[i] == q[i]);
                assert(exists|j: int| 0 <= j < q.drop_last().len()
                    && denotation(locals, #[trigger] q.drop_last()[j]).contains(x));
                assert(denotation_union(locals, q.drop_last()).contains(x));
            } else {
                assert(q[i] == q.last());
                assert(denotation(locals, q.last()).contains(x));
            }
        }
    }
}

/// A place extends each of its own truncations.
pub proof fn lemma_trunc_prefix(l: PlaceModel, k: int)
    requires
        0 <= k <= l.projection.len(),
    ensures
        is_prefix_model(l, l.trunc(k)),
{
}

/// Places with disjoint paths denote disjoint memory: no leaf lies under
/// both of two incomparable places.
pub proof fn lemma_incomparable_denotations_disjoint(
    locals: Seq<TypeTree>,
    a: PlaceModel,
    b: PlaceModel,
)
    requires
        incomparable(a, b),
    ensures
        denotation(locals, a).intersect(denotation(locals, b)) == Set::<PlaceModel>::empty(),
{
    assert forall|l: PlaceModel|
        !(denotation(locals, a).contains(l) && denotation(locals, b).contains(l)) by {
        if denotation(locals, a).contains(l) && denotation(locals, b).contains(l) {
            if a.projection.len() <= b.projection.len() {
                lemma_prefixes_comparable(l, a, b);
            } else {
                lemma_prefixes_comparable(l, b, a);
            }
        }
    }
    assert(denotation(locals, a).intersect(denotation(locals, b))
        =~= Set::<PlaceModel>::empty());
}

/// A leaf strictly below a place steps from it by one projection that its
/// shape admits, and lies under the child that step reaches.
pub proof fn lemma_leaf_step(locals: Seq<TypeTree>, base: PlaceModel, l: PlaceModel)
    requires
        is_leaf_place(locals, l),
        is_prefix_model(l, base),
        l != base,
    ensures
        l.projection.len() > base.projection.len(),
        wf_place(locals, base),
        proj_step(
            state_of(locals, base)->0,
            l.projection[base.projection.len() as int],
        ) is Some,
        is_prefix_model(l, base.child(l.projection[base.projection.len() as int])),
        base.child(l.projection[base.projection.len() as int])
            == l.trunc(base.projection.len() as int + 1),
{
    let lb = base.projection.len() as int;
    if l.projection.len() == base.projection.len() {
        assert(l.projection.subrange(0, lb) =~= l.projection);
        assert(l == base);
    }
    let e = l.projection[lb];
    lemma_wf_trunc(locals, l, lb);
    lemma_wf_trunc(locals, l, lb + 1);
    lemma_trunc_step(locals, l, lb);
    assert(l.trunc(lb).projection =~= base.projection);
    assert(l.trunc(lb) == base);
    assert(base.child(e).projection =~= l.trunc(lb + 1).projection);
    assert(base.child(e) == l.trunc(lb + 1));
    lemma_trunc_prefix(l, lb + 1);
}

/// The enum a place names has a single variant, if it names one at all.
pub open spec fn single_variant_at(locals: Seq<TypeTree>, p: PlaceModel) -> bool {
    match state_of(locals, p) {
        Some(s) => match s.ty {
            TypeTree::Enumeration { variants } => variants@.len() == 1,
            _ => true,
        },
        None => true,
    }
}

/// Every downcast step the expand walk crosses between the minuend's
/// depth and the subtrahend stands on a single-variant enum.  Expand keeps
/// only the chosen variant at a downcast, so the denotation equation below
/// holds exactly on such walks; an enum of two variants is the input on
/// which it fails.
pub open spec fn downcasts_single_variant(
    locals: Seq<TypeTree>,
    minuend: PlaceModel,
    subtrahend: PlaceModel,
) -> bool {
    forall|l: int|
        minuend.projection.len() <= l < subtrahend.projection.len()
            && ((#[trigger] subtrahend.projection[l]) is Downcast)
        ==> single_variant_at(locals, subtrahend.trunc(l))
}

/// Expand preserves denotation exactly: the leaves under the minuend are
/// the leaves under the expansion's results together with the leaves
/// under the subtrahend — no location is lost and none is added.
pub proof fn lemma_expand_denotation(
    locals: Seq<TypeTree>,
    minuend: PlaceModel,
    subtrahend: PlaceModel,
)
    requires
        wf_place(locals, subtrahend),
        is_prefix_model(subtrahend, minuend),
        downcasts_single_variant(locals, minuend, subtrahend),
    ensures
        denotation(locals, minuend)
            == denotation_union(locals, expand_model(locals, minuend, subtrahend))
                .union(denotation(locals, subtrahend)),
    decreases subtrahend.projection.len(),
{
    let es = expand_model(locals, minuend, subtrahend);
    if subtrahend.projection.len() <= minuend.projection.len() {
        assert(subtrahend.projection.subrange(0, minuend.projection.len() as int)
            =~= subtrahend.projection);
        assert(minuend == subtrahend);
        assert(denotation(locals, minuend)
            =~= denotation_union(locals, es).union(denotation(locals, subtrahend)));
    } else {
        let base = subtrahend.parent();
        let elem = subtrahend.projection.last();
        let lb = base.projection.len() as int;
        lemma_parent_prefix(subtrahend);
        lemma_prefix_of_trunc(subtrahend, minuend, lb);
        assert(subtrahend.trunc(lb).projection =~= base.projection);
        assert(subtrahend.trunc(lb) == base);
        lemma_wf_parent(locals, subtrahend);
        assert forall|l: int|
            minuend.projection.len() <= l < base.projection.len()
                && ((#[trigger] base.projection[l]) is Downcast)
            implies single_variant_at(locals, base.trunc(l)) by {
            assert(base.projection[l] == subtrahend.projection[l]);
            assert(base.trunc(l).projection =~= subtrahend.trunc(l).projection);
            assert(base.trunc(l) == subtrahend.trunc(l));
        }
        lemma_expand_denotation(locals, minuend, base);
        let eb = expand_model(locals, minuend, base);
        let ss = step_siblings(locals, base, elem);
        assert(es == eb + ss);
        lemma_denotation_union_membership(locals, es);
        lemma_denotation_union_membership(locals, eb);
        lemma_denotation_union_membership(locals, ss);
        assert(base.child(elem).projection =~= subtrahend.projection);
        assert(base.child(elem) == subtrahend);
        // The concatenation denotes the union of the two parts.
        assert forall|x: PlaceModel| denotation_union(locals, es).contains(x)
            implies denotation_union(locals, eb).union(denotation_union(locals, ss))
                .contains(x) by {
            let i = choose|i: int| 0 <= i < es.len()
                && denotation(locals, #[trigger] es[i]).contains(x);
            if i < eb.len() {
                assert(eb[i] == es[i]);
                assert(denotation(locals, eb[i]).contains(x));
            } else {
                assert(ss[i - eb.len()] == es[i]);
                assert(denotation(locals, ss[i - eb.len()]).contains(x));
            }
        }
        assert forall|x: PlaceModel|
            denotation_union(locals, eb).union(denotation_union(locals, ss)).contains(x)
            implies denotation_union(locals, es).contains(x) by {
            if denotation_union(locals, eb).contains(x) {
                let i = choose|i: int| 0 <= i < eb.len()
                    && denotation(locals, #[trigger] eb[i]).contains(x);
                assert(es[i] == eb[i]);
                assert(denotation(locals, es[i]).contains(x));
            } else {
                let i = choose|i: int| 0 <= i < ss.len()
                    && denotation(locals, #[trigger] ss[i]).contains(x);
                assert(es[eb.len() + i] == ss[i]);
                assert(denotation(locals, es[eb.len() + i]).contains(x));
            }
        }
        assert(denotation_union(locals, es)
            =~= denotation_union(locals, eb).union(denotation_union(locals, ss)));
        // One level of the walk preserves denotation: the base denotes
        // what its omitted siblings and the subtrahend denote together.
        let st = state_of(locals, base)->0;
        match elem {
            Projection::Deref => {
                assert(ss.len() == 0);
                assert(st.ty is Reference);
                assert forall|l: PlaceModel| denotation(locals, base).contains(l)
                    implies denotation(locals, subtrahend).contains(l) by {
                    if l == base {
                        assert(false);
                    }
                    lemma_leaf_step(locals, base, l);
                    let e = l.projection[lb];
                    assert(e == Projection::Deref);
                    assert(base.child(e) == subtrahend);
                }
                assert forall|l: PlaceModel| denotation(locals, subtrahend).contains(l)
                    implies denotation(locals, base).contains(l) by {
                    lemma_prefix_transitive(l, subtrahend, base);
                }
                assert(denotation(locals, base)
                    =~= denotation_union(locals, ss).union(denotation(locals, subtrahend)));
            },
            Projection::Downcast(v) => {
                assert(ss.len() == 0);
                assert(st.ty is Enumeration);
                assert(subtrahend.projection[lb] == elem);
                assert(single_variant_at(locals, base));
                assert forall|l: PlaceModel| denotation(locals, base).contains(l)
                    implies denotation(locals, subtrahend).contains(l) by {
                    if l == base {
                        assert(false);
                    }
                    lemma_leaf_step(locals, base, l);
                    let e = l.projection[lb];
                    assert(e is Downcast);
                    assert(e == Projection::Downcast(v));
                    assert(base.child(e) == subtrahend);
                }
                assert forall|l: PlaceModel| denotation(locals, subtrahend).contains(l)
                    implies denotation(locals, base).contains(l) by {
                    lemma_prefix_transitive(l, subtrahend, base);
                }
                assert(denotation(locals, base)
                    =~= denotation_union(locals, ss).union(denotation(locals, subtrahend)));
            },
            Projection::Field(fi) => {
                let n: int = match st.ty {
                    TypeTree::Structure { fields } => fields@.len() as int,
                    TypeTree::Tuple { elements } => elements@.len() as int,
                    TypeTree::Enumeration { variants } =>
                        variants@[st.variant->0 as int]@.len() as int,
                    _ => 0,
                };
                match st.ty {
                    TypeTree::Structure { fields } => {
                        vstd::std_specs::vec::axiom_spec_len(&fields);
                    },
                    TypeTree::Tuple { elements } => {
                        vstd::std_specs::vec::axiom_spec_len(&elements);
                    },
                    TypeTree::Enumeration { variants } => {
                        let fs = variants@[st.variant->0 as int];
                        vstd::std_specs::vec::axiom_spec_len(&fs);
                    },
                    _ => {
                        assert(false);
                    },
                }
                assert(ss == fields_upto(base, n, Some(fi as int)));
                assert(fi < n);
                lemma_fields_upto_membership(base, n, Some(fi as int));
                assert forall|l: PlaceModel| denotation(locals, base).contains(l)
                    implies denotation_union(locals, ss)
                        .union(denotation(locals, subtrahend)).contains(l) by {
                    if l == base {
                        assert(false);
                    }
                    lemma_leaf_step(locals, base, l);
                    let e = l.projection[lb];
                    assert(e is Field);
                    let f = e->Field_0;
                    assert((f as int) < n);
                    if f == fi {
                        assert(base.child(e) == subtrahend);
                        assert(denotation(locals, subtrahend).contains(l));
                    } else {
                        assert(ss.contains(base.child(Projection::Field(f))));
                        let i = choose|i: int| 0 <= i < ss.len()
                            && ss[i] == base.child(Projection::Field(f));
                        assert(denotation(locals, ss[i]).contains(l));
                        assert(denotation_union(locals, ss).contains(l));
                    }
                }
                assert forall|l: PlaceModel|
                    denotation_union(locals, ss).union(denotation(locals, subtrahend))
                        .contains(l)
                    implies denotation(locals, base).contains(l) by {
                    if denotation(locals, subtrahend).contains(l) {
                        lemma_prefix_transitive(l, subtrahend, base);
                    } else {
                        let i = choose|i: int| 0 <= i < ss.len()
                            && denotation(locals, #[trigger] ss[i]).contains(l);
                        assert(ss.contains(ss[i]));
                        let f = choose|f: usize| ss[i] == base.child(Projection::Field(f))
                            && (f as int) < n && Some(f as int) != Some(fi as int);
                        lemma_child_prefix(base, Projection::Field(f));
                        lemma_prefix_transitive(l, ss[i], base);
                    }
                }
                assert(denotation(locals, base)
                    =~= denotation_union(locals, ss).union(denotation(locals, subtrahend)));
            },
        }
        assert(denotation(locals, minuend)
            =~= denotation_union(locals, es).union(denotation(locals, subtrahend)));
    }
}

} // verus!
