//! The laws the place algebra guarantees, stated over the models of the
//! operations and proved once for all inputs.

use vstd::prelude::*;
use crate::place::{PlaceModel, Projection, is_prefix_model, incomparable, branches_off,
    diverge_at, lemma_branches_off_incomparable, lemma_diverge_extend, lemma_prefix_transitive,
    lemma_prefix_of_trunc, lemma_parent_prefix, lemma_child_prefix};
use crate::typing::{TypeTree, state_of, wf_place, lemma_wf_parent};
use crate::expand::{expand_model, step_siblings, expansion_model, omitted, fields_upto,
    lemma_expansion_children, lemma_fields_upto_membership};
use crate::collapse::{collapse_model, group_model, lemma_to_set_add, lemma_group_children};
use crate::place::lemma_is_prefix_reflexive;

verus! {

/// Expand soundness: every place that `expand` returns refines the
/// minuend strictly; every one of them branches off the subtrahend's path,
/// so none equals, contains, or is contained in the subtrahend; and the
/// returned places are pairwise incomparable, so their denotations are
/// pairwise disjoint.
pub proof fn lemma_expand_soundness(
    locals: Seq<TypeTree>,
    minuend: PlaceModel,
    subtrahend: PlaceModel,
)
    requires
        is_prefix_model(subtrahend, minuend),
    ensures
        forall|i: int| 0 <= i < expand_model(locals, minuend, subtrahend).len()
            ==> is_prefix_model(
                #[trigger] expand_model(locals, minuend, subtrahend)[i], minuend)
                && expand_model(locals, minuend, subtrahend)[i].projection.len()
                    > minuend.projection.len(),
        forall|i: int| 0 <= i < expand_model(locals, minuend, subtrahend).len()
            ==> branches_off(
                #[trigger] expand_model(locals, minuend, subtrahend)[i], subtrahend)
                && incomparable(expand_model(locals, minuend, subtrahend)[i], subtrahend)
                && expand_model(locals, minuend, subtrahend)[i] != subtrahend,
        forall|i: int, j: int| 0 <= i < j < expand_model(locals, minuend, subtrahend).len()
            ==> incomparable(
                #[trigger] expand_model(locals, minuend, subtrahend)[i],
                #[trigger] expand_model(locals, minuend, subtrahend)[j],
            ),
    decreases subtrahend.projection.len(),
{
    let es = expand_model(locals, minuend, subtrahend);
    if subtrahend.projection.len() <= minuend.projection.len() {
    } else {
        let base = subtrahend.parent();
        let elem = subtrahend.projection.last();
        let lb = base.projection.len() as int;
        lemma_parent_prefix(subtrahend);
        lemma_prefix_of_trunc(subtrahend, minuend, lb);
        assert(subtrahend.trunc(lb).projection =~= base.projection);
        assert(subtrahend.trunc(lb) == base);
        lemma_expand_soundness(locals, minuend, base);
        let eb = expand_model(locals, minuend, base);
        let ss = step_siblings(locals, base, elem);
        assert(es == eb + ss);
        // Each new sibling is a child of the base by a step other than the
        // one that continues toward the subtrahend.
        match elem {
            Projection::Field(fi) => {
                lemma_expansion_children(locals, base, Some(fi as int));
                assert(ss == expansion_model(locals, base, Some(fi as int)));
                assert forall|t: int| 0 <= t < ss.len()
                    implies diverge_at(#[trigger] ss[t], subtrahend, lb)
                        && is_prefix_model(ss[t], base)
                        && is_prefix_model(ss[t], minuend)
                        && ss[t].projection.len() > minuend.projection.len()
                        && ss[t].local == subtrahend.local by {
                    let e = choose|e: Projection| ss[t] == base.child(e)
                        && !omitted(Some(fi as int), e);
                    assert(ss[t].projection.subrange(0, lb) =~= base.projection);
                    assert(ss[t].projection[lb] == e);
                    assert(e != elem);
                    lemma_child_prefix(base, e);
                    lemma_prefix_transitive(ss[t], base, minuend);
                }
            },
            _ => {
                assert(ss.len() == 0);
            },
        }
        // Every element carried up from the shorter expansion diverges
        // from the base, hence from the subtrahend and from every new
        // sibling, which all extend the base.
        assert forall|a: int| 0 <= a < eb.len()
            implies branches_off(#[trigger] eb[a], subtrahend) by {
            assert(branches_off(eb[a], base));
            let k = choose|k: int| diverge_at(eb[a], base, k);
            lemma_diverge_extend(eb[a], base, subtrahend, k);
        }
        assert forall|a: int, t: int| 0 <= a < eb.len() && 0 <= t < ss.len()
            implies incomparable(#[trigger] eb[a], #[trigger] ss[t]) by {
            assert(branches_off(eb[a], base));
            let k = choose|k: int| diverge_at(eb[a], base, k);
            lemma_diverge_extend(eb[a], base, ss[t], k);
            assert(branches_off(eb[a], ss[t]));
            lemma_branches_off_incomparable(eb[a], ss[t]);
        }
        assert forall|i: int| 0 <= i < es.len()
            implies is_prefix_model(#[trigger] es[i], minuend)
                && es[i].projection.len() > minuend.projection.len()
                && branches_off(es[i], subtrahend)
                && incomparable(es[i], subtrahend)
                && es[i] != subtrahend by {
            if i < eb.len() {
                assert(es[i] == eb[i]);
            } else {
                assert(es[i] == ss[i - eb.len()]);
            }
            lemma_branches_off_incomparable(es[i], subtrahend);
        }
        assert forall|i: int, j: int| 0 <= i < j < es.len()
            implies incomparable(#[trigger] es[i], #[trigger] es[j]) by {
            if j < eb.len() {
                assert(es[i] == eb[i] && es[j] == eb[j]);
            } else if i < eb.len() {
                assert(es[i] == eb[i] && es[j] == ss[j - eb.len()]);
            } else {
                assert(es[i] == ss[i - eb.len()] && es[j] == ss[j - eb.len()]);
            }
        }
    }
}

/// At one level of a well-formed guide, the full sibling group is exactly
/// the siblings the expand walk omits there, plus the guide itself.
proof fn lemma_group_is_siblings_plus_guide(locals: Seq<TypeTree>, guide: PlaceModel)
    requires
        wf_place(locals, guide),
        guide.projection.len() > 0,
    ensures
        group_model(locals, guide.parent(), guide.projection.last()).to_set()
            == step_siblings(locals, guide.parent(), guide.projection.last()).to_set()
                .insert(guide),
{
    let base = guide.parent();
    let elem = guide.projection.last();
    let gq = group_model(locals, base, elem);
    let ss = step_siblings(locals, base, elem);
    lemma_wf_parent(locals, guide);
    assert(base.child(elem).projection =~= guide.projection);
    assert(base.child(elem) == guide);
    match elem {
        Projection::Downcast(_) => {
            assert(gq == seq![guide]);
            assert(gq[0] == guide);
            assert(gq.contains(guide));
            assert forall|x: PlaceModel| gq.to_set().contains(x)
                implies ss.to_set().insert(guide).contains(x) by {
                let i = choose|i: int| 0 <= i < gq.len() && gq[i] == x;
                assert(x == guide);
            }
            assert(gq.to_set() =~= ss.to_set().insert(guide));
        },
        Projection::Deref => {
            assert(gq == seq![base.child(Projection::Deref)]);
            assert(gq[0] == guide);
            assert(gq.contains(guide));
            assert(ss.len() == 0);
            assert forall|x: PlaceModel| gq.to_set().contains(x)
                implies ss.to_set().insert(guide).contains(x) by {
                let i = choose|i: int| 0 <= i < gq.len() && gq[i] == x;
                assert(x == guide);
            }
            assert(gq.to_set() =~= ss.to_set().insert(guide));
        },
        Projection::Field(fi) => {
            let st = state_of(locals, base)->0;
            let n: int = match st.ty {
                TypeTree::Structure { fields } => fields@.len() as int,
                TypeTree::Tuple { elements } => elements@.len() as int,
                TypeTree::Enumeration { variants } => variants@[st.variant->0 as int]@.len() as int,
                _ => 0,
            };
            match st.ty {
                TypeTree::Structure { fields } => {
                    vstd::std_specs::vec::axiom_spec_len(&fields);
                },
                TypeTree::Tuple { elements } => {
                    vstd::std_specs::vec::axiom_spec_len(&elements);
                },
                TypeTree::Enumeration { variants } => {
                    let fs = variants@[st.variant->0 as int];
                    vstd::std_specs::vec::axiom_spec_len(&fs);
                },
                _ => {
                    assert(false);
                },
            }
            assert(gq == fields_upto(base, n, None));
            assert(ss == fields_upto(base, n, Some(fi as int)));
            assert(fi < n);
            lemma_fields_upto_membership(base, n, None);
            lemma_fields_upto_membership(base, n, Some(fi as int));
            assert forall|x: PlaceModel| gq.to_set().contains(x)
                implies ss.to_set().insert(guide).contains(x) by {
                let f = choose|f: usize| x == base.child(Projection::Field(f))
                    && (f as int) < n && Some(f as int) != None::<int>;
                if f == fi {
                    assert(x == guide);
                } else {
                    assert(ss.contains(x));
                }
            }
            assert forall|x: PlaceModel| ss.to_set().insert(guide).contains(x)
                implies gq.to_set().contains(x) by {
                if x == guide {
                    assert(gq.contains(base.child(Projection::Field(fi))));
                } else {
                    let f = choose|f: usize| x == base.child(Projection::Field(f))
                        && (f as int) < n && Some(f as int) != Some(fi as int);
                    assert(gq.contains(base.child(Projection::Field(f))));
                }
            }
            assert(gq.to_set() =~= ss.to_set().insert(guide));
        },
    }
}

/// Expand/collapse round trip: the pieces of a full expansion of one place
/// against a descendant, together with the descendant, collapse along that
/// descendant to exactly what the single original place collapses to.
pub proof fn lemma_expand_collapse_round_trip(
    locals: Seq<TypeTree>,
    minuend: PlaceModel,
    subtrahend: PlaceModel,
)
    requires
        wf_place(locals, subtrahend),
        is_prefix_model(subtrahend, minuend),
    ensures
        collapse_model(
            locals,
            expand_model(locals, minuend, subtrahend).to_set().insert(subtrahend),
            subtrahend,
        ) == collapse_model(locals, Set::<PlaceModel>::empty().insert(minuend), minuend),
    decreases subtrahend.projection.len(),
{
    let es = expand_model(locals, minuend, subtrahend);
    let s0 = es.to_set().insert(subtrahend);
    if subtrahend.projection.len() <= minuend.projection.len() {
        assert(subtrahend.projection.subrange(0, minuend.projection.len() as int)
            =~= subtrahend.projection);
        assert(minuend == subtrahend);
        assert(s0 =~= Set::<PlaceModel>::empty().insert(minuend));
    } else {
        let base = subtrahend.parent();
        let elem = subtrahend.projection.last();
        let lb = base.projection.len() as int;
        lemma_parent_prefix(subtrahend);
        lemma_prefix_of_trunc(subtrahend, minuend, lb);
        assert(subtrahend.trunc(lb).projection =~= base.projection);
        assert(subtrahend.trunc(lb) == base);
        lemma_wf_parent(locals, subtrahend);
        lemma_expand_soundness(locals, minuend, base);
        lemma_expand_soundness(locals, minuend, subtrahend);
        let eb = expand_model(locals, minuend, base);
        let ss = step_siblings(locals, base, elem);
        assert(es == eb + ss);
        lemma_to_set_add(eb, ss);
        lemma_group_is_siblings_plus_guide(locals, subtrahend);
        let g = group_model(locals, base, elem).to_set();
        assert(g == ss.to_set().insert(subtrahend));
        assert(g.subset_of(s0));
        let s1 = s0.difference(g).insert(base);
        assert(collapse_model(locals, s0, subtrahend) == collapse_model(locals, s1, base));
        assert forall|x: PlaceModel| s1.contains(x)
            implies eb.to_set().insert(base).contains(x) by {
            if x != base {
                assert(s0.contains(x) && !g.contains(x));
                assert(x != subtrahend);
                assert(es.to_set().contains(x));
                assert(!ss.to_set().contains(x));
                assert(eb.to_set().contains(x));
            }
        }
        assert forall|x: PlaceModel| eb.to_set().insert(base).contains(x)
            implies s1.contains(x) by {
            if x != base {
                assert(eb.to_set().contains(x));
                let i = choose|i: int| 0 <= i < eb.len() && eb[i] == x;
                assert(branches_off(eb[i], base));
                let k = choose|k: int| diverge_at(x, base, k);
                lemma_diverge_extend(x, base, subtrahend, k);
                lemma_branches_off_incomparable(x, subtrahend);
                assert(x != subtrahend);
                if ss.to_set().contains(x) {
                    let t = choose|t: int| 0 <= t < ss.len() && ss[t] == x;
                    assert(es[i] == x && es[eb.len() + t] == x);
                    assert(incomparable(es[i], es[eb.len() + t]));
                    lemma_is_prefix_reflexive(x);
                    assert(false);
                }
                assert(!g.contains(x));
                assert(s0.contains(x));
            }
        }
        assert(s1 =~= eb.to_set().insert(base));
        lemma_expand_collapse_round_trip(locals, minuend, base);
    }
}

/// Collapse is all or nothing: when even one sibling of the guide's
/// deepest level is missing from the set, collapse leaves the set exactly
/// as it was — no level is merged partially.
pub proof fn lemma_collapse_all_or_nothing(
    locals: Seq<TypeTree>,
    s: Set<PlaceModel>,
    guide: PlaceModel,
    missing: PlaceModel,
)
    requires
        guide.projection.len() > 0,
        group_model(locals, guide.parent(), guide.projection.last()).to_set().contains(missing),
        !s.contains(missing),
    ensures
        collapse_model(locals, s, guide) == s,
{
    let g = group_model(locals, guide.parent(), guide.projection.last()).to_set();
    assert(!g.subset_of(s));
}

/// Whatever collapse leaves in the set was either tracked before, or is a
/// strict prefix of the guide that a merge inserted.
pub proof fn lemma_collapse_members(locals: Seq<TypeTree>, s: Set<PlaceModel>, guide: PlaceModel)
    ensures
        forall|x: PlaceModel| #[trigger] collapse_model(locals, s, guide).contains(x)
            ==> s.contains(x)
                || (is_prefix_model(guide, x) && x.projection.len() < guide.projection.len()),
    decreases guide.projection.len(),
{
    if guide.projection.len() == 0 {
    } else {
        let base = guide.parent();
        let g = group_model(locals, base, guide.projection.last()).to_set();
        lemma_parent_prefix(guide);
        if g.subset_of(s) {
            let s2 = s.difference(g).insert(base);
            lemma_collapse_members(locals, s2, base);
            assert forall|x: PlaceModel| #[trigger] collapse_model(locals, s, guide).contains(x)
                implies s.contains(x)
                    || (is_prefix_model(guide, x) && x.projection.len() < guide.projection.len())
                by {
                assert(collapse_model(locals, s, guide) == collapse_model(locals, s2, base));
                if !s.contains(x) {
                    if s2.contains(x) {
                        assert(x == base);
                    } else {
                        assert(is_prefix_model(base, x));
                        lemma_prefix_transitive(guide, base, x);
                    }
                }
            }
        }
    }
}

/// Collapsing twice in succession with the same guide gives exactly what
/// collapsing once gives.
pub proof fn lemma_collapse_idempotent(locals: Seq<TypeTree>, s: Set<PlaceModel>, guide: PlaceModel)
    requires
        wf_place(locals, guide),
    ensures
        collapse_model(locals, collapse_model(locals, s, guide), guide)
            == collapse_model(locals, s, guide),
{
    if guide.projection.len() == 0 {
    } else {
        let base = guide.parent();
        let g = group_model(locals, base, guide.projection.last()).to_set();
        if g.subset_of(s) {
            let s2 = s.difference(g).insert(base);
            let r = collapse_model(locals, s2, base);
            assert(collapse_model(locals, s, guide) == r);
            lemma_collapse_members(locals, s2, base);
            lemma_group_children(locals, guide);
            assert(g.contains(guide));
            if r.contains(guide) {
                assert(s2.contains(guide)
                    || (is_prefix_model(base, guide)
                        && guide.projection.len() < base.projection.len()));
                assert(guide != base);
                assert(false);
            }
            assert(!g.subset_of(r));
            assert(collapse_model(locals, r, guide) == r);
        }
    }
}

} // verus!
