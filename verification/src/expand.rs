//! The sibling expander and the expand operation.
//!
//! `expand_struct_place` replaces a place by its immediate children as the
//! type oracle shapes them, optionally omitting one child.  `expand` carves
//! a deep descendant out of a coarser place: it returns the places that
//! cover exactly the coarser place minus the descendant.

use vstd::prelude::*;
use crate::place::{Place, PlaceModel, Projection};
use crate::typing::{TypeOracle, TypeTree, TyState, proj_step, state_of, wf_place,
    lemma_wf_trunc, lemma_trunc_step};

verus! {

/// The omitted index, lifted to the mathematical level.
pub open spec fn opt_int(o: Option<usize>) -> Option<int> {
    match o {
        Some(i) => Some(i as int),
        None => None,
    }
}

/// The variant index, lifted to the mathematical level.
pub open spec fn opt_nat(o: Option<usize>) -> Option<nat> {
    match o {
        Some(i) => Some(i as nat),
        None => None,
    }
}

/// The children `p.Field(0) .. p.Field(n - 1)`, in order, with the child at
/// index `without` left out.
pub open spec fn fields_upto(p: PlaceModel, n: int, without: Option<int>) -> Seq<PlaceModel>
    decreases n,
{
    if n <= 0 {
        Seq::empty()
    } else {
        fields_upto(p, n - 1, without) + (if without == Some(n - 1) {
            Seq::empty()
        } else {
            seq![p.child(Projection::Field((n - 1) as usize))]
        })
    }
}

/// The one-step expansion of `p` under the oracle: all immediate children,
/// with the child at index `without` left out.  A reference has one child,
/// reached by `Deref`, and index `0` names it.
pub open spec fn expansion_model(locals: Seq<TypeTree>, p: PlaceModel, without: Option<int>)
    -> Seq<PlaceModel> {
    match state_of(locals, p) {
        Some(s) => match s.ty {
            TypeTree::Structure { fields } => if s.variant is None {
                fields_upto(p, fields@.len() as int, without)
            } else {
                Seq::empty()
            },
            TypeTree::Tuple { elements } => if s.variant is None {
                fields_upto(p, elements@.len() as int, without)
            } else {
                Seq::empty()
            },
            TypeTree::Enumeration { variants } => match s.variant {
                Some(v) => if v < variants@.len() {
                    fields_upto(p, variants@[v as int]@.len() as int, without)
                } else {
                    Seq::empty()
                },
                None => Seq::empty(),
            },
            TypeTree::Reference { .. } => if without is None {
                seq![p.child(Projection::Deref)]
            } else {
                Seq::empty()
            },
            TypeTree::Atomic => Seq::empty(),
        },
        None => Seq::empty(),
    }
}

/// The shapes on which the sibling expander is defined: a struct or tuple,
/// an enum whose variant a downcast has fixed, or a reference — for a
/// reference, the only index that may be omitted is `0`, its single child.
/// An atomic place has no children, and an enum place with no variant fixed
/// is not expanded by this operation.
pub open spec fn may_expand(locals: Seq<TypeTree>, p: PlaceModel, without: Option<int>) -> bool {
    match state_of(locals, p) {
        Some(s) => match s.ty {
            TypeTree::Structure { .. } => s.variant is None,
            TypeTree::Tuple { .. } => s.variant is None,
            TypeTree::Enumeration { variants } => match s.variant {
                Some(v) => v < variants@.len(),
                None => false,
            },
            TypeTree::Reference { .. } => without is None || without == Some(0int),
            TypeTree::Atomic => false,
        },
        None => false,
    }
}

/// The type state of a place, computed by walking its projections through
/// the oracle's tree for its root local.
fn walk_state<'a>(oracle: &'a TypeOracle, place: &Place) -> (res: (&'a TypeTree, Option<usize>))
    requires
        wf_place(oracle@, place@),
    ensures
        state_of(oracle@, place@) == Some(TyState { ty: *res.0, variant: opt_nat(res.1) }),
{
    proof {
        lemma_wf_trunc(oracle@, place@, 0);
        assert(place@.trunc(0).projection =~= Seq::<Projection>::empty());
    }
    let mut cur: &TypeTree = &oracle.locals[place.local];
    let mut variant: Option<usize> = None;
    let n: usize = place.projection.len();
    let mut i: usize = 0;
    while i < n
        invariant
            i <= n,
            n == place@.projection.len(),
            wf_place(oracle@, place@),
            state_of(oracle@, place@.trunc(i as int))
                == Some(TyState { ty: *cur, variant: opt_nat(variant) }),
        decreases n - i,
    {
        proof {
            lemma_wf_trunc(oracle@, place@, i + 1);
            lemma_trunc_step(oracle@, place@, i as int);
        }
        let elem = place.projection[i];
        match elem {
            Projection::Field(f) => {
                match cur {
                    TypeTree::Structure { fields } => {
                        cur = &fields[f];
                        variant = None;
                    },
                    TypeTree::Tuple { elements } => {
                        cur = &elements[f];
                        variant = None;
                    },
                    TypeTree::Enumeration { variants } => {
                        match variant {
                            Some(v) => {
                                cur = &variants[v][f];
                                variant = None;
                            },
                            None => {
                                proof {
                                    assert(false);
                                }
                            },
                        }
                    },
                    _ => {
                        proof {
                            assert(false);
                        }
                    },
                }
            },
            Projection::Deref => {
                match cur {
                    TypeTree::Reference { target } => {
                        cur = &**target;
                    },
                    _ => {
                        proof {
                            assert(false);
                        }
                    },
                }
            },
            Projection::Downcast(v) => {
                match cur {
                    TypeTree::Enumeration { .. } => {
                        variant = Some(v);
                    },
                    _ => {
                        proof {
                            assert(false);
                        }
                    },
                }
            },
        }
        i += 1;
    }
    proof {
        assert(place@.trunc(n as int).projection =~= place@.projection);
        assert(place@.trunc(n as int) == place@);
    }
    (cur, variant)
}

/// The children `place.Field(0) .. place.Field(n - 1)`, skipping `without`.
fn push_fields(place: &Place, n: usize, without: Option<usize>) -> (r: Vec<Place>)
    ensures
        r@.map_values(|q: Place| q@) == fields_upto(place@, n as int, opt_int(without)),
{
    let mut r: Vec<Place> = Vec::new();
    proof {
        assert(r@.map_values(|q: Place| q@) =~= fields_upto(place@, 0, opt_int(without)));
    }
    let mut i: usize = 0;
    while i < n
        invariant
            i <= n,
            r@.map_values(|q: Place| q@) == fields_upto(place@, i as int, opt_int(without)),
        decreases n - i,
    {
        let skip = match without {
            Some(w) => w == i,
            None => false,
        };
        if !skip {
            r.push(place.child(Projection::Field(i)));
        }
        proof {
            assert(r@.map_values(|q: Place| q@)
                =~= fields_upto(place@, i + 1, opt_int(without)));
        }
        i += 1;
    }
    r
}

/// Expands a place of struct, tuple, fixed-variant enum, or reference shape
/// into the list of places for each of its immediate children, one
/// projection step deeper.  If `without_element` is not `None`, the child
/// with that index is omitted from the result.
pub fn expand_struct_place(place: &Place, oracle: &TypeOracle, without_element: Option<usize>)
    -> (r: Vec<Place>)
    requires
        wf_place(oracle@, place@),
        may_expand(oracle@, place@, opt_int(without_element)),
    ensures
        r@.map_values(|q: Place| q@)
            == expansion_model(oracle@, place@, opt_int(without_element)),
{
    let (ty, variant) = walk_state(oracle, place);
    match ty {
        TypeTree::Structure { fields } => push_fields(place, fields.len(), without_element),
        TypeTree::Tuple { elements } => push_fields(place, elements.len(), without_element),
        TypeTree::Enumeration { variants } => {
            match variant {
                Some(v) => push_fields(place, variants[v].len(), without_element),
                None => {
                    proof {
                        assert(false);
                    }
                    Vec::new()
                },
            }
        },
        TypeTree::Reference { .. } => {
            match without_element {
                None => {
                    let mut r: Vec<Place> = Vec::new();
                    r.push(place.child(Projection::Deref));
                    proof {
                        assert(r@.map_values(|q: Place| q@)
                            =~= seq![place@.child(Projection::Deref)]);
                    }
                    r
                },
                Some(_) => {
                    let r: Vec<Place> = Vec::new();
                    proof {
                        assert(r@.map_values(|q: Place| q@)
                            =~= Seq::<PlaceModel>::empty());
                    }
                    r
                },
            }
        },
        TypeTree::Atomic => {
            proof {
                assert(false);
            }
            Vec::new()
        },
    }
}

/// The siblings carved out at one step of the expand walk: for a field
/// step, all the other fields of the base; a dereference or downcast step
/// has a single child and contributes no siblings.
pub open spec fn step_siblings(locals: Seq<TypeTree>, base: PlaceModel, elem: Projection)
    -> Seq<PlaceModel> {
    match elem {
        Projection::Field(i) => expansion_model(locals, base, Some(i as int)),
        _ => Seq::empty(),
    }
}

/// What `expand` returns: walking from the minuend's depth down to the
/// subtrahend, the siblings omitted at each step, outermost level first.
pub open spec fn expand_model(locals: Seq<TypeTree>, minuend: PlaceModel, subtrahend: PlaceModel)
    -> Seq<PlaceModel>
    decreases subtrahend.projection.len(),
{
    if subtrahend.projection.len() <= minuend.projection.len() {
        Seq::empty()
    } else {
        expand_model(locals, minuend, subtrahend.parent())
            + step_siblings(locals, subtrahend.parent(), subtrahend.projection.last())
    }
}

/// Subtracts the `subtrahend` place from the `minuend` place: unrolls the
/// minuend level by level toward the subtrahend and accumulates, at each
/// level, the siblings of the path that continues toward the subtrahend.
/// The returned places, together with the subtrahend, cover exactly what
/// the minuend covered.
pub fn expand(oracle: &TypeOracle, minuend: &Place, subtrahend: &Place) -> (r: Vec<Place>)
    requires
        wf_place(oracle@, minuend@),
        wf_place(oracle@, subtrahend@),
        crate::place::is_prefix_model(subtrahend@, minuend@),
    ensures
        r@.map_values(|q: Place| q@) == expand_model(oracle@, minuend@, subtrahend@),
{
    let mut r: Vec<Place> = Vec::new();
    let mut l: usize = minuend.projection.len();
    proof {
        assert(subtrahend@.trunc(l as int).projection.len() == l);
        assert(r@.map_values(|q: Place| q@)
            =~= expand_model(oracle@, minuend@, subtrahend@.trunc(l as int)));
    }
    while l < subtrahend.projection.len()
        invariant
            minuend@.projection.len() <= l <= subtrahend@.projection.len(),
            wf_place(oracle@, subtrahend@),
            r@.map_values(|q: Place| q@)
                == expand_model(oracle@, minuend@, subtrahend@.trunc(l as int)),
        decreases subtrahend@.projection.len() - l,
    {
        proof {
            lemma_wf_trunc(oracle@, subtrahend@, l as int);
            lemma_wf_trunc(oracle@, subtrahend@, l + 1);
            lemma_trunc_step(oracle@, subtrahend@, l as int);
        }
        let base = subtrahend.truncated(l);
        let elem = subtrahend.projection[l];
        let ghost sub_next = subtrahend@.trunc(l + 1);
        proof {
            assert(sub_next.projection.drop_last() =~= subtrahend@.trunc(l as int).projection);
            assert(sub_next.parent() == subtrahend@.trunc(l as int));
            assert(sub_next.projection.last() == subtrahend@.projection[l as int]);
        }
        match elem {
            Projection::Field(f) => {
                let mut pieces = expand_struct_place(&base, oracle, Some(f));
                r.append(&mut pieces);
            },
            _ => {},
        }
        proof {
            assert(r@.map_values(|q: Place| q@)
                =~= expand_model(oracle@, minuend@, sub_next));
        }
        l += 1;
    }
    proof {
        assert(subtrahend@.trunc(l as int).projection =~= subtrahend@.projection);
        assert(subtrahend@.trunc(l as int) == subtrahend@);
    }
    r
}

/// Whether `e` is the one-step projection that `without` omits.
pub open spec fn omitted(without: Option<int>, e: Projection) -> bool {
    match (without, e) {
        (Some(w), Projection::Field(f)) => f as int == w,
        _ => false,
    }
}

/// The field expansion holds exactly the children of `p` with a field
/// index below `n`, the omitted one excepted.
pub proof fn lemma_fields_upto_membership(p: PlaceModel, n: int, without: Option<int>)
    requires
        n <= usize::MAX as int,
    ensures
        forall|x: PlaceModel| fields_upto(p, n, without).contains(x)
            <==> exists|f: usize| x == (#[trigger] p.child(Projection::Field(f)))
                && (f as int) < n && Some(f as int) != without,
    decreases n,
{
    let g = fields_upto(p, n, without);
    if n <= 0 {
    } else {
        lemma_fields_upto_membership(p, n - 1, without);
        let shorter = fields_upto(p, n - 1, without);
        assert forall|x: PlaceModel| g.contains(x)
            implies exists|f: usize| x == (#[trigger] p.child(Projection::Field(f)))
                && (f as int) < n && Some(f as int) != without by {
            let i = choose|i: int| 0 <= i < g.len() && g[i] == x;
            if i < shorter.len() {
                assert(shorter[i] == x);
                assert(shorter.contains(x));
            } else {
                assert(x == p.child(Projection::Field((n - 1) as usize)));
            }
        }
        assert forall|f: usize| (f as int) < n && Some(f as int) != without
            implies g.contains(#[trigger] p.child(Projection::Field(f))) by {
            let x = p.child(Projection::Field(f));
            if (f as int) < n - 1 {
                assert(shorter.contains(x));
                let i = choose|i: int| 0 <= i < shorter.len() && shorter[i] == x;
                assert(g[i] == x);
            } else {
                assert(g[g.len() - 1] == x);
            }
        }
    }
}

/// Each element of the field expansion is a child of `p`, never the
/// omitted one, and distinct elements are incomparable siblings.
pub proof fn lemma_fields_upto_children(p: PlaceModel, n: int, without: Option<int>)
    requires
        n <= usize::MAX as int,
    ensures
        forall|i: int| 0 <= i < fields_upto(p, n, without).len()
            ==> exists|e: Projection| (#[trigger] fields_upto(p, n, without)[i]) == p.child(e)
                && !omitted(without, e),
        forall|i: int, j: int|
            0 <= i < j < fields_upto(p, n, without).len()
            ==> crate::place::incomparable(
                #[trigger] fields_upto(p, n, without)[i],
                #[trigger] fields_upto(p, n, without)[j],
            ),
    decreases n,
{
    let g = fields_upto(p, n, without);
    if n <= 0 {
    } else {
        lemma_fields_upto_children(p, n - 1, without);
        lemma_fields_upto_membership(p, n - 1, without);
        let shorter = fields_upto(p, n - 1, without);
        assert forall|i: int| 0 <= i < g.len()
            implies exists|e: Projection| (#[trigger] g[i]) == p.child(e)
                && !omitted(without, e) by {
            if i < shorter.len() {
                assert(g[i] == shorter[i]);
            } else {
                let e = Projection::Field((n - 1) as usize);
                assert(g[i] == p.child(e) && !omitted(without, e));
            }
        }
        assert forall|i: int, j: int| 0 <= i < j < g.len()
            implies crate::place::incomparable(#[trigger] g[i], #[trigger] g[j]) by {
            if j < shorter.len() {
                assert(g[i] == shorter[i] && g[j] == shorter[j]);
            } else {
                assert(shorter.contains(shorter[i]));
                let f = choose|f: usize| shorter[i] == p.child(Projection::Field(f))
                    && (f as int) < n - 1 && Some(f as int) != without;
                assert(g[j] == p.child(Projection::Field((n - 1) as usize)));
                crate::place::lemma_siblings_not_prefix(
                    p,
                    Projection::Field(f),
                    Projection::Field((n - 1) as usize),
                );
            }
        }
    }
}

/// Each element the one-step expansion yields is a child of the expanded
/// place, never the omitted one; distinct elements are incomparable.
pub proof fn lemma_expansion_children(locals: Seq<TypeTree>, p: PlaceModel, without: Option<int>)
    ensures
        forall|i: int| 0 <= i < expansion_model(locals, p, without).len()
            ==> exists|e: Projection|
                (#[trigger] expansion_model(locals, p, without)[i]) == p.child(e)
                && !omitted(without, e),
        forall|i: int, j: int|
            0 <= i < j < expansion_model(locals, p, without).len()
            ==> crate::place::incomparable(
                #[trigger] expansion_model(locals, p, without)[i],
                #[trigger] expansion_model(locals, p, without)[j],
            ),
{
    let ex = expansion_model(locals, p, without);
    match state_of(locals, p) {
        Some(s) => match s.ty {
            TypeTree::Structure { fields } => {
                vstd::std_specs::vec::axiom_spec_len(&fields);
                lemma_fields_upto_children(p, fields@.len() as int, without);
            },
            TypeTree::Tuple { elements } => {
                vstd::std_specs::vec::axiom_spec_len(&elements);
                lemma_fields_upto_children(p, elements@.len() as int, without);
            },
            TypeTree::Enumeration { variants } => {
                if s.variant is Some && s.variant->0 < variants@.len() {
                    let fs = variants@[s.variant->0 as int];
                    vstd::std_specs::vec::axiom_spec_len(&fs);
                    lemma_fields_upto_children(p, fs@.len() as int, without);
                }
            },
            TypeTree::Reference { .. } => {
                if without is None {
                    assert forall|i: int| 0 <= i < ex.len()
                        implies exists|e: Projection| (#[trigger] ex[i]) == p.child(e)
                            && !omitted(without, e) by {
                        assert(ex[i] == p.child(Projection::Deref));
                        assert(!omitted(without, Projection::Deref));
                    }
                }
            },
            TypeTree::Atomic => {},
        },
        None => {},
    }
}

} // verus!
