//! The type oracle: structural shape information for places.
//!
//! The oracle maps each root local to a [`TypeTree`], a closed description
//! of the structural shape of its type.  Walking a place's projection
//! sequence through the tree yields the shape of the place itself, and
//! thereby the number and kind of its immediate children.

use vstd::prelude::*;
use crate::place::{PlaceModel, Projection};

verus! {

/// The structural shape of a type, as deep as the analysis cares to see it.
pub enum TypeTree {
    /// A struct with the given fields, in declaration order.
    Structure { fields: Vec<TypeTree> },
    /// A tuple with the given element types, in order.
    Tuple { elements: Vec<TypeTree> },
    /// A reference or pointer with a single pointee.
    Reference { target: Box<TypeTree> },
    /// An enum; each variant has its own ordered field list.
    Enumeration { variants: Vec<Vec<TypeTree>> },
    /// A type with no children: expanding such a place is a caller error.
    Atomic,
}

/// The source of shape information: one [`TypeTree`] per root local.
pub struct TypeOracle {
    pub locals: Vec<TypeTree>,
}

impl View for TypeOracle {
    type V = Seq<TypeTree>;

    open spec fn view(&self) -> Seq<TypeTree> {
        self.locals@
    }
}

/// The type state of a place: its type, and the variant a trailing
/// downcast has fixed, if any.
pub ghost struct TyState {
    pub ty: TypeTree,
    pub variant: Option<nat>,
}

/// One projection step through a type state, or `None` if the projection
/// does not fit the shape.
pub open spec fn proj_step(s: TyState, p: Projection) -> Option<TyState> {
    match p {
        Projection::Field(i) => match s.ty {
            TypeTree::Structure { fields } => if s.variant is None && i < fields@.len() {
                Some(TyState { ty: fields@[i as int], variant: None })
            } else {
                None
            },
            TypeTree::Tuple { elements } => if s.variant is None && i < elements@.len() {
                Some(TyState { ty: elements@[i as int], variant: None })
            } else {
                None
            },
            TypeTree::Enumeration { variants } => match s.variant {
                Some(v) => if v < variants@.len() && i < variants@[v as int]@.len() {
                    Some(TyState { ty: variants@[v as int]@[i as int], variant: None })
                } else {
                    None
                },
                None => None,
            },
            _ => None,
        },
        Projection::Deref => match s.ty {
            TypeTree::Reference { target } => if s.variant is None {
                Some(TyState { ty: *target, variant: None })
            } else {
                None
            },
            _ => None,
        },
        Projection::Downcast(v) => match s.ty {
            TypeTree::Enumeration { variants } => if s.variant is None && v < variants@.len() {
                Some(TyState { ty: s.ty, variant: Some(v as nat) })
            } else {
                None
            },
            _ => None,
        },
    }
}

/// The type state after walking a whole projection sequence from `root`.
pub open spec fn ty_after(root: TypeTree, projs: Seq<Projection>) -> Option<TyState>
    decreases projs.len(),
{
    if projs.len() == 0 {
        Some(TyState { ty: root, variant: None })
    } else {
        match ty_after(root, projs.drop_last()) {
            Some(s) => proj_step(s, projs.last()),
            None => None,
        }
    }
}

/// The type state of a place under the oracle, or `None` if the place is
/// not well formed for it.
pub open spec fn state_of(locals: Seq<TypeTree>, p: PlaceModel) -> Option<TyState> {
    if p.local < locals.len() {
        ty_after(locals[p.local as int], p.projection)
    } else {
        None
    }
}

/// A place is well formed when every projection step fits the shape the
/// oracle gives its prefix.
pub open spec fn wf_place(locals: Seq<TypeTree>, p: PlaceModel) -> bool {
    state_of(locals, p) is Some
}

/// Every truncation of a well-formed place is well formed, and one more
/// projection step from the truncated state reaches the next truncation.
pub proof fn lemma_wf_trunc(locals: Seq<TypeTree>, p: PlaceModel, n: int)
    requires
        wf_place(locals, p),
        0 <= n <= p.projection.len(),
    ensures
        wf_place(locals, p.trunc(n)),
        state_of(locals, p.trunc(p.projection.len() as int)) == state_of(locals, p),
    decreases p.projection.len() - n,
{
    assert(p.trunc(p.projection.len() as int).projection =~= p.projection);
    if n == p.projection.len() {
    } else {
        lemma_wf_trunc(locals, p, n + 1);
        lemma_trunc_step(locals, p, n);
    }
}

/// The state of the `n + 1`-step truncation is one projection step past the
/// state of the `n`-step truncation.
pub proof fn lemma_trunc_step(locals: Seq<TypeTree>, p: PlaceModel, n: int)
    requires
        0 <= n < p.projection.len(),
        p.local < locals.len(),
    ensures
        state_of(locals, p.trunc(n + 1)) == (match state_of(locals, p.trunc(n)) {
            Some(s) => proj_step(s, p.projection[n]),
            None => None::<TyState>,
        }),
{
    let q = p.trunc(n + 1).projection;
    assert(q.len() == n + 1);
    assert(q.drop_last() =~= p.trunc(n).projection);
    assert(q.last() == p.projection[n]);
}

/// A well-formed place whose last step exists has a well-formed parent.
pub proof fn lemma_wf_parent(locals: Seq<TypeTree>, p: PlaceModel)
    requires
        wf_place(locals, p),
        p.projection.len() > 0,
    ensures
        wf_place(locals, p.parent()),
        state_of(locals, p) == (match state_of(locals, p.parent()) {
            Some(s) => proj_step(s, p.projection.last()),
            None => None::<TyState>,
        }),
{
    assert(p.parent().projection == p.projection.drop_last());
}

} // verus!
