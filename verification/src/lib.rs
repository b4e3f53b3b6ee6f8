//! A place algebra for flow-sensitive memory analyses.
//!
//! A *place* is a path to a memory location: a local variable refined by a
//! sequence of projections (field selection, pointer dereference,
//! enum-variant downcast).  The algebra lets an analysis move between coarse
//! and fine views of memory without changing the set of locations denoted:
//! [`expand::expand`] carves one deep sub-place out of a coarser place, and
//! [`collapse::collapse`] folds complete sibling groups back into their
//! parent.  The shape of the place tree is dictated by a
//! [`typing::TypeOracle`]; [`normalize`] is the façade the calling analysis
//! drives.  The guarantees — soundness of expand, the expand/collapse round
//! trip, all-or-nothing and idempotent collapse — are stated and proved in
//! [`laws`] and, in terms of the leaf locations places denote, in
//! [`denote`].

pub mod place;
pub mod typing;
pub mod expand;
pub mod place_set;
pub mod collapse;
pub mod normalize;
pub mod cfg;
pub mod laws;
pub mod denote;
