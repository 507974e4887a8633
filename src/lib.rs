//! Robinson unification for a small monomorphic type language.
//!
//! Types are built from variables, `Bool`, `Nat` and arrows. A substitution
//! maps variable ids to types; `Ty::apply` instantiates a type, `Ty::compose`
//! sequences two substitutions, and `Ty::unify` solves a list of equality
//! constraints, returning a most general idempotent unifier or `None`.

mod subst;
mod ty;
mod unify;

pub use subst::{
    compose_map, lemma_apply_closed, lemma_apply_disjoint, lemma_apply_empty, lemma_compose_apply,
    lemma_compose_swap_self, subst_ty, Subs,
};
pub use ty::{occurs, Ty};
pub use unify::{constr_vars, idempotent, refines, unifies, Constr};
