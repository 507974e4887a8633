use std::rc::Rc;
use vstd::prelude::*;

verus! {

/// A monomorphic type term. Sub-terms sit behind `Rc`, so one term may be
/// shared by many parents; equality is structural.
#[derive(Debug)]
pub enum Ty {
    Var(u32),
    Bool,
    Nat,
    Arr(Rc<Ty>, Rc<Ty>),
}

impl PartialEq for Ty {
    fn eq(&self, o: &Ty) -> (r: bool)
        decreases self,
    {
        match (self, o) {
            (Ty::Var(a), Ty::Var(b)) => *a == *b,
            (Ty::Bool, Ty::Bool) => true,
            (Ty::Nat, Ty::Nat) => true,
            (Ty::Arr(d1, c1), Ty::Arr(d2, c2)) => (**d1).eq(&**d2) && (**c1).eq(&**c2),
            _ => false,
        }
    }
}

impl vstd::std_specs::cmp::PartialEqSpecImpl for Ty {
    open spec fn obeys_eq_spec() -> bool {
        true
    }

    open spec fn eq_spec(&self, o: &Ty) -> bool {
        *self == *o
    }
}

/// Whether the variable `v` occurs anywhere in `t`.
pub open spec fn occurs(t: Ty, v: u32) -> bool
    decreases t,
{
    match t {
        Ty::Var(k) => k == v,
        Ty::Bool => false,
        Ty::Nat => false,
        Ty::Arr(d, c) => occurs(*d, v) || occurs(*c, v),
    }
}

/// The domain of an arrow type.
pub open spec fn arr_dom(t: Ty) -> Ty
    recommends
        t is Arr,
{
    match t {
        Ty::Arr(d, _) => *d,
        _ => t,
    }
}

/// The codomain of an arrow type.
pub open spec fn arr_cod(t: Ty) -> Ty
    recommends
        t is Arr,
{
    match t {
        Ty::Arr(_, c) => *c,
        _ => t,
    }
}

/// Number of nodes of a type tree.
pub open spec fn size(t: Ty) -> nat
    decreases t,
{
    match t {
        Ty::Arr(d, c) => 1 + size(*d) + size(*c),
        _ => 1,
    }
}

impl Ty {
    /// The arrow type from `ty1` to `ty2`.
    pub fn arr(ty1: Rc<Ty>, ty2: Rc<Ty>) -> (r: Rc<Ty>)
        ensures
            *r == Ty::Arr(ty1, ty2),
    {
        Rc::new(Ty::Arr(ty1, ty2))
    }

    /// The type variable `var`.
    pub fn var(var: u32) -> (r: Rc<Ty>)
        ensures
            *r == Ty::Var(var),
    {
        Rc::new(Ty::Var(var))
    }

    /// The boolean type.
    pub fn bool() -> (r: Rc<Ty>)
        ensures
            *r == Ty::Bool,
    {
        Rc::new(Ty::Bool)
    }

    /// The natural-number type.
    pub fn natural() -> (r: Rc<Ty>)
        ensures
            *r == Ty::Nat,
    {
        Rc::new(Ty::Nat)
    }
}

/// Occurs check: whether the variable `var` appears in `ty`.
pub(crate) fn contains_var(ty: &Ty, var: u32) -> (r: bool)
    ensures
        r == occurs(*ty, var),
    decreases ty,
{
    match ty {
        Ty::Var(v) => *v == var,
        Ty::Bool => false,
        Ty::Nat => false,
        Ty::Arr(ty1, ty2) => contains_var(ty1, var) || contains_var(ty2, var),
    }
}

} // verus!
