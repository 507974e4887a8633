use crate::ty::{arr_cod, arr_dom, occurs, Ty};
use std::collections::HashMap;
use std::rc::Rc;
use vstd::prelude::*;

verus! {

/// A substitution: a finite map from variable ids to types.
pub type Subs = HashMap<u32, Rc<Ty>>;

/// The type `t` with every variable bound by `s` replaced, all at once, by
/// its image. The images themselves are not substituted again.
pub open spec fn subst_ty(t: Ty, s: Map<u32, Rc<Ty>>) -> Ty
    decreases t,
{
    match t {
        Ty::Var(k) => if s.contains_key(k) {
            *s[k]
        } else {
            Ty::Var(k)
        },
        Ty::Bool => Ty::Bool,
        Ty::Nat => Ty::Nat,
        Ty::Arr(d, c) => Ty::Arr(Rc::new(subst_ty(*d, s)), Rc::new(subst_ty(*c, s))),
    }
}

/// Whether the composition of `s1` then `s2` binds `k`: a key of `s1` is kept
/// unless `s2` maps its image back to the variable itself; a key of `s2` alone
/// is kept.
pub open spec fn compose_keeps(s1: Map<u32, Rc<Ty>>, s2: Map<u32, Rc<Ty>>, k: u32) -> bool {
    if s1.contains_key(k) {
        subst_ty(*s1[k], s2) != Ty::Var(k)
    } else {
        s2.contains_key(k)
    }
}

/// The substitution that applies `s1` first and `s2` after it.
pub open spec fn compose_map(s1: Map<u32, Rc<Ty>>, s2: Map<u32, Rc<Ty>>) -> Map<u32, Rc<Ty>> {
    Map::new(
        |k: u32| compose_keeps(s1, s2, k),
        |k: u32|
            if s1.contains_key(k) {
                Rc::new(subst_ty(*s1[k], s2))
            } else {
                s2[k]
            },
    )
}

/// Applying the empty substitution leaves every type unchanged.
pub proof fn lemma_apply_empty(t: Ty)
    ensures
        subst_ty(t, Map::empty()) == t,
{
    lemma_apply_disjoint(t, Map::empty());
}

/// Applying a substitution that binds none of the variables of `t` leaves
/// `t` unchanged.
pub proof fn lemma_apply_disjoint(t: Ty, s: Map<u32, Rc<Ty>>)
    requires
        forall|k: u32| occurs(t, k) ==> !s.contains_key(k),
    ensures
        subst_ty(t, s) == t,
    decreases t,
{
    match t {
        Ty::Var(k) => {
            assert(occurs(t, k));
        },
        Ty::Arr(_, _) => {
            assert forall|k: u32| occurs(arr_dom(t), k) implies !s.contains_key(k) by {
                assert(occurs(t, k));
            }
            assert forall|k: u32| occurs(arr_cod(t), k) implies !s.contains_key(k) by {
                assert(occurs(t, k));
            }
            lemma_apply_disjoint(arr_dom(t), s);
            lemma_apply_disjoint(arr_cod(t), s);
        },
        _ => {},
    }
}

/// A type without variables is left unchanged by every substitution.
pub proof fn lemma_apply_closed(t: Ty, s: Map<u32, Rc<Ty>>)
    requires
        forall|k: u32| !occurs(t, k),
    ensures
        subst_ty(t, s) == t,
{
    lemma_apply_disjoint(t, s);
}

/// Applying the composition of `s1` and `s2` is applying `s1`, then `s2`.
pub proof fn lemma_compose_apply(t: Ty, s1: Map<u32, Rc<Ty>>, s2: Map<u32, Rc<Ty>>)
    ensures
        subst_ty(t, compose_map(s1, s2)) == subst_ty(subst_ty(t, s1), s2),
    decreases t,
{
    if t is Arr {
        lemma_compose_apply(arr_dom(t), s1, s2);
        lemma_compose_apply(arr_cod(t), s1, s2);
    }
}

/// A substitution that swaps two variables, composed with itself, binds
/// nothing: each variable is mapped back to itself and dropped.
pub proof fn lemma_compose_swap_self(a: u32, b: u32)
    requires
        a != b,
    ensures
        ({
            let s = map![a => Rc::new(Ty::Var(b)), b => Rc::new(Ty::Var(a))];
            compose_map(s, s) == Map::<u32, Rc<Ty>>::empty()
        }),
{
    let s = map![a => Rc::new(Ty::Var(b)), b => Rc::new(Ty::Var(a))];
    assert(compose_map(s, s) =~= Map::<u32, Rc<Ty>>::empty());
}

/// The image of `ty` under `s`, or `None` where it is `ty` itself: a node is
/// rebuilt only when one of its sides changed.
fn apply_rec(ty: &Rc<Ty>, s: &Subs) -> (r: Option<Rc<Ty>>)
    ensures
        match r {
            Some(t) => *t == subst_ty(**ty, s@),
            None => subst_ty(**ty, s@) == **ty,
        },
    decreases **ty,
{
    match &**ty {
        Ty::Var(var) => match s.get(var) {
            Some(t) => Some(t.clone()),
            None => None,
        },
        Ty::Bool => None,
        Ty::Nat => None,
        Ty::Arr(ty1, ty2) => {
            let app1 = apply_rec(ty1, s);
            let app2 = apply_rec(ty2, s);
            match (app1, app2) {
                (None, None) => None,
                (Some(ty1_), None) => Some(Rc::new(Ty::Arr(ty1_, ty2.clone()))),
                (None, Some(ty2_)) => Some(Rc::new(Ty::Arr(ty1.clone(), ty2_))),
                (Some(ty1_), Some(ty2_)) => Some(Rc::new(Ty::Arr(ty1_, ty2_))),
            }
        },
    }
}

impl Ty {
    /// Applies the substitution `s` to `ty`. Where nothing changes, the
    /// result is `ty` itself.
    pub fn apply(ty: &Rc<Ty>, s: &Subs) -> (r: Rc<Ty>)
        ensures
            *r == subst_ty(**ty, s@),
    {
        match apply_rec(ty, s) {
            Some(ty_) => ty_,
            None => ty.clone(),
        }
    }
}

impl Ty {
    /// The substitution that applies `s1` first and `s2` after it. A key of
    /// `s1` maps to its image under `s2`, and is dropped where that image is
    /// the variable itself; keys of `s2` alone keep their image.
    pub fn compose(s1: &Subs, s2: &Subs) -> (r: Subs)
        ensures
            r@ == compose_map(s1@, s2@),
    {
        let mut composed: Subs = HashMap::new();
        for (var, ty) in it: s1.iter()
            invariant
                forall|k: u32| #[trigger]
                    composed@.contains_key(k) ==> s1@.contains_key(k) && compose_keeps(
                        s1@,
                        s2@,
                        k,
                    ) && *composed@[k] == subst_ty(*s1@[k], s2@),
                forall|i: int|
                    0 <= i < it.index() && #[trigger] compose_keeps(s1@, s2@, *it.seq()[i].0)
                        ==> composed@.contains_key(*it.seq()[i].0),
                forall|k: u32| #[trigger]
                    s1@.contains_key(k) ==> exists|i: int|
                        0 <= i < it.seq().len() && *it.seq()[i].0 == k,
        {
            let applied = Ty::apply(ty, s2);
            let self_map = match &*applied {
                Ty::Var(var_) => *var == *var_,
                _ => false,
            };
            if !self_map {
                composed.insert(*var, applied);
            }
        }
        for (var, ty) in it: s2.iter()
            invariant
                forall|k: u32| #[trigger]
                    composed@.contains_key(k) ==> compose_keeps(s1@, s2@, k) && composed@[k]
                        == compose_map(s1@, s2@)[k],
                forall|k: u32| #[trigger]
                    compose_keeps(s1@, s2@, k) && s1@.contains_key(k) ==> composed@.contains_key(
                        k,
                    ),
                forall|i: int|
                    0 <= i < it.index() && #[trigger] compose_keeps(s1@, s2@, *it.seq()[i].0)
                        ==> composed@.contains_key(*it.seq()[i].0),
                forall|k: u32| #[trigger]
                    s2@.contains_key(k) ==> exists|i: int|
                        0 <= i < it.seq().len() && *it.seq()[i].0 == k,
        {
            if !s1.contains_key(var) {
                composed.insert(*var, ty.clone());
            }
        }
        assert(composed@ =~= compose_map(s1@, s2@));
        composed
    }
}

} // verus!
