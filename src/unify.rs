use crate::subst::{compose_map, lemma_apply_disjoint, subst_ty, Subs};
use crate::ty::{arr_cod, arr_dom, contains_var, occurs, size, Ty};
use std::collections::HashMap;
use std::rc::Rc;
use vstd::prelude::*;

verus! {

/// A list of equality constraints between types.
pub type Constr = Vec<(Rc<Ty>, Rc<Ty>)>;

/// The left side of a constraint.
pub open spec fn lhs(p: (Rc<Ty>, Rc<Ty>)) -> Ty {
    *p.0
}

/// The right side of a constraint.
pub open spec fn rhs(p: (Rc<Ty>, Rc<Ty>)) -> Ty {
    *p.1
}

/// Whether `s` solves every constraint of `c`.
pub open spec fn unifies(c: Seq<(Rc<Ty>, Rc<Ty>)>, s: Map<u32, Rc<Ty>>) -> bool {
    forall|i: int| 0 <= i < c.len() ==> subst_ty(*(#[trigger] c[i]).0, s) == subst_ty(*c[i].1, s)
}

/// Whether `u` factors through `s`: applying `s` and then `u` is applying `u`
/// alone, checked on the keys of `s`.
pub open spec fn refines(s: Map<u32, Rc<Ty>>, u: Map<u32, Rc<Ty>>) -> bool {
    forall|k: u32| #[trigger]
        s.contains_key(k) ==> subst_ty(*s[k], u) == subst_ty(Ty::Var(k), u)
}

/// Whether no variable bound by `s` occurs in an image of `s`, so that
/// applying `s` twice is applying it once.
pub open spec fn idempotent(s: Map<u32, Rc<Ty>>) -> bool {
    forall|k: u32, j: u32|
        s.contains_key(k) && s.contains_key(j) ==> !occurs(*s[k], j)
}

/// The set of variables of a type.
pub open spec fn ty_vars(t: Ty) -> Set<u32>
    decreases t,
{
    match t {
        Ty::Var(k) => set![k],
        Ty::Bool => Set::empty(),
        Ty::Nat => Set::empty(),
        Ty::Arr(d, c) => ty_vars(*d).union(ty_vars(*c)),
    }
}

/// The set of variables that occur in a list of constraints.
pub open spec fn constr_vars(c: Seq<(Rc<Ty>, Rc<Ty>)>) -> Set<u32>
    decreases c.len(),
{
    if c.len() == 0 {
        Set::empty()
    } else {
        constr_vars(c.drop_last()).union(ty_vars(*c.last().0)).union(ty_vars(*c.last().1))
    }
}

/// Whether every variable of `t` lies in `vs`.
pub open spec fn ty_within(t: Ty, vs: Set<u32>) -> bool {
    forall|k: u32| #[trigger] occurs(t, k) ==> vs.contains(k)
}

/// Whether every variable of the constraints `st` lies in `vs`.
pub open spec fn constr_within(st: Seq<(Rc<Ty>, Rc<Ty>)>, vs: Set<u32>) -> bool {
    forall|i: int|
        0 <= i < st.len() ==> ty_within(*(#[trigger] st[i]).0, vs) && ty_within(*st[i].1, vs)
}

/// Whether the keys of `s` and the variables of its images lie in `vs`.
pub open spec fn subst_within(s: Map<u32, Rc<Ty>>, vs: Set<u32>) -> bool {
    forall|k: u32| #[trigger]
        s.contains_key(k) ==> vs.contains(k) && ty_within(*s[k], vs)
}

/// Total size of the constraints `st` once `s` is applied to them.
pub open spec fn pending_size(st: Seq<(Rc<Ty>, Rc<Ty>)>, s: Map<u32, Rc<Ty>>) -> nat
    decreases st.len(),
{
    if st.len() == 0 {
        0
    } else {
        size(subst_ty(*st.last().0, s)) + size(subst_ty(*st.last().1, s)) + pending_size(
            st.drop_last(),
            s,
        )
    }
}

/// The unifiers of `c0` are exactly the unifiers of `st` that factor
/// through `s`.
pub open spec fn same_unifiers(
    c0: Seq<(Rc<Ty>, Rc<Ty>)>,
    st: Seq<(Rc<Ty>, Rc<Ty>)>,
    s: Map<u32, Rc<Ty>>,
) -> bool {
    forall|u: Map<u32, Rc<Ty>>|
        #![trigger unifies(c0, u)]
        #![trigger unifies(st, u)]
        unifies(c0, u) <==> (unifies(st, u) && refines(s, u))
}

/// The variables of a type form a finite set.
proof fn lemma_ty_vars(t: Ty)
    ensures
        ty_vars(t).finite(),
        forall|k: u32| ty_vars(t).contains(k) <==> occurs(t, k),
    decreases t,
{
    if t is Arr {
        lemma_ty_vars(arr_dom(t));
        lemma_ty_vars(arr_cod(t));
        assert forall|k: u32| ty_vars(t).contains(k) <==> occurs(t, k) by {
            assert(ty_vars(t) == ty_vars(arr_dom(t)).union(ty_vars(arr_cod(t))));
            assert(ty_vars(arr_dom(t)).contains(k) == occurs(arr_dom(t), k));
            assert(ty_vars(arr_cod(t)).contains(k) == occurs(arr_cod(t), k));
        }
    }
}

/// The variables of a list of constraints form a finite set that holds
/// every variable of every side.
proof fn lemma_constr_vars(c: Seq<(Rc<Ty>, Rc<Ty>)>)
    ensures
        constr_vars(c).finite(),
        constr_within(c, constr_vars(c)),
    decreases c.len(),
{
    if c.len() > 0 {
        let init = c.drop_last();
        lemma_constr_vars(init);
        lemma_ty_vars(lhs(c.last()));
        lemma_ty_vars(rhs(c.last()));
        assert forall|i: int| 0 <= i < c.len() implies ty_within(
            *(#[trigger] c[i]).0,
            constr_vars(c),
        ) && ty_within(*c[i].1, constr_vars(c)) by {
            if i < init.len() {
                assert(init[i] == c[i]);
            }
        }
    }
}

/// Where a variable of `subst_ty(t, s)` comes from.
proof fn lemma_occurs_subst(t: Ty, s: Map<u32, Rc<Ty>>, j: u32)
    requires
        occurs(subst_ty(t, s), j),
    ensures
        (occurs(t, j) && !s.contains_key(j)) || exists|k: u32|
            occurs(t, k) && s.contains_key(k) && #[trigger] occurs(*s[k], j),
    decreases t,
{
    match t {
        Ty::Var(k) => {
            if s.contains_key(k) {
                assert(occurs(t, k));
            }
        },
        Ty::Arr(_, _) => {
            if occurs(subst_ty(arr_dom(t), s), j) {
                lemma_occurs_subst(arr_dom(t), s, j);
                if !(occurs(arr_dom(t), j) && !s.contains_key(j)) {
                    let k = choose|k: u32|
                        occurs(arr_dom(t), k) && s.contains_key(k) && #[trigger] occurs(*s[k], j);
                    assert(occurs(t, k));
                }
            } else {
                lemma_occurs_subst(arr_cod(t), s, j);
                if !(occurs(arr_cod(t), j) && !s.contains_key(j)) {
                    let k = choose|k: u32|
                        occurs(arr_cod(t), k) && s.contains_key(k) && #[trigger] occurs(*s[k], j);
                    assert(occurs(t, k));
                }
            }
        },
        _ => {},
    }
}

/// Under an idempotent `s`, no key of `s` occurs in `subst_ty(t, s)`.
proof fn lemma_subst_normal(t: Ty, s: Map<u32, Rc<Ty>>, j: u32)
    requires
        idempotent(s),
        s.contains_key(j),
    ensures
        !occurs(subst_ty(t, s), j),
{
    if occurs(subst_ty(t, s), j) {
        lemma_occurs_subst(t, s, j);
    }
}

/// Applying `s` keeps the variables within `vs`.
proof fn lemma_subst_within(t: Ty, s: Map<u32, Rc<Ty>>, vs: Set<u32>)
    requires
        ty_within(t, vs),
        subst_within(s, vs),
    ensures
        ty_within(subst_ty(t, s), vs),
{
    assert forall|j: u32| #[trigger] occurs(subst_ty(t, s), j) implies vs.contains(j) by {
        lemma_occurs_subst(t, s, j);
    }
}

/// A unifier `u` that factors through `s` gives the same result on
/// `subst_ty(t, s)` as on `t`.
proof fn lemma_refines_apply(t: Ty, s: Map<u32, Rc<Ty>>, u: Map<u32, Rc<Ty>>)
    requires
        refines(s, u),
    ensures
        subst_ty(subst_ty(t, s), u) == subst_ty(t, u),
    decreases t,
{
    if t is Arr {
        lemma_refines_apply(arr_dom(t), s, u);
        lemma_refines_apply(arr_cod(t), s, u);
    }
}

/// A variable that occurs in `t` is no larger than `t` under any
/// substitution, and strictly smaller when `t` is an arrow.
proof fn lemma_occurs_size(t: Ty, v: u32, u: Map<u32, Rc<Ty>>)
    requires
        occurs(t, v),
    ensures
        size(subst_ty(t, u)) >= size(subst_ty(Ty::Var(v), u)),
        t is Arr ==> size(subst_ty(t, u)) > size(subst_ty(Ty::Var(v), u)),
    decreases t,
{
    if t is Arr {
        if occurs(arr_dom(t), v) {
            lemma_occurs_size(arr_dom(t), v, u);
        } else {
            lemma_occurs_size(arr_cod(t), v, u);
        }
    }
}

/// The unifiers of `rest` with one more pair on top.
proof fn lemma_unifies_push(
    rest: Seq<(Rc<Ty>, Rc<Ty>)>,
    p: (Rc<Ty>, Rc<Ty>),
    u: Map<u32, Rc<Ty>>,
)
    ensures
        unifies(rest.push(p), u) <==> (unifies(rest, u) && subst_ty(*p.0, u) == subst_ty(
            *p.1,
            u,
        )),
{
    let st = rest.push(p);
    assert(st[rest.len() as int] == p);
    assert forall|i: int| 0 <= i < rest.len() implies st[i] == rest[i] by {}
    if unifies(st, u) {
        assert forall|i: int| 0 <= i < rest.len() implies subst_ty(*(#[trigger] rest[i]).0, u)
            == subst_ty(*rest[i].1, u) by {
            assert(st[i] == rest[i]);
        }
    }
}

/// Pending size of a list with one more pair on top.
proof fn lemma_pending_push(
    rest: Seq<(Rc<Ty>, Rc<Ty>)>,
    p: (Rc<Ty>, Rc<Ty>),
    s: Map<u32, Rc<Ty>>,
)
    ensures
        pending_size(rest.push(p), s) == size(subst_ty(lhs(p), s)) + size(subst_ty(rhs(p), s))
            + pending_size(rest, s),
{
    assert(rest.push(p).drop_last() =~= rest);
}

/// An idempotent substitution factors through itself.
proof fn lemma_idempotent_refines(s: Map<u32, Rc<Ty>>)
    requires
        idempotent(s),
    ensures
        refines(s, s),
{
    assert forall|k: u32| #[trigger] s.contains_key(k) implies subst_ty(*s[k], s) == subst_ty(
        Ty::Var(k),
        s,
    ) by {
        lemma_apply_disjoint(*s[k], s);
    }
}

/// Dropping a constraint that `s` already solves keeps the unifiers.
proof fn lemma_step_discard(
    c0: Seq<(Rc<Ty>, Rc<Ty>)>,
    rest: Seq<(Rc<Ty>, Rc<Ty>)>,
    p: (Rc<Ty>, Rc<Ty>),
    s: Map<u32, Rc<Ty>>,
)
    requires
        same_unifiers(c0, rest.push(p), s),
        subst_ty(lhs(p), s) == subst_ty(rhs(p), s),
    ensures
        same_unifiers(c0, rest, s),
        pending_size(rest, s) < pending_size(rest.push(p), s),
{
    lemma_pending_push(rest, p, s);
    assert forall|u: Map<u32, Rc<Ty>>|
        #![trigger unifies(c0, u)]
        #![trigger unifies(rest, u)]
        unifies(c0, u) <==> (unifies(rest, u) && refines(s, u)) by {
        lemma_unifies_push(rest, p, u);
        assert(unifies(c0, u) <==> (unifies(rest.push(p), u) && refines(s, u)));
        if refines(s, u) {
            lemma_refines_apply(lhs(p), s, u);
            lemma_refines_apply(rhs(p), s, u);
        }
    }
}

/// Replacing a constraint between two arrows by the constraints between
/// their domains and between their codomains keeps the unifiers.
proof fn lemma_step_split(
    c0: Seq<(Rc<Ty>, Rc<Ty>)>,
    rest: Seq<(Rc<Ty>, Rc<Ty>)>,
    p: (Rc<Ty>, Rc<Ty>),
    s: Map<u32, Rc<Ty>>,
    q1: (Rc<Ty>, Rc<Ty>),
    q2: (Rc<Ty>, Rc<Ty>),
    vs: Set<u32>,
)
    requires
        same_unifiers(c0, rest.push(p), s),
        idempotent(s),
        subst_within(s, vs),
        constr_within(rest.push(p), vs),
        subst_ty(lhs(p), s) is Arr,
        subst_ty(rhs(p), s) is Arr,
        lhs(q1) == arr_dom(subst_ty(lhs(p), s)),
        rhs(q1) == arr_dom(subst_ty(rhs(p), s)),
        lhs(q2) == arr_cod(subst_ty(lhs(p), s)),
        rhs(q2) == arr_cod(subst_ty(rhs(p), s)),
    ensures
        same_unifiers(c0, rest.push(q1).push(q2), s),
        constr_within(rest.push(q1).push(q2), vs),
        pending_size(rest.push(q1).push(q2), s) < pending_size(rest.push(p), s),
{
    let n1 = subst_ty(lhs(p), s);
    let n2 = subst_ty(rhs(p), s);
    let st = rest.push(q1).push(q2);
    assert forall|u: Map<u32, Rc<Ty>>|
        #![trigger unifies(c0, u)]
        #![trigger unifies(st, u)]
        unifies(c0, u) <==> (unifies(st, u) && refines(s, u)) by {
        lemma_unifies_push(rest, p, u);
        lemma_unifies_push(rest, q1, u);
        lemma_unifies_push(rest.push(q1), q2, u);
        assert(unifies(c0, u) <==> (unifies(rest.push(p), u) && refines(s, u)));
        if refines(s, u) {
            lemma_refines_apply(lhs(p), s, u);
            lemma_refines_apply(rhs(p), s, u);
        }
    }
    // the sides of an arrow are as settled as the arrow
    assert forall|t: Ty| t == lhs(q1) || t == rhs(q1) || t == lhs(q2) || t == rhs(q2) implies subst_ty(t, s) == t by {
        assert forall|k: u32| occurs(t, k) implies !s.contains_key(k) by {
            if s.contains_key(k) {
                lemma_subst_normal(lhs(p), s, k);
                lemma_subst_normal(rhs(p), s, k);
            }
        }
        lemma_apply_disjoint(t, s);
    }
    lemma_pending_push(rest, p, s);
    lemma_pending_push(rest, q1, s);
    lemma_pending_push(rest.push(q1), q2, s);
    let old_st = rest.push(p);
    assert(old_st[rest.len() as int] == p);
    assert(ty_within(lhs(p), vs) && ty_within(rhs(p), vs));
    lemma_subst_within(lhs(p), s, vs);
    lemma_subst_within(rhs(p), s, vs);
    assert forall|i: int| 0 <= i < st.len() implies ty_within(*(#[trigger] st[i]).0, vs)
        && ty_within(*st[i].1, vs) by {
        if i < rest.len() {
            assert(st[i] == old_st[i]);
        } else if i == rest.len() {
            assert(st[i] == q1);
            assert forall|k: u32| #[trigger] occurs(lhs(q1), k) implies vs.contains(k) by {
                assert(occurs(n1, k));
            }
            assert forall|k: u32| #[trigger] occurs(rhs(q1), k) implies vs.contains(k) by {
                assert(occurs(n2, k));
            }
        } else {
            assert(st[i] == q2);
            assert forall|k: u32| #[trigger] occurs(lhs(q2), k) implies vs.contains(k) by {
                assert(occurs(n1, k));
            }
            assert forall|k: u32| #[trigger] occurs(rhs(q2), k) implies vs.contains(k) by {
                assert(occurs(n2, k));
            }
        }
    }
}

/// A constraint between a variable and a type that contains it, but is not
/// the variable itself, has no unifier.
proof fn lemma_step_occurs_fail(
    c0: Seq<(Rc<Ty>, Rc<Ty>)>,
    rest: Seq<(Rc<Ty>, Rc<Ty>)>,
    p: (Rc<Ty>, Rc<Ty>),
    s: Map<u32, Rc<Ty>>,
    v: u32,
    nr: Rc<Ty>,
)
    requires
        same_unifiers(c0, rest.push(p), s),
        (subst_ty(lhs(p), s) == Ty::Var(v) && subst_ty(rhs(p), s) == *nr) || (subst_ty(rhs(p), s)
            == Ty::Var(v) && subst_ty(lhs(p), s) == *nr),
        occurs(*nr, v),
        *nr != Ty::Var(v),
    ensures
        forall|u: Map<u32, Rc<Ty>>| !unifies(c0, u),
{
    let n = *nr;
    assert forall|u: Map<u32, Rc<Ty>>| !unifies(c0, u) by {
        if unifies(c0, u) {
            lemma_unifies_push(rest, p, u);
            lemma_refines_apply(lhs(p), s, u);
            lemma_refines_apply(rhs(p), s, u);
            lemma_occurs_size(n, v, u);
        }
    }
}

/// A constraint between two types with different outer constructors, neither
/// a variable, has no unifier.
proof fn lemma_step_clash_fail(
    c0: Seq<(Rc<Ty>, Rc<Ty>)>,
    rest: Seq<(Rc<Ty>, Rc<Ty>)>,
    p: (Rc<Ty>, Rc<Ty>),
    s: Map<u32, Rc<Ty>>,
)
    requires
        same_unifiers(c0, rest.push(p), s),
        !(subst_ty(lhs(p), s) is Var),
        !(subst_ty(rhs(p), s) is Var),
        !(subst_ty(lhs(p), s) is Arr && subst_ty(rhs(p), s) is Arr),
        subst_ty(lhs(p), s) != subst_ty(rhs(p), s),
    ensures
        forall|u: Map<u32, Rc<Ty>>| !unifies(c0, u),
{
    let n1 = subst_ty(lhs(p), s);
    let n2 = subst_ty(rhs(p), s);
    assert forall|u: Map<u32, Rc<Ty>>| !unifies(c0, u) by {
        if unifies(c0, u) {
            lemma_unifies_push(rest, p, u);
            lemma_refines_apply(lhs(p), s, u);
            lemma_refines_apply(rhs(p), s, u);
            assert(subst_ty(n1, u) == subst_ty(n2, u));
        }
    }
}

/// Binding a variable to a type that does not contain it, on top of `s`,
/// keeps the unifiers, keeps the result idempotent, and settles one more
/// variable of `vs`.
proof fn lemma_step_bind(
    c0: Seq<(Rc<Ty>, Rc<Ty>)>,
    rest: Seq<(Rc<Ty>, Rc<Ty>)>,
    p: (Rc<Ty>, Rc<Ty>),
    s: Map<u32, Rc<Ty>>,
    v: u32,
    nr: Rc<Ty>,
    vs: Set<u32>,
)
    requires
        same_unifiers(c0, rest.push(p), s),
        idempotent(s),
        vs.finite(),
        subst_within(s, vs),
        constr_within(rest.push(p), vs),
        (subst_ty(lhs(p), s) == Ty::Var(v) && subst_ty(rhs(p), s) == *nr) || (subst_ty(rhs(p), s)
            == Ty::Var(v) && subst_ty(lhs(p), s) == *nr),
        !occurs(*nr, v),
    ensures
        ({
            let s2 = compose_map(s, Map::empty().insert(v, nr));
            &&& same_unifiers(c0, rest, s2)
            &&& idempotent(s2)
            &&& subst_within(s2, vs)
            &&& vs.difference(s2.dom()).len() < vs.difference(s.dom()).len()
        }),
{
    let n = *nr;
    let single = Map::empty().insert(v, nr);
    let s2 = compose_map(s, single);
    let old_st = rest.push(p);
    assert(old_st[rest.len() as int] == p);
    assert(ty_within(lhs(p), vs) && ty_within(rhs(p), vs));
    lemma_subst_within(lhs(p), s, vs);
    lemma_subst_within(rhs(p), s, vs);
    // both sides are free of the keys of `s`
    assert forall|j: u32| s.contains_key(j) implies !occurs(n, j) && j != v by {
        lemma_subst_normal(lhs(p), s, j);
        lemma_subst_normal(rhs(p), s, j);
    }
    assert(occurs(Ty::Var(v), v));
    assert(vs.contains(v) && ty_within(n, vs));
    assert(subst_within(single, vs));
    // no key of `s` is mapped back to itself, so none is dropped
    assert forall|k: u32| s.contains_key(k) implies subst_ty(*s[k], single) != Ty::Var(k) by {
        if subst_ty(*s[k], single) == Ty::Var(k) {
            assert(occurs(subst_ty(*s[k], single), k));
            lemma_occurs_subst(*s[k], single, k);
        }
    }
    assert(s2.dom() =~= s.dom().insert(v));
    assert(s2[v] == nr);
    assert forall|k: u32, j: u32| s2.contains_key(k) && s2.contains_key(j) implies !occurs(
        *s2[k],
        j,
    ) by {
        if k != v && occurs(*s2[k], j) {
            lemma_occurs_subst(*s[k], single, j);
        }
    }
    assert forall|k: u32| #[trigger] s2.contains_key(k) implies vs.contains(k) && ty_within(
        *s2[k],
        vs,
    ) by {
        if k != v {
            lemma_subst_within(*s[k], single, vs);
        }
    }
    assert forall|u: Map<u32, Rc<Ty>>|
        #![trigger unifies(c0, u)]
        #![trigger unifies(rest, u)]
        unifies(c0, u) <==> (unifies(rest, u) && refines(s2, u)) by {
        lemma_unifies_push(rest, p, u);
        assert(unifies(c0, u) <==> (unifies(old_st, u) && refines(s, u)));
        if refines(s, u) {
            lemma_refines_apply(lhs(p), s, u);
            lemma_refines_apply(rhs(p), s, u);
        }
        if refines(s, u) && subst_ty(n, u) == subst_ty(Ty::Var(v), u) {
            assert(refines(single, u));
            assert forall|k: u32| #[trigger] s2.contains_key(k) implies subst_ty(*s2[k], u)
                == subst_ty(Ty::Var(k), u) by {
                if k != v {
                    lemma_refines_apply(*s[k], single, u);
                }
            }
        }
        if refines(s2, u) {
            assert(s2.contains_key(v));
            assert(refines(single, u));
            assert forall|k: u32| #[trigger] s.contains_key(k) implies subst_ty(*s[k], u)
                == subst_ty(Ty::Var(k), u) by {
                assert(s2.contains_key(k));
                lemma_refines_apply(*s[k], single, u);
            }
        }
    }
    let a = vs.difference(s.dom());
    assert(vs.difference(s2.dom()) =~= a.remove(v));
    assert(a.contains(v));
}

impl Ty {
    /// Solves the constraints `c` by Robinson's algorithm on a work list.
    ///
    /// Returns `None` exactly when no substitution makes the two sides of
    /// every constraint equal. Otherwise the result solves every constraint,
    /// is idempotent, binds only variables of `c`, and is most general: every
    /// other solution is the result followed by some substitution.
    pub fn unify(c: &Constr) -> (r: Option<Subs>)
        ensures
            match r {
                Some(s) => {
                    &&& unifies(c@, s@)
                    &&& idempotent(s@)
                    &&& forall|u: Map<u32, Rc<Ty>>, t: Ty|
                        unifies(c@, u) ==> #[trigger] subst_ty(subst_ty(t, s@), u) == subst_ty(t, u)
                    &&& forall|k: u32| s@.contains_key(k) ==> constr_vars(c@).contains(k)
                },
                None => forall|u: Map<u32, Rc<Ty>>| !unifies(c@, u),
            },
    {
        let mut stack: Vec<(Rc<Ty>, Rc<Ty>)> = Vec::new();
        let mut i: usize = 0;
        while i < c.len()
            invariant
                i <= c.len(),
                stack@ == c@.take(i as int),
            decreases c.len() - i,
        {
            let (ref ty1, ref ty2) = c[i];
            stack.push((ty1.clone(), ty2.clone()));
            i = i + 1;
            assert(stack@ =~= c@.take(i as int));
        }
        assert(stack@ =~= c@);

        let mut s: Subs = HashMap::new();
        let ghost vs = constr_vars(c@);
        proof {
            lemma_constr_vars(c@);
            assert forall|u: Map<u32, Rc<Ty>>| #[trigger] refines(s@, u) by {}
        }
        while stack.len() > 0
            invariant
                vs == constr_vars(c@),
                vs.finite(),
                same_unifiers(c@, stack@, s@),
                idempotent(s@),
                constr_within(stack@, vs),
                subst_within(s@, vs),
            decreases vs.difference(s@.dom()).len(), pending_size(stack@, s@),
        {
            let ghost old_st = stack@;
            let ghost p = stack@.last();
            let (ty1, ty2) = stack.pop().unwrap();
            let ghost rest = stack@;
            proof {
                assert(old_st =~= rest.push(p));
                assert forall|j: int| 0 <= j < rest.len() implies ty_within(
                    *(#[trigger] rest[j]).0,
                    vs,
                ) && ty_within(*rest[j].1, vs) by {
                    assert(rest[j] == old_st[j]);
                }
            }
            let ty1 = Ty::apply(&ty1, &s);
            let ty2 = Ty::apply(&ty2, &s);

            if *ty1 == *ty2 {
                proof {
                    lemma_step_discard(c@, rest, p, s@);
                }
            } else if let Ty::Var(var) = &*ty1 {
                if !contains_var(&*ty2, *var) {
                    let mut s_: Subs = HashMap::new();
                    s_.insert(*var, ty2.clone());
                    proof {
                        lemma_step_bind(c@, rest, p, s@, *var, ty2, vs);
                    }
                    s = Ty::compose(&s, &s_);
                } else {
                    proof {
                        lemma_step_occurs_fail(c@, rest, p, s@, *var, ty2);
                    }
                    return None;
                }
            } else if let Ty::Var(var) = &*ty2 {
                if !contains_var(&*ty1, *var) {
                    let mut s_: Subs = HashMap::new();
                    s_.insert(*var, ty1.clone());
                    proof {
                        lemma_step_bind(c@, rest, p, s@, *var, ty1, vs);
                    }
                    s = Ty::compose(&s, &s_);
                } else {
                    proof {
                        lemma_step_occurs_fail(c@, rest, p, s@, *var, ty1);
                    }
                    return None;
                }
            } else if let Ty::Arr(ty11, ty12) = &*ty1 {
                if let Ty::Arr(ty21, ty22) = &*ty2 {
                    let q1 = (ty11.clone(), ty21.clone());
                    let q2 = (ty12.clone(), ty22.clone());
                    proof {
                        lemma_step_split(c@, rest, p, s@, q1, q2, vs);
                    }
                    stack.push(q1);
                    stack.push(q2);
                } else {
                    proof {
                        lemma_step_clash_fail(c@, rest, p, s@);
                    }
                    return None;
                }
            } else {
                proof {
                    lemma_step_clash_fail(c@, rest, p, s@);
                }
                return None;
            }
        }
        proof {
            lemma_idempotent_refines(s@);
            assert(unifies(stack@, s@));
            assert forall|u: Map<u32, Rc<Ty>>, t: Ty| unifies(c@, u) implies #[trigger] subst_ty(
                subst_ty(t, s@),
                u,
            ) == subst_ty(t, u) by {
                assert(unifies(stack@, u));
                lemma_refines_apply(t, s@, u);
            }
        }
        Some(s)
    }
}

} // verus!
