use std::collections::HashMap;

use type_check::Ty;

#[test]
fn inverting_subs() {
    let mut s = HashMap::new();
    s.insert(0, Ty::var(1));
    s.insert(1, Ty::var(0));

    assert_eq!(Ty::compose(&s, &s), HashMap::new());
}

#[test]
fn neutralize_fist_subs() {
    let mut s1 = HashMap::new();
    s1.insert(0, Ty::var(1));

    let mut s2 = HashMap::new();
    s2.insert(1, Ty::var(0));

    assert_eq!(Ty::compose(&s1, &s2), s2);
}

#[test]
fn lib_no_common_variables() {
    let mut s1 = HashMap::new();
    s1.insert(0, Ty::natural());
    s1.insert(1, Ty::var(0));

    let mut s2 = HashMap::new();
    s2.insert(2, Ty::var(1));
    s2.insert(3, Ty::bool());

    let mut composed = HashMap::new();
    composed.insert(0, Ty::natural());
    composed.insert(1, Ty::var(0));
    composed.insert(2, Ty::var(1));
    composed.insert(3, Ty::bool());

    assert_eq!(Ty::compose(&s1, &s2), composed);
}

#[test]
fn complex_composition() {
    let mut s1 = HashMap::new();
    s1.insert(0, Ty::arr(Ty::arr(Ty::var(2), Ty::bool()), Ty::var(1)));
    s1.insert(1, Ty::natural());

    let mut s2 = HashMap::new();
    s2.insert(1, Ty::arr(Ty::var(2), Ty::bool()));
    s2.insert(2, Ty::arr(Ty::natural(), Ty::var(1)));

    let mut composed = HashMap::new();
    composed.insert(0, Ty::arr(
            Ty::arr(Ty::arr(Ty::natural(), Ty::var(1)), Ty::bool()),
            Ty::arr(Ty::var(2), Ty::bool())));
    composed.insert(1, Ty::natural());
    composed.insert(2, Ty::arr(Ty::natural(), Ty::var(1)));

    assert_eq!(Ty::compose(&s1, &s2), composed);
}

#[test]
fn compose_swap_of_other_variables_collapses() {
    let mut s = HashMap::new();
    s.insert(4, Ty::var(9));
    s.insert(9, Ty::var(4));

    assert!(Ty::compose(&s, &s).is_empty());
}

#[test]
fn compose_then_apply_is_apply_twice() {
    let ty = Ty::arr(Ty::var(0), Ty::arr(Ty::var(1), Ty::var(2)));

    let mut s1 = HashMap::new();
    s1.insert(0, Ty::arr(Ty::var(1), Ty::bool()));
    s1.insert(2, Ty::var(3));

    let mut s2 = HashMap::new();
    s2.insert(1, Ty::natural());
    s2.insert(3, Ty::var(2));

    let composed = Ty::compose(&s1, &s2);
    assert_eq!(Ty::apply(&ty, &composed), Ty::apply(&Ty::apply(&ty, &s1), &s2));
    assert_eq!(
        Ty::apply(&ty, &composed),
        Ty::arr(Ty::arr(Ty::natural(), Ty::bool()), Ty::arr(Ty::natural(), Ty::var(2))));
}

#[test]
fn compose_is_order_sensitive() {
    let mut s1 = HashMap::new();
    s1.insert(0, Ty::var(1));

    let mut s2 = HashMap::new();
    s2.insert(1, Ty::natural());

    let mut forward = HashMap::new();
    forward.insert(0, Ty::natural());
    forward.insert(1, Ty::natural());

    let mut backward = HashMap::new();
    backward.insert(0, Ty::var(1));
    backward.insert(1, Ty::natural());

    assert_eq!(Ty::compose(&s1, &s2), forward);
    assert_eq!(Ty::compose(&s2, &s1), backward);
}

#[test]
fn compose_with_empty() {
    let mut s = HashMap::new();
    s.insert(0, Ty::arr(Ty::var(1), Ty::bool()));

    assert_eq!(Ty::compose(&s, &HashMap::new()), s);
    assert_eq!(Ty::compose(&HashMap::new(), &s), s);
}
