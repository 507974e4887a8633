use std::collections::HashMap;
use std::rc::Rc;

use type_check::Ty;

#[test]
fn empty_substitution() {
    let ty = Ty::arr(Ty::var(0), Ty::var(1));
    let s = HashMap::new();

    assert_eq!(Ty::apply(&ty, &s), ty);
}

#[test]
fn type_without_variables() {
    let ty = Ty::arr(Ty::bool(), Ty::arr(Ty::natural(), Ty::bool()));

    let mut s = HashMap::new();
    s.insert(0, Ty::natural());
    s.insert(1, Ty::bool());

    assert_eq!(Ty::apply(&ty, &s), ty);
}

#[test]
fn no_common_variables() {
    let ty = Ty::arr(Ty::var(0), Ty::var(1));

    let mut s = HashMap::new();
    s.insert(2, Ty::natural());
    s.insert(3, Ty::bool());

    assert_eq!(Ty::apply(&ty, &s), ty);
}

#[test]
fn variable_type() {
    let ty = Ty::var(0);

    let mut s = HashMap::new();
    s.insert(0, Ty::arr(Ty::bool(), Ty::var(0)));

    assert_eq!(Ty::apply(&ty, &s), s[&0]);
}

#[test]
fn complex_type() {
    let ty = Ty::arr(Ty::var(0), Ty::arr(Ty::natural(), Ty::var(1)));

    let mut s = HashMap::new();
    s.insert(0, Ty::arr(Ty::var(0), Ty::bool()));
    s.insert(1, Ty::arr(Ty::natural(), Ty::arr(Ty::var(2), Ty::var(1))));
    s.insert(2, Ty::natural());

    let applied = Ty::arr(
        Ty::arr(Ty::var(0), Ty::bool()),
        Ty::arr(
            Ty::natural(),
            Ty::arr(Ty::natural(), Ty::arr(Ty::var(2), Ty::var(1)))));

    assert_eq!(Ty::apply(&ty, &s), applied);
}

#[test]
fn apply_unchanged_keeps_the_same_node() {
    let ty = Ty::arr(Ty::var(0), Ty::arr(Ty::natural(), Ty::var(1)));

    let mut s = HashMap::new();
    s.insert(5, Ty::bool());

    assert!(Rc::ptr_eq(&Ty::apply(&ty, &s), &ty));
}

#[test]
fn apply_rebuilds_only_the_changed_side() {
    let left = Ty::arr(Ty::natural(), Ty::var(7));
    let ty = Ty::arr(left.clone(), Ty::var(1));

    let mut s = HashMap::new();
    s.insert(1, Ty::bool());

    let applied = Ty::apply(&ty, &s);
    assert_eq!(applied, Ty::arr(Ty::arr(Ty::natural(), Ty::var(7)), Ty::bool()));
    match &*applied {
        Ty::Arr(d, _) => assert!(Rc::ptr_eq(d, &left)),
        _ => panic!("expected an arrow"),
    }
}

#[test]
fn apply_does_not_reapply_images() {
    let ty = Ty::var(0);

    let mut s = HashMap::new();
    s.insert(0, Ty::var(1));
    s.insert(1, Ty::natural());

    assert_eq!(Ty::apply(&ty, &s), Ty::var(1));
}

#[test]
fn apply_on_base_types() {
    let mut s = HashMap::new();
    s.insert(0, Ty::natural());

    assert_eq!(Ty::apply(&Ty::bool(), &s), Ty::bool());
    assert_eq!(Ty::apply(&Ty::natural(), &s), Ty::natural());
}

#[test]
fn structural_equality() {
    assert_eq!(Ty::arr(Ty::var(3), Ty::bool()), Ty::arr(Ty::var(3), Ty::bool()));
    assert_ne!(Ty::var(3), Ty::var(4));
    assert_ne!(Ty::bool(), Ty::natural());
    assert_ne!(Ty::arr(Ty::bool(), Ty::natural()), Ty::arr(Ty::natural(), Ty::bool()));
}
