use prolog::bindings::Bindings;
use prolog::term::Term;
use prolog::term_builder::TermBuilder;
use prolog::unify::{unify, unify_variable};

fn unified_variable(term1: Term, term2: Term, t: &mut TermBuilder, result: bool) {
    assert_eq!(unify_variable(&term1, &term2, t.bindings()), result);
}

fn unified(t1: Term, t2: Term, t: &mut TermBuilder, result: bool) {
    assert_eq!(unify(&t1, &t2, t.bindings()), result);
}

#[test]
fn var_and_atom() {
    let mut t = TermBuilder::new();
    unified_variable(t.x(), t.a(), &mut t, true);
    let x = t.x();
    assert_eq!(t.bindings().instantiate(&x), Some(t.a()));
}

#[test]
fn var_and_atom_where_var_already_bound_to_that_atom() {
    let mut t = TermBuilder::new();
    let (x, a) = (t.x(), t.a());
    t.bindings().add_variable(&x, a);
    let len = t.bindings().len();
    unified_variable(t.x(), t.a(), &mut t, true);
    assert_eq!(t.bindings().instantiate(&x), Some(t.a()));
    assert_eq!(t.bindings().len(), len);
}

#[test]
fn var_and_atom_where_var_already_bound_to_other_atom() {
    let mut t = TermBuilder::new();
    let (x, b) = (t.x(), t.b());
    t.bindings().add_variable(&x, b);
    unified_variable(t.a(), t.x(), &mut t, false);
}

#[test]
fn var_and_same_var() {
    let mut t = TermBuilder::new();
    unified_variable(t.x(), t.x(), &mut t, true);
    let x = t.x();
    assert_eq!(t.bindings().instantiate(&x), Some(t.x()));
}

#[test]
fn var_and_different_var() {
    let mut t = TermBuilder::new();
    unified_variable(t.x(), t.y(), &mut t, true);
    let x = t.x();
    assert_eq!(t.bindings().instantiate(&x), Some(t.y()));
}

#[test]
fn atoms() {
    let mut t = TermBuilder::new();
    unified(t.a(), t.a(), &mut t, true);
    unified(t.a(), t.b(), &mut t, false);
    assert!(t.no_bindings());
}

#[test]
fn ints() {
    let mut t = TermBuilder::new();
    unified(t.one(), t.one(), &mut t, true);
    unified(t.one(), t.two(), &mut t, false);
    assert!(t.no_bindings());
}

#[test]
fn variables_only() {
    let mut t = TermBuilder::new();
    unified(t.x(), t.x(), &mut t, true);
    unified(t.x(), t.y(), &mut t, true);
    unified(t.y(), t.x(), &mut t, true);
    assert!(t.bound_to(&t.x(), &t.y()));
}

#[test]
fn variable_to_atom() {
    let mut t = TermBuilder::new();
    unified(t.x(), t.a(), &mut t, true);
    unified(t.a(), t.y(), &mut t, true);
    assert!(t.bound_to(&t.x(), &t.a()));
    assert!(t.bound_to(&t.y(), &t.a()));
}

#[test]
fn compounds() {
    let mut t = TermBuilder::new();
    let fa2 = Term::compound1("f", t.a());
    unified(t.fa(), t.fa(), &mut t, true);
    unified(t.fa(), fa2, &mut t, true);
    unified(t.fa(), t.fb(), &mut t, false);
    assert!(t.no_bindings());
}

#[test]
fn failing_simple_unification() {
    let mut t = TermBuilder::new();
    unified(t.a(), t.one(), &mut t, false);
    unified(t.one(), t.a(), &mut t, false);
    unified(t.a(), t.fa(), &mut t, false);
    unified(t.fa(), t.a(), &mut t, false);
    unified(t.one(), t.fa(), &mut t, false);
    unified(t.fa(), t.one(), &mut t, false);
    unified(t.fa(), t.fb(), &mut t, false);
    unified(t.fa(), t.faa(), &mut t, false);
    unified(t.fa(), t.ga(), &mut t, false);
    assert!(t.no_bindings());
}

#[test]
fn bind_one_level() {
    let mut t = TermBuilder::new();
    unified(t.a(), t.x(), &mut t, true);
    assert!(t.bound_to(&t.x(), &t.a()));

    unified(t.one(), t.y(), &mut t, true);
    assert!(t.bound_to(&t.y(), &t.one()));

    unified(t.fab(), t.z(), &mut t, true);
    assert!(t.bound_to(&t.z(), &t.fab()));
}

#[test]
fn bind_multiple_variables() {
    let mut t = TermBuilder::new();
    unified(t.fab(), t.fxy(), &mut t, true);
    assert!(t.bound_to(&t.x(), &t.a()));
    assert!(t.bound_to(&t.y(), &t.b()));
}

#[test]
fn bind_multiple_variables_bidirectional() {
    let mut t = TermBuilder::new();
    let term1 = Term::compound("f", vec![t.b(), t.y()]);
    unified(term1, t.fxa(), &mut t, true);
    assert!(t.bound_to(&t.x(), &t.b()));
    assert!(t.bound_to(&t.y(), &t.a()));
}

#[test]
fn bind_triple() {
    let mut t = TermBuilder::new();
    let term1 = Term::compound("f", vec![t.a(), t.y()]);
    unified(term1, t.fxx(), &mut t, true);
    assert!(t.bound_to(&t.x(), &t.a()));
    assert!(t.bound_to(&t.y(), &t.a()));
}

#[test]
fn a_variable_is_bound_to_the_instantiated_other_side() {
    let mut bindings = Bindings::new();
    let x = Term::var("X", &mut bindings);
    let y = Term::var("Y", &mut bindings);
    let z = Term::var("Z", &mut bindings);
    bindings.add_variable(&y, Term::atom("a"));
    let other = Term::compound("f", vec![y.clone(), z.clone()]);
    assert!(unify(&x, &other, &mut bindings));
    assert_eq!(bindings.len(), 2);
    assert_eq!(
        bindings.term_bound_directly_to(&x),
        Some(Term::compound("f", vec![Term::atom("a"), z]))
    );
}

#[test]
fn bindings_made_before_a_failure_stay() {
    let mut t = TermBuilder::new();
    let left = Term::compound("f", vec![t.x(), t.a()]);
    let right = Term::compound("f", vec![t.one(), t.b()]);
    unified(left, right, &mut t, false);
    assert_eq!(t.bindings().len(), 1);
    assert!(t.bound_to(&t.x(), &t.one()));
}

#[test]
fn no_occurs_check_is_made() {
    let mut t = TermBuilder::new();
    let fx = Term::compound1("f", t.x());
    unified(t.x(), fx.clone(), &mut t, true);
    let x = t.x();
    assert_eq!(t.bindings().term_bound_directly_to(&x), Some(fx));
    assert_eq!(t.bindings().instantiate(&x), None);
    unified(t.x(), t.a(), &mut t, false);
}

#[test]
fn unification_succeeds_both_ways_round() {
    let pairs = |t: &TermBuilder| {
        vec![
            (t.fxy(), t.fab()),
            (t.fxx(), t.fab()),
            (t.fxx(), t.faa()),
            (t.x(), t.y()),
            (t.fxa(), Term::compound("f", vec![t.b(), t.y()])),
            (t.a(), t.one()),
            (t.fa(), t.ga()),
        ]
    };
    let expected = vec![true, false, true, true, true, false, false];
    let count = expected.len();
    for i in 0..count {
        let mut forth = TermBuilder::new();
        let (a, b) = pairs(&forth).swap_remove(i);
        assert_eq!(unify(&a, &b, forth.bindings()), expected[i]);
        let mut back = TermBuilder::new();
        assert_eq!(unify(&b, &a, back.bindings()), expected[i]);
        if expected[i] {
            assert_eq!(forth.bindings().instantiate(&a), forth.bindings().instantiate(&b));
            assert_eq!(back.bindings().instantiate(&a), back.bindings().instantiate(&b));
        }
    }
}

#[test]
fn after_success_both_sides_instantiate_to_the_same_term() {
    let mut t = TermBuilder::new();
    let left = Term::compound("p", vec![t.x(), Term::compound1("g", t.y()), t.z()]);
    let right = Term::compound("p", vec![Term::compound1("h", t.z()), t.u(), t.a()]);
    unified(left.clone(), right.clone(), &mut t, true);
    let expected = Term::compound(
        "p",
        vec![
            Term::compound1("h", t.a()),
            Term::compound1("g", t.y()),
            t.a(),
        ],
    );
    assert_eq!(t.bindings().instantiate(&left), Some(expected.clone()));
    assert_eq!(t.bindings().instantiate(&right), Some(expected));
}

#[test]
fn deep_terms_unify() {
    let mut t = TermBuilder::new();
    let mut left = t.x();
    let mut right = t.a();
    for _ in 0..2000 {
        left = Term::compound1("s", left);
        right = Term::compound1("s", right);
    }
    unified(left, right, &mut t, true);
    assert!(t.bound_to(&t.x(), &t.a()));
}

#[test]
fn a_bound_variable_is_unified_through_its_binding() {
    let mut t = TermBuilder::new();
    let (x, y, a) = (t.x(), t.y(), t.a());
    t.bindings().add_variable(&x, Term::compound("f", vec![y.clone(), a]));
    let other = Term::compound("f", vec![t.b(), t.z()]);
    unified(t.x(), other, &mut t, true);
    assert!(t.bound_to(&t.y(), &t.b()));
    assert!(t.bound_to(&t.z(), &t.a()));
    assert_eq!(t.bindings().len(), 3);
    unified_variable(t.fab(), t.x(), &mut t, false);
    unified_variable(Term::compound("f", vec![t.b(), t.a()]), t.x(), &mut t, true);
    assert_eq!(t.bindings().len(), 3);
}

#[test]
fn either_order_gives_answers_that_refine_each_other() {
    let mut forth = TermBuilder::new();
    let mut back = TermBuilder::new();
    let left = Term::compound("p", vec![forth.x(), forth.y(), Term::compound1("g", forth.z())]);
    let right = Term::compound("p", vec![forth.y(), forth.u(), Term::compound1("g", forth.a())]);
    assert!(unify(&left, &right, forth.bindings()));
    assert!(unify(&right, &left, back.bindings()));
    let x = forth.x();
    let first = forth.bindings().instantiate(&x).expect("Some");
    let second = back.bindings().instantiate(&x).expect("Some");
    assert_eq!(first, forth.u());
    assert_eq!(second, forth.x());
    assert_eq!(forth.bindings().instantiate(&second), Some(first.clone()));
    assert_eq!(back.bindings().instantiate(&first), Some(second));
    let z = forth.z();
    assert_eq!(forth.bindings().instantiate(&z), Some(forth.a()));
    assert_eq!(back.bindings().instantiate(&z), Some(forth.a()));
}

#[test]
fn names_do_not_count_in_unification() {
    let mut t = TermBuilder::new();
    let x = Term::var_full("X", 1);
    let other = Term::var_full("Other", 1);
    unified(x.clone(), other.clone(), &mut t, true);
    assert!(t.no_bindings());
    unified(Term::compound1("f", other), Term::compound1("f", t.a()), &mut t, true);
    assert!(t.bound_to(&x, &t.a()));
}
