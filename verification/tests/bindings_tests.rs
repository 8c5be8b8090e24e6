use prolog::bindings::Bindings;
use prolog::term::Term;
use prolog::term_builder::TermBuilder;

#[test]
fn bound_variable() {
    let mut bindings = Bindings::new();
    let x = Term::var("X", &mut bindings);
    let a = Term::atom("a");
    bindings.add_variable(&x, a.clone());
    assert_eq!(bindings.term_bound_directly_to(&x).expect("Some"), a.clone());
}

#[test]
fn bound_variable_chain_to_atom() {
    let mut bindings = Bindings::new();
    let x = Term::var("X", &mut bindings);
    let y = Term::var("Y", &mut bindings);
    let a = Term::atom("a");
    bindings.add_variable(&x, y.clone());
    bindings.add_variable(&y, a.clone());
    assert_eq!(bindings.term_bound_directly_to(&x).expect("Some"), y.clone());
    assert_eq!(bindings.term_bound_directly_to(&y).expect("Some"), a.clone());
}

#[test]
fn bound_variable_chain_to_compound() {
    let mut bindings = Bindings::new();
    let x = Term::var("X", &mut bindings);
    let y = Term::var("Y", &mut bindings);
    let cat = Term::compound1("cat", Term::atom("a"));

    bindings.add_variable(&x, y.clone());
    bindings.add_variable(&y, cat.clone());
    assert_eq!(bindings.term_bound_directly_to(&x).expect("Some"), y.clone());
    assert_eq!(bindings.term_bound_directly_to(&y).expect("Some"), cat.clone());
}

#[test]
fn unbound_variable() {
    let mut t = TermBuilder::new();
    let x = t.x();
    assert_eq!(t.bindings().instantiate(&x), Some(t.x()));
}

#[test]
fn bindings_bound_variable() {
    let mut t = TermBuilder::new();
    let (x, a) = (t.x(), t.a());
    t.bindings().add_variable(&x, a);
    assert_eq!(t.bindings().instantiate(&x), Some(t.a()));
}

#[test]
fn bindings_bound_variable_chain_to_atom() {
    let mut t = TermBuilder::new();
    let (x, y, a) = (t.x(), t.y(), t.a());
    t.bindings().add_variable(&x, y.clone());
    t.bindings().add_variable(&y, a);
    assert_eq!(t.bindings().instantiate(&x), Some(t.a()));
}

#[test]
fn bound_variable_chain2_to_compound() {
    let mut t = TermBuilder::new();
    let cat = Term::compound1("cat", t.a());
    let (x, y) = (t.x(), t.y());
    t.bindings().add_variable(&x, y.clone());
    t.bindings().add_variable(&y, cat.clone());
    assert_eq!(t.bindings().instantiate(&x), Some(cat));
}

#[test]
fn bound_variable_chain3_to_compound() {
    let mut t = TermBuilder::new();
    let cat = Term::compound1("cat", t.a());
    let (x, y, z) = (t.x(), t.y(), t.z());
    t.bindings().add_variable(&x, y.clone());
    t.bindings().add_variable(&y, z.clone());
    t.bindings().add_variable(&z, cat.clone());
    assert_eq!(t.bindings().instantiate(&x), Some(cat));
}

#[test]
fn new_bindings_are_empty_and_count_from_one() {
    let mut bindings = Bindings::new();
    assert_eq!(bindings.len(), 0);
    assert_eq!(bindings.depth(), 0);
    assert_eq!(bindings.last_variable(), 0);
    assert_eq!(bindings.next(), 1);
    assert_eq!(bindings.next(), 2);
    assert_eq!(bindings.last_variable(), 2);
}

#[test]
fn lookup_is_one_step_and_innermost_first() {
    let mut bindings = Bindings::new();
    let x = Term::var("X", &mut bindings);
    let y = Term::var("Y", &mut bindings);
    bindings.add_variable(&x, y.clone());
    bindings.stack();
    bindings.add_variable(&y, Term::integer(7));
    assert_eq!(bindings.len(), 2);
    assert_eq!(bindings.depth(), 1);
    assert_eq!(bindings.term_bound_directly_to(&x), Some(y.clone()));
    assert_eq!(bindings.instantiate(&x), Some(Term::integer(7)));
    bindings.unstack();
    assert_eq!(bindings.len(), 1);
    assert_eq!(bindings.depth(), 0);
    assert_eq!(bindings.term_bound_directly_to(&y), None);
    assert_eq!(bindings.instantiate(&x), Some(y));
}

#[test]
fn unstack_of_the_outermost_frame_changes_nothing() {
    let mut bindings = Bindings::new();
    let x = Term::var("X", &mut bindings);
    bindings.add_variable(&x, Term::atom("a"));
    bindings.unstack();
    assert_eq!(bindings.len(), 1);
    assert_eq!(bindings.depth(), 0);
}

#[test]
fn rewind_drops_the_latest_bindings() {
    let mut bindings = Bindings::new();
    bindings.add(1, Term::atom("a"));
    bindings.add(2, Term::atom("b"));
    bindings.add(3, Term::atom("c"));
    bindings.rewind(5);
    assert_eq!(bindings.len(), 3);
    bindings.rewind(1);
    assert_eq!(bindings.len(), 1);
    assert_eq!(bindings.instantiate(&Term::var_full("A", 1)), Some(Term::atom("a")));
    assert_eq!(bindings.instantiate(&Term::var_full("B", 2)), Some(Term::var_full("B", 2)));
}

#[test]
fn instantiate_goes_into_compounds() {
    let mut bindings = Bindings::new();
    let x = Term::var("X", &mut bindings);
    let y = Term::var("Y", &mut bindings);
    let z = Term::var("Z", &mut bindings);
    bindings.add_variable(&x, Term::compound("g", vec![y.clone(), z.clone()]));
    bindings.add_variable(&y, Term::integer(1));
    let term = Term::compound("f", vec![x.clone(), Term::atom("a"), x.clone()]);
    let g = Term::compound("g", vec![Term::integer(1), z.clone()]);
    assert_eq!(
        bindings.instantiate(&term),
        Some(Term::compound("f", vec![g.clone(), Term::atom("a"), g]))
    );
}

#[test]
fn instantiate_is_idempotent() {
    let mut bindings = Bindings::new();
    let x = Term::var("X", &mut bindings);
    let y = Term::var("Y", &mut bindings);
    let z = Term::var("Z", &mut bindings);
    bindings.add_variable(&x, Term::compound1("g", y.clone()));
    bindings.add_variable(&y, z.clone());
    let term = Term::compound("f", vec![x, y]);
    let once = bindings.instantiate(&term).expect("Some");
    let z2 = z.clone();
    assert_eq!(once, Term::compound("f", vec![Term::compound1("g", z), z2]));
    assert_eq!(bindings.instantiate(&once), Some(once.clone()));
}

#[test]
fn instantiate_has_nothing_for_a_circle() {
    let mut bindings = Bindings::new();
    let x = Term::var("X", &mut bindings);
    let y = Term::var("Y", &mut bindings);
    bindings.add_variable(&x, Term::compound1("f", x.clone()));
    assert_eq!(bindings.instantiate(&x), None);
    assert_eq!(bindings.instantiate(&Term::compound1("g", x.clone())), None);
    assert_eq!(bindings.instantiate(&y), Some(y.clone()));
    assert_eq!(bindings.term_bound_directly_to(&x), Some(Term::compound1("f", x)));
}

#[test]
fn a_chain_as_long_as_the_trail_is_followed() {
    let mut bindings = Bindings::new();
    let x = Term::var("X", &mut bindings);
    let y = Term::var("Y", &mut bindings);
    let z = Term::var("Z", &mut bindings);
    bindings.add_variable(&x, y.clone());
    bindings.add_variable(&y, z.clone());
    bindings.add_variable(&z, Term::atom("end"));
    assert_eq!(bindings.instantiate(&x), Some(Term::atom("end")));
}

#[test]
fn duplicate_is_equal_and_apart() {
    let mut bindings = Bindings::counting_from(10);
    let x = Term::var("X", &mut bindings);
    assert_eq!(x, Term::var_full("X", 11));
    bindings.add_variable(&x, Term::atom("a"));
    let mut copy = bindings.duplicate();
    copy.add(12, Term::atom("b"));
    assert_eq!(bindings.len(), 1);
    assert_eq!(copy.len(), 2);
    assert_eq!(copy.last_variable(), 11);
    assert_eq!(copy.instantiate(&x), Some(Term::atom("a")));
}
