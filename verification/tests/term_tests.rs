use prolog::bindings::Bindings;
use prolog::term::Term;
use prolog::variable::Variable;

#[test]
fn simple_ones() {
    let mut bindings = Bindings::new();
    assert_eq!(Term::integer(3).to_string(), "3");
    assert_eq!(Term::atom("a").to_string(), "a");
    assert_eq!(Term::var("X", &mut bindings).to_string(), "X");
    assert_eq!(Term::var_unnamed(&mut bindings).to_string(), "X2");
    assert_eq!(Term::var_unnamed(&mut bindings).to_string(), "X3");
}

#[test]
fn compound() {
    let mut bindings = Bindings::new();
    assert_eq!(Term::compound1("f", Term::atom("a")).to_string(), "f(a)");
    assert_eq!(
        Term::compound(
            "f",
            vec![Term::atom("a"), Term::atom("b"), Term::var("X", &mut bindings)],
        )
        .to_string(),
        "f(a, b, X)"
    );
}

#[test]
fn term_empty_list() {
    assert_eq!(Term::empty_list().to_string(), "[]");
}

#[test]
fn term_list() {
    let term = Term::make_list(vec![Term::integer(1), Term::integer(2), Term::integer(3)]);
    assert_eq!(term.to_string(), "[1,2,3]");
}

#[test]
fn term_bar_list() {
    let mut bindings = Bindings::new();
    let term = Term::list(Term::integer(1), Term::var("X", &mut bindings));
    assert_eq!(term.to_string(), "[1|X]");
}

#[test]
fn bar_list2() {
    let mut bindings = Bindings::new();
    let term = Term::list(
        Term::integer(1),
        Term::list(Term::integer(2), Term::var("X", &mut bindings)),
    );
    assert_eq!(term.to_string(), "[1,2|X]");
}

#[test]
fn term_simple_ones() {
    let mut bindings = Bindings::new();
    assert!(!Term::integer(3).contains_variables());
    assert!(!Term::atom("a").contains_variables());
    assert!(Term::var("X", &mut bindings).contains_variables());
    assert!(Term::var_unnamed(&mut bindings).contains_variables());
    assert!(Term::var_unnamed(&mut bindings).contains_variables());
}

#[test]
fn term_compound() {
    let mut bindings = Bindings::new();
    assert!(!Term::compound1("f", Term::atom("a")).contains_variables());
    assert!(Term::compound(
        "f",
        vec![Term::atom("a"), Term::atom("b"), Term::var("X", &mut bindings)],
    )
    .contains_variables());
}

#[test]
fn none() {
    let i = Term::integer(3);
    assert_eq!(Term::find_distinct_variables(&vec![i.clone()]), vec![]);

    let a = Term::atom("a");
    assert_eq!(Term::find_distinct_variables(&vec![a.clone()]), vec![]);

    let f = Term::compound1("f", Term::atom("a"));
    assert_eq!(Term::find_distinct_variables(&vec![f.clone()]), vec![]);
}

#[test]
fn term_just_variable() {
    let mut new_bindings = Bindings::new();
    let x = Term::var("X", &mut new_bindings);
    assert_eq!(Term::find_distinct_variables(&vec![x.clone()]), vec![x]);
}

#[test]
fn compound_with_variables() {
    let mut new_bindings = Bindings::new();
    let y = Term::var("Y", &mut new_bindings);
    let f = Term::compound("f", vec![y.clone(), y.clone()]);
    assert_eq!(Term::find_distinct_variables(&vec![f.clone()]), vec![y]);
}

#[test]
fn enable_suite() {}

#[test]
fn distinct_variables_come_in_the_order_of_their_first_occurrence() {
    let mut bindings = Bindings::new();
    let x = Term::var("X", &mut bindings);
    let y = Term::var("Y", &mut bindings);
    let z = Term::var("Z", &mut bindings);
    let first = Term::compound("f", vec![y.clone(), Term::compound1("g", x.clone()), y.clone()]);
    let second = Term::compound("h", vec![x.clone(), z.clone()]);
    assert_eq!(Term::find_distinct_variables(&vec![first, second]), vec![y, x, z]);
}

#[test]
fn a_variable_is_its_identity_whatever_its_name() {
    let x = Term::var_full("X", 1);
    let y = Term::var_full("Y", 1);
    let z = Term::var_full("X", 2);
    assert!(x.same(&y));
    assert!(!x.same(&z));
    assert_eq!(Term::find_distinct_variables(&vec![x.clone(), y.clone()]), vec![x.clone()]);
    assert_eq!(Term::find_distinct_variables(&vec![y.clone(), x.clone()]), vec![y.clone()]);
    let f = Term::compound("f", vec![z.clone(), y.clone(), x.clone(), z.clone()]);
    assert_eq!(Term::find_distinct_variables(&vec![f]), vec![z.clone(), y]);
    let mut set = vec![x.clone()];
    Term::find_variables_set(&Term::var_full("Other", 1), &mut set);
    Term::find_variables_set(&z, &mut set);
    assert_eq!(set, vec![x, z]);
}

#[test]
fn constructors_build_what_they_say() {
    assert_eq!(Term::integer(-4), Term::Int(-4));
    assert_eq!(Term::atom("abc"), Term::Atom("abc".to_string()));
    assert_eq!(
        Term::compound1("f", Term::integer(1)),
        Term::CompoundTerm("f".to_string(), vec![Term::Int(1)])
    );
    assert_eq!(
        Term::var_full("X", 9),
        Term::Variable(Variable(9, Some("X".to_string())))
    );
    assert_eq!(Term::empty_list(), Term::Atom("_emptyList".to_string()));
    assert_eq!(
        Term::list(Term::integer(1), Term::empty_list()),
        Term::CompoundTerm(
            "_list".to_string(),
            vec![Term::Int(1), Term::Atom("_emptyList".to_string())]
        )
    );
}

#[test]
fn make_list_nests_to_the_right() {
    assert_eq!(Term::make_list(vec![]), Term::empty_list());
    assert_eq!(
        Term::make_list(vec![Term::integer(1), Term::integer(2)]),
        Term::list(Term::integer(1), Term::list(Term::integer(2), Term::empty_list()))
    );
    assert_eq!(
        Term::make_list_onto(vec![Term::integer(1), Term::integer(2)], Term::atom("t")),
        Term::list(Term::integer(1), Term::list(Term::integer(2), Term::atom("t")))
    );
}

#[test]
fn clone_is_equal() {
    let term = Term::compound(
        "f",
        vec![Term::var_full("X", 1), Term::make_list(vec![Term::integer(1), Term::atom("a")])],
    );
    assert_eq!(term.clone(), term);
    assert!(term.clone().same(&term));
}

#[test]
fn same_tells_terms_apart() {
    let f = Term::compound("f", vec![Term::integer(1), Term::atom("a")]);
    assert!(!f.same(&Term::compound("f", vec![Term::integer(1), Term::atom("b")])));
    assert!(!f.same(&Term::compound("f", vec![Term::integer(1)])));
    assert!(!f.same(&Term::compound("g", vec![Term::integer(1), Term::atom("a")])));
    assert!(!Term::atom("1").same(&Term::integer(1)));
    assert!(!Term::var_full("X", 1).same(&Term::var_full("X", 2)));
    assert!(Term::var_full("X", 1).same(&Term::Variable(Variable(1, None))));
    let named = Term::compound("f", vec![Term::var_full("A", 1), Term::var_full("B", 2)]);
    let other = Term::compound("f", vec![Term::var_full("C", 1), Term::var_full("D", 2)]);
    let swapped = Term::compound("f", vec![Term::var_full("A", 2), Term::var_full("B", 1)]);
    assert!(named.same(&other));
    assert!(!named.same(&swapped));
}

#[test]
fn printed_forms() {
    assert_eq!(Term::integer(0).to_string(), "0");
    assert_eq!(Term::integer(-12).to_string(), "-12");
    assert_eq!(Term::integer(1000).to_string(), "1000");
    assert_eq!(Term::integer(isize::MAX).to_string(), isize::MAX.to_string());
    assert_eq!(Term::integer(isize::MIN).to_string(), isize::MIN.to_string());
    assert_eq!(Term::compound("f", vec![]).to_string(), "f()");
    assert_eq!(
        Term::compound("f", vec![Term::compound1("g", Term::integer(1)), Term::empty_list()])
            .to_string(),
        "f(g(1), [])"
    );
    assert_eq!(
        Term::make_list(vec![
            Term::make_list(vec![Term::atom("a")]),
            Term::compound1("f", Term::var_full("X", 1)),
        ])
        .to_string(),
        "[[a],f(X)]"
    );
    assert_eq!(Term::list(Term::atom("a"), Term::integer(2)).to_string(), "[a|2]");
    assert_eq!(Term::Variable(Variable(42, None)).to_string(), "X42");
    assert_eq!(Variable(7, None).to_string(), "X7");
    assert_eq!(Variable(7, Some("Seven".to_string())).to_string(), "Seven");
}

#[test]
fn a_list_functor_with_one_argument_is_printed_as_a_compound() {
    assert_eq!(Term::compound("_list", vec![Term::integer(1)]).to_string(), "_list(1)");
    let tail = Term::compound("_list", vec![Term::integer(2)]);
    assert_eq!(Term::list(Term::integer(1), tail).to_string(), "[1|_list(2)]");
}

#[test]
fn variables_know_their_identity() {
    let mut bindings = Bindings::new();
    let named = Variable::new_named(&mut bindings, "N");
    let unnamed = Variable::new(&mut bindings);
    assert_eq!(named, Variable(1, Some("N".to_string())));
    assert_eq!(unnamed, Variable(2, None));
    assert!(named.same(&named.duplicate()));
    assert!(!named.same(&unnamed));
    assert!(named.same(&Variable(1, None)));
    assert!(named.same(&Variable(1, Some("Other".to_string()))));
}
