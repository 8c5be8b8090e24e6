use prolog::bindings::Bindings;
use prolog::clause::Clause;
use prolog::database::Database;
use prolog::substitution::Substitution;
use prolog::term::Term;
use prolog::term_builder::TermBuilder;

#[test]
fn just_atom() {
    let mut t = TermBuilder::new();
    let mut s = Substitution::new();
    let a = t.a();
    assert_eq!(s.map(&a, t.bindings()), Some(t.a()));
}

#[test]
fn substitution_just_variable() {
    let mut t = TermBuilder::new();
    let mut s = Substitution::new();
    let x = t.x();
    assert_eq!(s.map(&x, t.bindings()).expect("Some").to_string(), "X6");
}

#[test]
fn substitution_two_variables() {
    let mut t = TermBuilder::new();
    let mut s = Substitution::new();
    let fxy = t.fxy();
    assert_eq!(s.map(&fxy, t.bindings()).expect("Some").to_string(), "f(X6, X7)");
}

#[test]
fn same_variable_twice() {
    let mut t = TermBuilder::new();
    let mut s = Substitution::new();
    let fxx = t.fxx();
    assert_eq!(s.map(&fxx, t.bindings()).expect("Some").to_string(), "f(X6, X6)");
}

#[test]
fn one_renaming_keeps_its_pairs_over_head_and_body() {
    let mut t = TermBuilder::new();
    let clause = Clause::rule(
        Term::compound("r", vec![t.u(), t.v()]),
        vec![Term::compound("f", vec![t.v(), t.u()]), Term::compound1("g", t.x())],
    );
    let mut s = Substitution::new();
    let renamed = s.map_clause(&clause, t.bindings()).expect("Some");
    assert_eq!(renamed.head.to_string(), "r(X6, X7)");
    assert_eq!(renamed.body.len(), 2);
    assert_eq!(renamed.body[0].to_string(), "f(X7, X6)");
    assert_eq!(renamed.body[1].to_string(), "g(X8)");
    assert!(renamed.contains_variables);
    assert_eq!(t.bindings().last_variable(), 8);
    assert_eq!(t.bindings().len(), 0);
}

#[test]
fn renamed_variables_are_above_the_counter_as_it_stood() {
    let mut t = TermBuilder::new();
    let before = t.bindings().last_variable();
    let clause = Clause::rule(t.fxy(), vec![t.fxx(), Term::compound1("g", t.z())]);
    let mut s = Substitution::new();
    let renamed = s.map_clause(&clause, t.bindings()).expect("Some");
    let mut all = vec![renamed.head.clone()];
    all.extend(renamed.body.iter().cloned());
    let found = Term::find_distinct_variables(&all);
    assert_eq!(found.len(), 3);
    for variable in found {
        match variable {
            Term::Variable(v) => {
                assert!(v.0 > before);
                assert!(v.0 <= t.bindings().last_variable());
                assert_eq!(v.1, None);
            }
            other => panic!("not a variable: {:?}", other),
        }
    }
}

#[test]
fn ground_terms_are_not_changed() {
    let mut t = TermBuilder::new();
    let mut s = Substitution::new();
    let ground = Term::compound("f", vec![t.a(), Term::make_list(vec![t.one(), t.two()])]);
    assert_eq!(s.substitute_new_vars(&ground, t.bindings()), Some(ground.clone()));
    assert_eq!(t.bindings().last_variable(), 5);
}

#[test]
fn renaming_stops_where_the_counter_ends() {
    let mut bindings = Bindings::counting_from(isize::MAX - 1);
    let mut s = Substitution::new();
    let f = Term::compound("f", vec![Term::var_full("A", 1), Term::var_full("B", 2)]);
    assert_eq!(s.map(&f, &mut bindings), None);
    assert_eq!(bindings.last_variable(), isize::MAX);
    let mut fits = Bindings::counting_from(isize::MAX - 2);
    let mut s2 = Substitution::new();
    assert!(s2.map(&f, &mut fits).is_some());
}

#[test]
fn a_database_renames_each_clause_from_scratch() {
    let mut t = TermBuilder::new();
    let db = Database::new(vec![
        Clause::fact(t.fxy()),
        Clause::rule(t.fxa(), vec![Term::compound1("g", t.z()), Term::compound1("h", t.x())]),
        Clause::fact(t.a()),
        Clause::fact(Term::compound1("g", t.x())),
    ]);
    assert_eq!(db.len(), 4);
    assert_eq!(db.matches().len(), 4);
    assert_eq!(db.clause(2), &Clause::fact(t.a()));
    let renamed = db.matches_substituted(t.bindings()).expect("Some");
    assert_eq!(renamed.len(), 4);
    assert_eq!(renamed[0].head.to_string(), "f(X6, X7)");
    assert_eq!(renamed[1].head.to_string(), "f(X8, a)");
    assert_eq!(renamed[1].body[0].to_string(), "g(X9)");
    assert_eq!(renamed[1].body[1].to_string(), "h(X8)");
    assert_eq!(renamed[2], Clause::fact(t.a()));
    assert!(!renamed[2].contains_variables);
    assert_eq!(renamed[3].head.to_string(), "g(X10)");
    assert_eq!(t.bindings().last_variable(), 10);
}

#[test]
fn a_database_is_not_renamed_past_the_end_of_the_counter() {
    let db = Database::new(vec![
        Clause::fact(Term::var_full("A", 1)),
        Clause::fact(Term::var_full("A", 1)),
    ]);
    let mut short = Bindings::counting_from(isize::MAX - 1);
    assert_eq!(db.matches_substituted(&mut short), None);
    assert_eq!(short.last_variable(), isize::MAX);
    let mut enough = Bindings::counting_from(isize::MAX - 2);
    assert!(db.matches_substituted(&mut enough).is_some());
}

#[test]
fn clauses_know_whether_they_hold_variables() {
    let t = TermBuilder::new();
    assert!(!Clause::fact(t.fab()).contains_variables);
    assert!(Clause::fact(t.fxa()).contains_variables);
    assert!(Clause::rule(t.a(), vec![t.b(), t.fxy()]).contains_variables);
    assert!(!Clause::rule(t.a(), vec![t.b(), t.fab()]).contains_variables);
    let rule = Clause::rule(t.a(), vec![t.b()]);
    assert_eq!(rule.duplicate(), rule);
    assert_eq!(Clause::rule(t.a(), vec![]), Clause::fact(t.a()));
}
