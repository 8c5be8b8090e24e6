use prolog::bindings::Bindings;
use prolog::clause::Clause;
use prolog::run::{resolve_instantiations, run, Instantiation, Pull, Solver};
use prolog::term::Term;
use prolog::term_builder::TermBuilder;

fn next(r: &mut Solver) -> Option<Instantiation> {
    loop {
        match r.next_within(1000) {
            Pull::Answer(a) => return Some(a),
            Pull::End => return None,
            Pull::Pending => {}
            other => panic!("{:?}", other),
        }
    }
}

#[test]
fn no() {
    let t = TermBuilder::new();
    let database = &t.database(vec![]);
    let mut r = run(vec![t.a().clone()], database, t.bindings_ref().duplicate());
    assert_eq!(next(&mut r).is_none(), true);
}

#[test]
fn single_match_no_variables() {
    let t = TermBuilder::new();
    let database = &t.database(vec![Clause::fact(t.a())]);
    let mut r = run(vec![t.a()], database, t.bindings_ref().duplicate());
    assert_eq!(next(&mut r).expect("Was not Some"), Instantiation { vars: vec![] });
    assert_eq!(next(&mut r).is_none(), true);
}

#[test]
fn single_match_with_variable() {
    let t = TermBuilder::new();
    let database = &t.database(vec![Clause::fact(t.a())]);

    let mut r = run(vec![t.x()], database, t.bindings_ref().duplicate());
    assert_eq!(
        next(&mut r).expect("Was not Some"),
        Instantiation { vars: vec![(t.x().to_string(), t.a())] }
    );
    assert_eq!(next(&mut r).is_none(), true);
}

#[test]
fn double_match_with_variable() {
    let t = TermBuilder::new();
    let database = &t.database(vec![Clause::fact(t.a()), Clause::fact(t.b())]);

    let mut r = run(vec![t.x()], database, t.bindings_ref().duplicate());
    assert_eq!(
        next(&mut r).expect("Was not Some"),
        Instantiation { vars: vec![(t.x().to_string(), t.a())] }
    );
    assert_eq!(
        next(&mut r).expect("Was not Some"),
        Instantiation { vars: vec![(t.x().to_string(), t.b())] }
    );
    assert_eq!(next(&mut r).is_none(), true);
}

#[test]
fn run_two_variables() {
    let t = TermBuilder::new();
    let database = &t.database(vec![Clause::fact(t.fab())]);

    let mut r = run(vec![t.fxy()], database, t.bindings_ref().duplicate());
    assert_eq!(
        next(&mut r).expect("Was not Some"),
        Instantiation { vars: vec![(t.x().to_string(), t.a()), (t.y().to_string(), t.b())] }
    );
    assert_eq!(next(&mut r).is_none(), true);
}

#[test]
fn double_match_variable() {
    let t = TermBuilder::new();
    let database = &t.database(vec![Clause::fact(t.faa()), Clause::fact(t.fab())]);

    let mut r = run(vec![t.fxx()], database, t.bindings_ref().duplicate());
    assert_eq!(
        next(&mut r).expect("Was not Some"),
        Instantiation { vars: vec![(t.x().to_string(), t.a())] }
    );
    assert_eq!(next(&mut r).is_none(), true);
}

#[test]
fn double_partial_match_variable() {
    let t = TermBuilder::new();
    let database = &t.database(vec![Clause::fact(t.faa()), Clause::fact(t.fab())]);
    let fax = Term::compound("f", vec![t.a(), t.x()]);

    let mut r = run(vec![fax], database, t.bindings_ref().duplicate());
    assert_eq!(
        next(&mut r).expect("Was not Some"),
        Instantiation { vars: vec![(t.x().to_string(), t.a())] }
    );
    assert_eq!(
        next(&mut r).expect("Was not Some"),
        Instantiation { vars: vec![(t.x().to_string(), t.b())] }
    );
    assert_eq!(next(&mut r).is_none(), true);
}

#[test]
fn one_step_rule_binding_x() {
    let t = TermBuilder::new();
    let rule = Clause::rule(
        Term::compound("r", vec![t.u(), t.v()]),
        vec![Term::compound("f", vec![t.u(), t.v()])],
    );
    let database = &t.database(vec![Clause::fact(t.faa()), Clause::fact(t.fab()), rule]);

    let query = Term::compound("r", vec![t.a(), t.x()]);
    let mut r = run(vec![query], database, t.bindings_ref().duplicate());
    assert_eq!(
        next(&mut r).expect("Was not Some"),
        Instantiation { vars: vec![(t.x().to_string(), t.a())] }
    );
    assert_eq!(
        next(&mut r).expect("Was not Some"),
        Instantiation { vars: vec![(t.x().to_string(), t.b())] }
    );
    assert_eq!(next(&mut r).is_none(), true);
}

#[test]
fn one_step_rule_binding_x_and_y() {
    let t = TermBuilder::new();
    let rule = Clause::rule(
        Term::compound("r", vec![t.u(), t.v()]),
        vec![Term::compound("f", vec![t.u(), t.v()])],
    );
    let database = &t.database(vec![Clause::fact(t.faa()), Clause::fact(t.fab()), rule]);

    let query = Term::compound("r", vec![t.y(), t.x()]);
    let mut r = run(vec![query], database, t.bindings_ref().duplicate());
    assert_eq!(
        next(&mut r).expect("Was not Some"),
        Instantiation { vars: vec![(t.y().to_string(), t.a()), (t.x().to_string(), t.a())] }
    );
    assert_eq!(
        next(&mut r).expect("Was not Some"),
        Instantiation { vars: vec![(t.y().to_string(), t.a()), (t.x().to_string(), t.b())] }
    );
    assert_eq!(next(&mut r).is_none(), true);
}

#[test]
fn an_empty_query_has_one_empty_answer() {
    let t = TermBuilder::new();
    let database = &t.database(vec![Clause::fact(t.a())]);
    let mut r = run(vec![], database, Bindings::new());
    assert_eq!(r.step(), Pull::Answer(Instantiation { vars: vec![] }));
    assert_eq!(r.step(), Pull::End);
    assert_eq!(r.step(), Pull::End);
}

#[test]
fn steps_try_one_clause_each() {
    let t = TermBuilder::new();
    let database = &t.database(vec![Clause::fact(t.b()), Clause::fact(t.a())]);
    let mut r = run(vec![t.a()], database, t.bindings_ref().duplicate());
    assert_eq!(r.depth(), 1);
    assert_eq!(r.next_within(0), Pull::Pending);
    assert_eq!(r.step(), Pull::Pending);
    assert_eq!(r.depth(), 1);
    assert_eq!(r.step(), Pull::Pending);
    assert_eq!(r.depth(), 2);
    assert_eq!(r.step(), Pull::Answer(Instantiation { vars: vec![] }));
    assert_eq!(r.depth(), 1);
    assert_eq!(r.step(), Pull::Pending);
    assert_eq!(r.depth(), 0);
    assert_eq!(r.step(), Pull::End);
}

#[test]
fn a_pull_stops_at_the_answer_whatever_it_was_allowed() {
    let t = TermBuilder::new();
    let database = &t.database(vec![Clause::fact(t.faa()), Clause::fact(t.fab())]);
    let fax = Term::compound("f", vec![t.a(), t.x()]);
    let mut few = run(vec![fax.clone()], database, t.bindings_ref().duplicate());
    let mut many = run(vec![fax], database, t.bindings_ref().duplicate());
    assert_eq!(few.next_within(1), Pull::Pending);
    let first = few.next_within(1);
    assert_eq!(first, Pull::Answer(Instantiation { vars: vec![(t.x().to_string(), t.a())] }));
    assert_eq!(many.next_within(usize::MAX), first);
    assert_eq!(few.depth(), many.depth());
    assert_eq!(few.last_variable(), many.last_variable());
}

#[test]
fn goals_are_solved_from_left_to_right() {
    let t = TermBuilder::new();
    let p = |term: Term| Term::compound1("p", term);
    let q = |term: Term| Term::compound1("q", term);
    let database = &t.database(vec![
        Clause::fact(p(t.a())),
        Clause::fact(p(t.b())),
        Clause::fact(q(t.one())),
        Clause::fact(q(t.two())),
    ]);
    let mut r = run(vec![p(t.x()), q(t.y())], database, t.bindings_ref().duplicate());
    let answer = |x: Term, y: Term| Instantiation {
        vars: vec![("X".to_string(), x), ("Y".to_string(), y)],
    };
    assert_eq!(next(&mut r), Some(answer(t.a(), t.one())));
    assert_eq!(next(&mut r), Some(answer(t.a(), t.two())));
    assert_eq!(next(&mut r), Some(answer(t.b(), t.one())));
    assert_eq!(next(&mut r), Some(answer(t.b(), t.two())));
    assert_eq!(next(&mut r), None);
}

#[test]
fn a_free_variable_stays_in_the_answer() {
    let t = TermBuilder::new();
    let database = &t.database(vec![Clause::fact(Term::compound("f", vec![t.u(), t.a()]))]);
    let mut r = run(vec![t.fxy()], database, t.bindings_ref().duplicate());
    let answer = next(&mut r).expect("Was not Some");
    assert_eq!(answer.vars.len(), 2);
    assert_eq!(answer.vars[0].0, "X");
    assert_eq!(answer.vars[0].1.to_string(), "X6");
    assert_eq!(answer.vars[1], ("Y".to_string(), t.a()));
    assert_eq!(next(&mut r), None);
}

#[test]
fn a_solution_without_finite_instantiation_is_told() {
    let t = TermBuilder::new();
    let database = &t.database(vec![Clause::fact(Term::compound("eq", vec![t.u(), t.u()]))]);
    let query = Term::compound("eq", vec![t.x(), Term::compound1("f", t.x())]);
    let mut r = run(vec![query], database, t.bindings_ref().duplicate());
    assert_eq!(r.next_within(100), Pull::Infinite);
    assert_eq!(r.next_within(100), Pull::End);
}

#[test]
fn the_search_is_given_up_where_the_counter_ends() {
    let t = TermBuilder::new();
    let database = &t.database(vec![Clause::fact(t.fxy())]);
    let mut r = run(vec![t.fab()], database, Bindings::counting_from(isize::MAX - 1));
    assert_eq!(r.next_within(100), Pull::Overflow);
    assert_eq!(r.last_variable(), isize::MAX);
    assert_eq!(r.depth(), 0);
    assert_eq!(r.next_within(100), Pull::End);
}

#[test]
fn a_left_recursive_rule_never_answers() {
    let t = TermBuilder::new();
    let p = Term::compound1("p", t.u());
    let database = &t.database(vec![Clause::rule(p.clone(), vec![p])]);
    let mut r = run(vec![Term::compound1("p", t.x())], database, t.bindings_ref().duplicate());
    assert_eq!(r.next_within(500), Pull::Pending);
    assert_eq!(r.depth(), 501);
    assert_eq!(r.next_within(500), Pull::Pending);
}

#[test]
fn renaming_counts_on_over_the_whole_search() {
    let t = TermBuilder::new();
    let database = &t.database(vec![Clause::fact(t.fxa()), Clause::fact(t.fxy())]);
    let mut r = run(vec![t.fab()], database, t.bindings_ref().duplicate());
    assert_eq!(r.last_variable(), 5);
    assert_eq!(r.step(), Pull::Pending);
    assert_eq!(r.last_variable(), 6);
    assert_eq!(r.step(), Pull::Pending);
    assert_eq!(r.last_variable(), 8);
    assert_eq!(r.step(), Pull::Answer(Instantiation { vars: vec![] }));
    assert_eq!(next(&mut r), None);
}

#[test]
fn answers_map_names_to_instantiations() {
    let mut bindings = Bindings::new();
    let x = Term::var("X", &mut bindings);
    let y = Term::var("Y", &mut bindings);
    let unnamed = Term::var_unnamed(&mut bindings);
    bindings.add_variable(&x, Term::compound1("f", y.clone()));
    let vars = vec![x.clone(), y.clone(), unnamed.clone()];
    assert_eq!(
        resolve_instantiations(&vars, &bindings),
        Some(Instantiation {
            vars: vec![
                ("X".to_string(), Term::compound1("f", y.clone())),
                ("Y".to_string(), y.clone()),
                ("X3".to_string(), unnamed),
            ]
        })
    );
    bindings.add_variable(&y, x);
    assert_eq!(resolve_instantiations(&vars, &bindings), None);
}

#[test]
fn a_variable_under_two_names_is_answered_once() {
    let t = TermBuilder::new();
    let database = &t.database(vec![Clause::fact(t.faa()), Clause::fact(t.fab())]);
    let query = Term::compound("f", vec![Term::var_full("X", 1), Term::var_full("Again", 1)]);
    let mut r = run(vec![query], database, t.bindings_ref().duplicate());
    assert_eq!(
        next(&mut r).expect("Was not Some"),
        Instantiation { vars: vec![("X".to_string(), t.a())] }
    );
    assert_eq!(next(&mut r), None);
}
