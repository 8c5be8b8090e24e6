use prolog::lex::LexError;
use prolog::parse_term::ParseError;
use prolog::run::{Instantiation, Pull, Solver};
use prolog::runner::Runner;
use prolog::term::Term;
use prolog::term_builder::TermBuilder;

fn pull(r: &mut Solver) -> Option<Instantiation> {
    loop {
        match r.next_within(1000) {
            Pull::Answer(a) => return Some(a),
            Pull::End => return None,
            Pull::Pending => {}
            other => panic!("{:?}", other),
        }
    }
}

fn next(r: &mut Solver, vars: Vec<(String, Term)>) {
    assert_eq!(pull(r).expect("Was not Some"), Instantiation { vars });
}

fn answers(program: &str, query: &str) -> Vec<Vec<(String, String)>> {
    let mut runner = Runner::new(program).expect("a program");
    let mut solver = runner.query(query).expect("a query");
    let mut all = vec![];
    while let Some(answer) = pull(&mut solver) {
        all.push(answer.vars.iter().map(|(name, term)| (name.clone(), term.to_string())).collect());
    }
    all
}

fn pairs(list: &[(&str, &str)]) -> Vec<(String, String)> {
    list.iter().map(|(name, term)| (name.to_string(), term.to_string())).collect()
}

#[test]
fn two_outcomes() {
    let src = "
         f(a,a).
         f(a,b).
         r(U,V) :- f(U,V).
         ";
    let query_src = "?- r(Y,X).";

    let mut runner = Runner::new(src).expect("cannot be Err");
    let mut r = runner.query(query_src).expect("cannot be Err");
    let t = TermBuilder::new();
    let y = Term::var_full("Y", 3);
    let x = Term::var_full("X", 4);
    next(&mut r, vec![(y.to_string(), t.a()), (x.to_string(), t.a())]);
    next(&mut r, vec![(y.to_string(), t.a()), (x.to_string(), t.b())]);
    assert_eq!(pull(&mut r).is_none(), true);
}

#[test]
fn two_step() {
    let src = "
         f(a,a).
         r(U,V) :- f(U,V).
         s(M,N) :- r(M,N).
         ";
    let query_src = "?- s(X,a).";

    let mut runner = Runner::new(src).expect("cannot be Err");
    let mut r = runner.query(query_src).expect("cannot be Err");
    let t = TermBuilder::new();
    let x = Term::var_full("X", 5);
    next(&mut r, vec![(x.to_string(), t.a())]);
    assert_eq!(pull(&mut r).is_none(), true);
}

#[test]
fn list_append_empty_lists() {
    let src = "
         append(X, [], X).
         append(X, [Head|Rest], [Head|Rest2]) :- append(X, Rest, Rest2).
         ";
    let query_src = "?- append([], [], Both).";

    let mut runner = Runner::new(src).expect("cannot be Err");
    let mut r = runner.query(query_src).expect("cannot be Err");
    let both = Term::var_full("Both", 5);
    next(&mut r, vec![(both.to_string(), Term::empty_list())]);
    assert_eq!(pull(&mut r).is_none(), true);
}

#[test]
fn list_append__list_to_empty_list() {
    let src = "
         append(X, [], X).
         append(X, [Head|Rest], [Head|Rest2]) :- append(X, Rest, Rest2).
         ";
    let query_src = "?- append([1],[],Both).";

    let mut runner = Runner::new(src).expect("cannot be Err");
    let mut r = runner.query(query_src).expect("cannot be Err");
    let x = Term::var_full("Both", 5);
    next(&mut r, vec![(x.to_string(), Term::make_list(vec![Term::integer(1)]))]);
    assert_eq!(pull(&mut r).is_none(), true);
}

#[test]
fn list_append_empty_list_to_list() {
    let src = "
         append([], List, List).
         append([Head|Tail], List, [Head|Rest]) :- append(Tail, List, Rest).
         ";
    let query_src = "?- append([1],[2],Both).";

    let mut runner = Runner::new(src).expect("cannot be Err");
    let mut r = runner.query(query_src).expect("cannot be Err");
    let both = Term::var_full("Both", 5);
    next(
        &mut r,
        vec![(both.to_string(), Term::make_list(vec![Term::integer(1), Term::integer(2)]))],
    );
    assert_eq!(pull(&mut r).is_none(), true);
}

#[test]
fn list_append() {
    let src = "
         append([], List, List).
         append([Head|Tail], List, [Head|Rest]) :- append(Tail, List, Rest).
         ";
    let query_src = "?- append([1, 2],[3, 4],Both).";

    let mut runner = Runner::new(src).expect("cannot be Err");
    let mut r = runner.query(query_src).expect("cannot be Err");
    let both = Term::var_full("Both", 5);
    next(
        &mut r,
        vec![(
            both.to_string(),
            Term::make_list(vec![
                Term::integer(1),
                Term::integer(2),
                Term::integer(3),
                Term::integer(4),
            ]),
        )],
    );
    assert_eq!(pull(&mut r).is_none(), true);
}

#[test]
fn list_append_generator() {
    let src = "
         append([], List, List).
         append([Head|Tail], List, [Head|Rest]) :- append(Tail, List, Rest).
         ";
    let query_src = "?- append(X, Y, [1, 2]).";

    let mut runner = Runner::new(src).expect("cannot be Err");
    let mut r = runner.query(query_src).expect("cannot be Err");
    let x = Term::var_full("X", 5);
    let y = Term::var_full("Y", 6);
    next(
        &mut r,
        vec![
            (x.to_string(), Term::make_list(vec![])),
            (y.to_string(), Term::make_list(vec![Term::integer(1), Term::integer(2)])),
        ],
    );
    next(
        &mut r,
        vec![
            (x.to_string(), Term::make_list(vec![Term::integer(1)])),
            (y.to_string(), Term::make_list(vec![Term::integer(2)])),
        ],
    );
    next(
        &mut r,
        vec![
            (x.to_string(), Term::make_list(vec![Term::integer(1), Term::integer(2)])),
            (y.to_string(), Term::make_list(vec![])),
        ],
    );
    assert_eq!(pull(&mut r).is_none(), true);
}

#[test]
fn a_fact_answers_its_own_query_once() {
    assert_eq!(answers("a.", "?- a."), vec![pairs(&[])]);
}

#[test]
fn a_variable_query_meets_every_fact_in_order() {
    assert_eq!(
        answers("a.  b.", "?- X."),
        vec![pairs(&[("X", "a")]), pairs(&[("X", "b")])]
    );
}

#[test]
fn a_repeated_variable_must_agree_with_itself() {
    assert_eq!(answers("f(a,a).  f(a,b).", "?- f(X,X)."), vec![pairs(&[("X", "a")])]);
}

#[test]
fn a_rule_hands_on_the_answers_of_its_body() {
    assert_eq!(
        answers("f(a,a).  f(a,b).  r(U,V) :- f(U,V).", "?- r(Y,X)."),
        vec![pairs(&[("Y", "a"), ("X", "a")]), pairs(&[("Y", "a"), ("X", "b")])]
    );
}

#[test]
fn append_joins_two_lists() {
    let program = "append([], L, L).  append([H|T], L, [H|R]) :- append(T, L, R).";
    assert_eq!(
        answers(program, "?- append([1,2],[3,4],B)."),
        vec![pairs(&[("B", "[1,2,3,4]")])]
    );
}

#[test]
fn append_splits_a_list_in_every_way() {
    let program = "append([], L, L).  append([H|T], L, [H|R]) :- append(T, L, R).";
    assert_eq!(
        answers(program, "?- append(X, Y, [1,2])."),
        vec![
            pairs(&[("X", "[]"), ("Y", "[1,2]")]),
            pairs(&[("X", "[1]"), ("Y", "[2]")]),
            pairs(&[("X", "[1,2]"), ("Y", "[]")]),
        ]
    );
}

#[test]
fn the_same_query_gives_the_same_answers_again() {
    let program = "p(a). p(b). q(b). q(c). r(X, Y) :- p(X), q(Y). r(X, X) :- q(X).";
    let first = answers(program, "?- r(A, B).");
    let second = answers(program, "?- r(A, B).");
    assert_eq!(first, second);
    assert_eq!(
        first,
        vec![
            pairs(&[("A", "a"), ("B", "b")]),
            pairs(&[("A", "a"), ("B", "c")]),
            pairs(&[("A", "b"), ("B", "b")]),
            pairs(&[("A", "b"), ("B", "c")]),
            pairs(&[("A", "b"), ("B", "b")]),
            pairs(&[("A", "c"), ("B", "c")]),
        ]
    );
}

#[test]
fn nothing_is_renamed_before_it_is_asked_for() {
    let mut runner = Runner::new("p(X) :- q(X). p(Y) :- r(Y). q(a). r(b).").expect("a program");
    assert_eq!(runner.database().len(), 4);
    let mut search = runner.query("?- p(Z).").expect("a query");
    assert_eq!(search.last_variable(), 3);
    assert_eq!(pull(&mut search), Some(Instantiation { vars: vec![("Z".to_string(), Term::atom("a"))] }));
    assert_eq!(search.last_variable(), 6);
    assert_eq!(pull(&mut search), Some(Instantiation { vars: vec![("Z".to_string(), Term::atom("b"))] }));
    assert_eq!(search.last_variable(), 9);
    assert_eq!(pull(&mut search), None);
    assert_eq!(search.last_variable(), 9);
    let untouched = runner.query("?- p(Z).").expect("a query");
    assert_eq!(untouched.last_variable(), 4);
    assert_eq!(untouched.depth(), 1);
}

#[test]
fn a_later_query_gets_identities_of_its_own() {
    let mut runner = Runner::new("f(A, B).").expect("a program");
    {
        let mut first = runner.query("?- f(X, Y).").expect("a query");
        assert_eq!(first.last_variable(), 4);
        let answer = pull(&mut first).expect("Was not Some");
        assert_eq!(answer.vars[0].1.to_string(), "X5");
        assert_eq!(answer.vars[1].1.to_string(), "X6");
    }
    let mut second = runner.query("?- f(Z, Z).").expect("a query");
    assert_eq!(second.last_variable(), 5);
    let answer = pull(&mut second).expect("Was not Some");
    assert_eq!(answer.vars.len(), 1);
    assert_eq!(answer.vars[0].0, "Z");
    assert_eq!(answer.vars[0].1.to_string(), "X7");
}

#[test]
fn texts_that_are_no_program_or_query_are_refused() {
    assert_eq!(Runner::new("a").err(), Some(ParseError::UnexpectedEnd));
    let mut runner = Runner::new("a.").expect("a program");
    assert_eq!(runner.query("a.").err(), Some(ParseError::ExpectedQuery));
    assert_eq!(runner.query("?- a").err(), Some(ParseError::UnexpectedEnd));
    assert_eq!(runner.query("?- X, \"").err(), Some(ParseError::Lex(LexError::UnterminatedString)));
    let mut solver = runner.query("?- X.").expect("a query");
    assert_eq!(solver.last_variable(), 1);
    assert_eq!(pull(&mut solver), Some(Instantiation { vars: vec![("X".to_string(), Term::atom("a"))] }));
}
