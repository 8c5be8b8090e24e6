use prolog::bindings::Bindings;
use prolog::clause::Clause;
use prolog::lex::{lex, Lex};
use prolog::parse_term::remaining;
use prolog::term::Term;

#[test]
fn tokens_are_printed_as_they_are_written() {
    let shown: Vec<String> = vec![
        Lex::Left,
        Lex::Right,
        Lex::LeftSquare,
        Lex::RightSquare,
        Lex::Quote,
        Lex::Atom("abc".to_string()),
        Lex::Integer(-5),
        Lex::Float("0.4".to_string()),
        Lex::Boolean(true),
        Lex::Boolean(false),
        Lex::String("a b".to_string()),
        Lex::Variable("Xs".to_string()),
        Lex::FullStop,
        Lex::True,
        Lex::Implies,
        Lex::Query,
        Lex::Comma,
        Lex::Bar,
    ]
    .iter()
    .map(|token| token.to_string())
    .collect();
    assert_eq!(
        shown,
        vec![
            "(", ")", "[", "]", "'", "abc", "-5", "0.4", "true", "false", "a b", "Xs", ".",
            "true", ":-", "?-", ", ", "|"
        ]
    );
}

#[test]
fn remaining_tokens_are_joined_by_spaces() {
    assert_eq!(remaining(&vec![]), "");
    assert_eq!(remaining(&vec![Lex::Bar]), "|");
    let tokens = lex("f(X, 12) :- true.".to_string()).expect("Ok");
    assert_eq!(remaining(&tokens), "f ( X ,  12 ) :- true .");
}

#[test]
fn clauses_are_printed_with_an_arrow() {
    let fact = Clause::fact(Term::compound1("f", Term::atom("a")));
    assert_eq!(fact.to_string(), "f(a) ->  true.");
    let rule = Clause::rule(
        Term::atom("h"),
        vec![Term::compound1("g", Term::var_full("X", 1)), Term::atom("b")],
    );
    assert_eq!(rule.to_string(), "h -> g(X)b.");
}

#[test]
fn bindings_are_printed_frame_by_frame() {
    let mut bindings = Bindings::new();
    assert_eq!(bindings.to_string(), "Bindings(0, [])");
    let x = Term::var("X", &mut bindings);
    let y = Term::var("Y", &mut bindings);
    bindings.add_variable(&x, Term::atom("a"));
    bindings.add_variable(&y, Term::make_list(vec![Term::integer(1)]));
    assert_eq!(bindings.to_string(), "Bindings(2, [(1 -> a)(2 -> [1])])");
    bindings.stack();
    assert_eq!(bindings.to_string(), "Bindings(2, []) + Bindings(2, [(1 -> a)(2 -> [1])])");
    bindings.add(3, Term::compound1("f", x));
    bindings.stack();
    bindings.add(4, Term::integer(-7));
    assert_eq!(
        bindings.to_string(),
        "Bindings(2, [(4 -> -7)]) + Bindings(2, [(3 -> f(X))]) + Bindings(2, [(1 -> a)(2 -> [1])])"
    );
    bindings.unstack();
    assert_eq!(
        bindings.to_string(),
        "Bindings(2, [(3 -> f(X))]) + Bindings(2, [(1 -> a)(2 -> [1])])"
    );
}

#[test]
fn a_mark_beyond_the_trail_gives_an_empty_frame() {
    let mut bindings = Bindings::new();
    bindings.add(1, Term::atom("a"));
    bindings.add(2, Term::atom("b"));
    bindings.stack();
    bindings.rewind(1);
    assert_eq!(bindings.to_string(), "Bindings(0, []) + Bindings(0, [(1 -> a)])");
    bindings.unstack();
    assert_eq!(bindings.len(), 1);
}
