use prolog::clause::Clause;
use prolog::lex::{lex, Lex, LexError};
use prolog::parse_clauses::{clauses_parser, parse_query, query_parser};
use prolog::parse_term::{parse_term, term_parser, ParseError};
use prolog::bindings::Bindings;
use prolog::static_context::StaticContext;
use prolog::term::Term;
use prolog::term_builder::TermBuilder;

#[test]
fn mixed() {
    assert_eq!(
        lex("(X? (y, 12) 0.4 true <= >= ') :- ?-[].|".to_string()),
        Ok(vec![
            Lex::Left,
            Lex::Variable("X".to_string()),
            Lex::Atom("?".to_string()),
            Lex::Left,
            Lex::Atom("y".to_string()),
            Lex::Comma,
            Lex::Integer(12),
            Lex::Right,
            Lex::Float("0.4".to_string()),
            Lex::True,
            Lex::Atom("<=".to_string()),
            Lex::Atom(">=".to_string()),
            Lex::Quote,
            Lex::Right,
            Lex::Implies,
            Lex::Query,
            Lex::LeftSquare,
            Lex::RightSquare,
            Lex::FullStop,
            Lex::Bar,
        ])
    );
}

#[test]
fn double_quote() {
    assert_eq!(lex("\"abc\"".to_string()), Ok(vec![Lex::String("abc".to_string())]));
    assert_eq!(lex("\"a --- c\"".to_string()), Ok(vec![Lex::String("a --- c".to_string())]));
}

#[test]
fn atom() {
    let mut static_context = StaticContext::new_all();
    let result = term_parser("a", &mut static_context).expect("Ok");
    assert_eq!(result, Term::atom("a"));
}

#[test]
fn integer() {
    let mut static_context = StaticContext::new_all();
    let result = term_parser("12", &mut static_context).expect("Ok");
    assert_eq!(result, Term::integer(12));
}

#[test]
fn variable() {
    let mut static_context = StaticContext::new_all();
    let result = term_parser("X", &mut static_context).expect("Ok");
    assert_eq!(result, Term::var_full("X", 1));
}

#[test]
fn nullary_compound() {
    let mut static_context = StaticContext::new_all();
    let result = term_parser("f()", &mut static_context).expect("Ok");
    assert_eq!(result, Term::CompoundTerm("f".to_string(), vec![]));
}

#[test]
fn binary_compound() {
    let mut static_context = StaticContext::new_all();
    let result = term_parser("f(1, 2)", &mut static_context).expect("Ok");
    assert_eq!(result, Term::compound("f", vec![Term::integer(1), Term::integer(2)]));
}

#[test]
fn binary_compound_x() {
    let mut static_context = StaticContext::new_all();
    let result = term_parser("f(X, X)", &mut static_context).expect("Ok");
    let x = Term::var_full("X", 1);
    assert_eq!(result, Term::compound("f", vec![x.clone(), x]));
}

#[test]
fn nested_compound() {
    let mut static_context = StaticContext::new_all();
    let result = term_parser("f(g(1))", &mut static_context).expect("Ok");
    assert_eq!(
        result,
        Term::compound("f", vec![Term::compound("g", vec![Term::integer(1)])])
    );
}

#[test]
fn parse_term_empty_list() {
    let mut static_context = StaticContext::new_all();
    let result = term_parser("[]", &mut static_context).expect("Ok");
    assert_eq!(result, Term::empty_list());
}

#[test]
fn parse_term_list() {
    let mut static_context = StaticContext::new_all();
    let result = term_parser("[1,2,3]", &mut static_context).expect("Ok");
    assert_eq!(
        result,
        Term::make_list(vec![Term::integer(1), Term::integer(2), Term::integer(3)])
    );
}

#[test]
fn parse_term_bar_list() {
    let mut static_context = StaticContext::new_all();
    let result = term_parser("[1|X]", &mut static_context).expect("Ok");
    assert_eq!(result, Term::list(Term::integer(1), Term::var_full("X", 1)));
}

#[test]
fn fact_clause_with_atom() {
    let mut static_context = StaticContext::new_all();
    let result = clauses_parser("a.", &mut static_context).expect("Ok");
    assert_eq!(result, vec![Clause::rule(Term::atom("a"), vec![])]);
}

#[test]
fn fact_clause_with_compound() {
    let mut static_context = StaticContext::new_all();
    let result = clauses_parser("a(1).", &mut static_context).expect("Ok");
    assert_eq!(
        result,
        vec![Clause::rule(Term::compound("a", vec![Term::integer(1)]), vec![])]
    );
}

#[test]
fn interesting_rule() {
    let mut static_context = StaticContext::new_all();
    let result = clauses_parser("a(X,a) :- b(X).", &mut static_context).expect("Ok");
    let x = Term::var_full("X", 1);
    let a = Term::atom("a");
    let axa = Term::compound("a", vec![x.clone(), a]);
    let bx = Term::compound("b", vec![x]);
    assert_eq!(result, vec![Clause::rule(axa, vec![bx])]);
}

#[test]
fn several_rules_and_facts() {
    let t = TermBuilder::new();
    let mut static_context = StaticContext::new(t.bindings_ref().duplicate());
    let src = "a. f(b). f(X,Y) :- f(X,a).";
    let result = clauses_parser(src, &mut static_context).expect("Ok");
    let x6 = Term::var_full("X", 6);
    let x7 = Term::var_full("Y", 7);
    let fxy = Term::compound("f", vec![x6.clone(), x7]);
    let fxa = Term::compound("f", vec![x6, t.a()]);
    assert_eq!(
        result,
        vec![
            Clause::rule(t.a(), vec![]),
            Clause::rule(t.fb(), vec![]),
            Clause::rule(fxy, vec![fxa]),
        ]
    );
}

#[test]
fn printing_a_parsed_list_gives_the_text_back() {
    let mut static_context = StaticContext::new_all();
    let list = term_parser("[1,2,3]", &mut static_context).expect("Ok");
    assert_eq!(list.to_string(), "[1,2,3]");
    let bar = term_parser("[1|X]", &mut static_context).expect("Ok");
    assert_eq!(bar.to_string(), "[1|X]");
    let longer = term_parser("[1,2|X]", &mut static_context).expect("Ok");
    assert_eq!(longer.to_string(), "[1,2|X]");
    assert_eq!(
        longer,
        Term::list(Term::integer(1), Term::list(Term::integer(2), Term::var_full("X", 1)))
    );
    let nested = term_parser("[[], [a], f([b|T])]", &mut static_context).expect("Ok");
    assert_eq!(nested.to_string(), "[[],[a],f([b|T])]");
}

#[test]
fn names_stand_for_one_variable_each() {
    let mut static_context = StaticContext::new_all();
    let first = static_context.var("X").expect("Some");
    let second = static_context.var("Y").expect("Some");
    let again = static_context.var("X").expect("Some");
    assert_eq!(first, Term::var_full("X", 1));
    assert_eq!(second, Term::var_full("Y", 2));
    assert_eq!(again, first);
    let bindings = static_context.into_bindings();
    assert_eq!(bindings.last_variable(), 2);
    assert_eq!(bindings.len(), 0);
}

#[test]
fn a_name_is_a_variable_where_it_starts_in_upper_case() {
    assert_eq!(
        lex("Xy xY _z x_1 É é".to_string()),
        Ok(vec![
            Lex::Variable("Xy".to_string()),
            Lex::Atom("xY".to_string()),
            Lex::Atom("_z".to_string()),
            Lex::Atom("x_1".to_string()),
            Lex::Variable("É".to_string()),
            Lex::Atom("é".to_string()),
        ])
    );
}

#[test]
fn a_name_ends_where_letters_numbers_and_underscores_end() {
    assert_eq!(
        lex("ab-c true1 true".to_string()),
        Ok(vec![
            Lex::Atom("ab".to_string()),
            Lex::Atom("-c".to_string()),
            Lex::Atom("true1".to_string()),
            Lex::True,
        ])
    );
}

#[test]
fn punctuation_tokens() {
    assert_eq!(
        lex("< > : ? <= >= :- ?-\n<x".to_string()),
        Ok(vec![
            Lex::Atom("<".to_string()),
            Lex::Atom(">".to_string()),
            Lex::Atom("-".to_string()),
            Lex::Atom("?".to_string()),
            Lex::Atom("<=".to_string()),
            Lex::Atom(">=".to_string()),
            Lex::Implies,
            Lex::Query,
            Lex::Atom("<".to_string()),
            Lex::Atom("x".to_string()),
        ])
    );
    assert_eq!(lex("".to_string()), Ok(vec![]));
    assert_eq!(lex(" \n ".to_string()), Ok(vec![]));
}

#[test]
fn numerals() {
    assert_eq!(lex("007".to_string()), Ok(vec![Lex::Integer(7)]));
    assert_eq!(lex("12.".to_string()), Ok(vec![Lex::Float("12.".to_string())]));
    assert_eq!(
        lex("3.14)".to_string()),
        Ok(vec![Lex::Float("3.14".to_string()), Lex::Right])
    );
    assert_eq!(
        lex(isize::MAX.to_string()),
        Ok(vec![Lex::Integer(isize::MAX)])
    );
    assert_eq!(lex(".5".to_string()), Ok(vec![Lex::FullStop, Lex::Integer(5)]));
}

#[test]
fn texts_without_tokens() {
    assert_eq!(lex("1.2.3".to_string()), Err(LexError::InvalidFloat));
    assert_eq!(lex("a 1..".to_string()), Err(LexError::InvalidFloat));
    assert_eq!(lex("99999999999999999999999999".to_string()), Err(LexError::InvalidInt));
    assert_eq!(lex("9223372036854775808".to_string()), Err(LexError::InvalidInt));
    assert_eq!(lex("\"abc".to_string()), Err(LexError::UnterminatedString));
    assert_eq!(lex("a \"".to_string()), Err(LexError::UnterminatedString));
}

#[test]
fn texts_that_are_no_terms() {
    let mut c = StaticContext::new_all();
    assert_eq!(term_parser("", &mut c), Err(ParseError::UnexpectedEnd));
    assert_eq!(term_parser("f(", &mut c), Err(ParseError::UnexpectedEnd));
    assert_eq!(term_parser("f(a", &mut c), Err(ParseError::UnexpectedEnd));
    assert_eq!(term_parser("f(a b)", &mut c), Err(ParseError::UnexpectedToken));
    assert_eq!(term_parser("f(a,)", &mut c), Err(ParseError::UnexpectedToken));
    assert_eq!(term_parser(")", &mut c), Err(ParseError::UnexpectedToken));
    assert_eq!(term_parser("0.5", &mut c), Err(ParseError::UnexpectedToken));
    assert_eq!(term_parser("true", &mut c), Err(ParseError::UnexpectedToken));
    assert_eq!(term_parser("[1", &mut c), Err(ParseError::UnexpectedEnd));
    assert_eq!(term_parser("[1 2]", &mut c), Err(ParseError::UnexpectedToken));
    assert_eq!(term_parser("[1|2", &mut c), Err(ParseError::UnexpectedEnd));
    assert_eq!(term_parser("[1|2,3]", &mut c), Err(ParseError::UnexpectedToken));
    assert_eq!(term_parser("a b", &mut c), Err(ParseError::TrailingTokens));
    assert_eq!(term_parser("1.2.3", &mut c), Err(ParseError::Lex(LexError::InvalidFloat)));
}

#[test]
fn texts_that_are_no_programs_or_queries() {
    let mut c = StaticContext::new_all();
    assert_eq!(clauses_parser("a", &mut c), Err(ParseError::UnexpectedEnd));
    assert_eq!(clauses_parser("a b.", &mut c), Err(ParseError::UnexpectedToken));
    assert_eq!(clauses_parser("a :- b", &mut c), Err(ParseError::UnexpectedEnd));
    assert_eq!(clauses_parser("a :- b c.", &mut c), Err(ParseError::UnexpectedToken));
    assert_eq!(clauses_parser("a. \"x", &mut c), Err(ParseError::Lex(LexError::UnterminatedString)));
    assert_eq!(clauses_parser("", &mut c), Ok(vec![]));
    assert_eq!(query_parser("a.", &mut c), Err(ParseError::ExpectedQuery));
    assert_eq!(query_parser("", &mut c), Err(ParseError::ExpectedQuery));
    assert_eq!(query_parser("?- .", &mut c), Err(ParseError::UnexpectedToken));
    assert_eq!(query_parser("?-", &mut c), Err(ParseError::UnexpectedEnd));
    assert_eq!(query_parser("?- a. b", &mut c), Err(ParseError::TrailingTokens));
    assert_eq!(
        query_parser("?- a, f(X).", &mut c),
        Ok(vec![Term::atom("a"), Term::compound1("f", Term::var_full("X", 1))])
    );
}

#[test]
fn a_new_name_needs_a_new_identity() {
    let mut full = StaticContext::new(Bindings::counting_from(isize::MAX));
    assert_eq!(term_parser("f(a, X)", &mut full), Err(ParseError::OutOfVariables));
    assert_eq!(full.var("X"), None);
    let mut last = StaticContext::new(Bindings::counting_from(isize::MAX - 1));
    assert_eq!(
        term_parser("f(X, X)", &mut last),
        Ok(Term::compound(
            "f",
            vec![Term::var_full("X", isize::MAX), Term::var_full("X", isize::MAX)]
        ))
    );
    assert_eq!(term_parser("Y", &mut last), Err(ParseError::OutOfVariables));
}

#[test]
fn parsers_tell_where_they_stopped() {
    let tokens = lex("f(a, [b]) :- ?- g, h. x".to_string()).expect("Ok");
    let mut c = StaticContext::new_all();
    let (term, next) = parse_term(&tokens, 0, &mut c).expect("Ok");
    assert_eq!(term.to_string(), "f(a, [b])");
    assert_eq!(next, 8);
    let (goals, end) = parse_query(&tokens, 9, &mut c).expect("Ok");
    assert_eq!(goals, vec![Term::atom("g"), Term::atom("h")]);
    assert_eq!(end, 14);
    assert_eq!(parse_query(&tokens, 8, &mut c), Err(ParseError::ExpectedQuery));
    assert_eq!(parse_term(&tokens, 15, &mut c), Err(ParseError::UnexpectedEnd));
}
