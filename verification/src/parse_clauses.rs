//! The parser of programs and queries.

use vstd::prelude::*;
use crate::clause::{Clause, ClauseView};
use crate::database::clause_views;
use crate::lex::{Lex, LexView, lex, lex_views, tokens_from};
use crate::parse_term::{ParseError, Parsed, at, left, parse_term, parse_term_spec};
use crate::static_context::{Names, StaticContext};
use crate::term::{Term, TermView, views};

verus! {

/// The goals `found` so far and those that follow: terms with a comma
/// between two, up to the full stop.
pub open spec fn parse_body_spec(
    tokens: Seq<LexView>,
    pos: int,
    names: Names,
    counter: int,
    found: Seq<TermView>,
) -> Result<Parsed<Seq<TermView>>, ParseError>
    decreases left(tokens, pos),
{
    match parse_term_spec(tokens, pos, names, counter) {
        Err(e) => Err(e),
        Ok(t) => {
            let p = pos + 1 + t.more;
            let goals = found.push(t.value);
            match at(tokens, p) {
                None => Err(ParseError::UnexpectedEnd),
                Some(LexView::FullStop) => Ok(
                    Parsed { value: goals, more: t.more + 1, names: t.names, counter: t.counter },
                ),
                Some(LexView::Comma) => match parse_body_spec(
                    tokens,
                    p + 1,
                    t.names,
                    t.counter,
                    goals,
                ) {
                    Ok(r) => Ok(
                        Parsed {
                            value: r.value,
                            more: t.more + 2 + r.more,
                            names: r.names,
                            counter: r.counter,
                        },
                    ),
                    Err(e) => Err(e),
                },
                Some(_) => Err(ParseError::UnexpectedToken),
            }
        },
    }
}

/// A query: `?-`, then goals up to the full stop.
pub open spec fn parse_query_spec(tokens: Seq<LexView>, pos: int, names: Names, counter: int) -> Result<
    Parsed<Seq<TermView>>,
    ParseError,
> {
    if at(tokens, pos) == Some(LexView::Query) {
        match parse_body_spec(tokens, pos + 1, names, counter, Seq::empty()) {
            Ok(r) => Ok(
                Parsed { value: r.value, more: r.more + 1, names: r.names, counter: r.counter },
            ),
            Err(e) => Err(e),
        }
    } else {
        Err(ParseError::ExpectedQuery)
    }
}

/// The clauses `found` so far and those that follow up to the end of the
/// tokens. A clause is a head and a full stop, or a head, `:-` and a body.
pub open spec fn parse_clauses_spec(
    tokens: Seq<LexView>,
    pos: int,
    names: Names,
    counter: int,
    found: Seq<ClauseView>,
) -> Result<Parsed<Seq<ClauseView>>, ParseError>
    decreases left(tokens, pos),
{
    if at(tokens, pos) is None {
        Ok(Parsed { value: found, more: 0, names, counter })
    } else {
        match parse_term_spec(tokens, pos, names, counter) {
            Err(e) => Err(e),
            Ok(head) => {
                let p = pos + 1 + head.more;
                match at(tokens, p) {
                    None => Err(ParseError::UnexpectedEnd),
                    Some(LexView::FullStop) => parse_clauses_spec(
                        tokens,
                        p + 1,
                        head.names,
                        head.counter,
                        found.push(ClauseView { head: head.value, body: Seq::empty() }),
                    ),
                    Some(LexView::Implies) => match parse_body_spec(
                        tokens,
                        p + 1,
                        head.names,
                        head.counter,
                        Seq::empty(),
                    ) {
                        Err(e) => Err(e),
                        Ok(body) => parse_clauses_spec(
                            tokens,
                            p + 2 + body.more,
                            body.names,
                            body.counter,
                            found.push(ClauseView { head: head.value, body: body.value }),
                        ),
                    },
                    Some(_) => Err(ParseError::UnexpectedToken),
                }
            },
        }
    }
}

/// The clauses that a whole text is.
pub open spec fn clauses_of(src: Seq<char>, names: Names, counter: int) -> Result<
    Parsed<Seq<ClauseView>>,
    ParseError,
> {
    match tokens_from(src, 0) {
        Err(e) => Err(ParseError::Lex(e)),
        Ok(tokens) => parse_clauses_spec(tokens, 0, names, counter, Seq::empty()),
    }
}

/// The goals of the query that a whole text is.
pub open spec fn query_of(src: Seq<char>, names: Names, counter: int) -> Result<
    Parsed<Seq<TermView>>,
    ParseError,
> {
    match tokens_from(src, 0) {
        Err(e) => Err(ParseError::Lex(e)),
        Ok(tokens) => match parse_query_spec(tokens, 0, names, counter) {
            Err(e) => Err(e),
            Ok(q) => if q.more + 1 == tokens.len() {
                Ok(q)
            } else {
                Err(ParseError::TrailingTokens)
            },
        },
    }
}

/// Parses a text that is a program: clauses one after the other.
pub fn clauses_parser(src: &str, static_context: &mut StaticContext) -> (r: Result<
    Vec<Clause>,
    ParseError,
>)
    ensures
        final(static_context).entries() == old(static_context).entries(),
        final(static_context).marks() == old(static_context).marks(),
        match r {
            Ok(clauses) => clauses_of(
                src@,
                old(static_context).names(),
                old(static_context).counter(),
            ) == Ok::<Parsed<Seq<ClauseView>>, ParseError>(
                Parsed {
                    value: clause_views(clauses@),
                    more: 0,
                    names: final(static_context).names(),
                    counter: final(static_context).counter(),
                },
            ),
            Err(e) => clauses_of(src@, old(static_context).names(), old(static_context).counter())
                == Err::<Parsed<Seq<ClauseView>>, ParseError>(e),
        },
{
    let tokens = match lex(src.to_owned()) {
        Ok(tokens) => tokens,
        Err(e) => {
            return Err(ParseError::Lex(e));
        },
    };
    let found: Vec<Clause> = Vec::new();
    assert(clause_views(found@) =~= Seq::<ClauseView>::empty());
    parse_clauses(&tokens, 0, static_context, found)
}

fn parse_clauses(
    tokens: &Vec<Lex>,
    pos: usize,
    static_context: &mut StaticContext,
    found: Vec<Clause>,
) -> (r: Result<Vec<Clause>, ParseError>)
    requires
        pos <= tokens.len(),
    ensures
        final(static_context).entries() == old(static_context).entries(),
        final(static_context).marks() == old(static_context).marks(),
        match r {
            Ok(clauses) => parse_clauses_spec(
                lex_views(tokens@),
                pos as int,
                old(static_context).names(),
                old(static_context).counter(),
                clause_views(found@),
            ) == Ok::<Parsed<Seq<ClauseView>>, ParseError>(
                Parsed {
                    value: clause_views(clauses@),
                    more: 0,
                    names: final(static_context).names(),
                    counter: final(static_context).counter(),
                },
            ),
            Err(e) => parse_clauses_spec(
                lex_views(tokens@),
                pos as int,
                old(static_context).names(),
                old(static_context).counter(),
                clause_views(found@),
            ) == Err::<Parsed<Seq<ClauseView>>, ParseError>(e),
        },
    decreases left(lex_views(tokens@), pos as int),
{
    if pos >= tokens.len() {
        return Ok(found);
    }
    let (head, p) = match parse_term(tokens, pos, static_context) {
        Ok(found) => found,
        Err(e) => {
            return Err(e);
        },
    };
    if p >= tokens.len() {
        return Err(ParseError::UnexpectedEnd);
    }
    let mut clauses = found;
    let ghost before = clause_views(clauses@);
    match &tokens[p] {
        Lex::Implies => {
            let goals: Vec<Term> = Vec::new();
            assert(views(goals@) =~= Seq::<TermView>::empty());
            let (body, q) = match parse_body(tokens, p + 1, static_context, goals) {
                Ok(found) => found,
                Err(e) => {
                    return Err(e);
                },
            };
            let clause = Clause::rule(head, body);
            clauses.push(clause);
            assert(clause_views(clauses@) =~= before.push(clause@));
            parse_clauses(tokens, q, static_context, clauses)
        },
        Lex::FullStop => {
            let clause = Clause::fact(head);
            clauses.push(clause);
            assert(clause_views(clauses@) =~= before.push(clause@));
            parse_clauses(tokens, p + 1, static_context, clauses)
        },
        _ => Err(ParseError::UnexpectedToken),
    }
}

fn parse_body(
    tokens: &Vec<Lex>,
    pos: usize,
    static_context: &mut StaticContext,
    found: Vec<Term>,
) -> (r: Result<(Vec<Term>, usize), ParseError>)
    requires
        pos <= tokens.len(),
    ensures
        final(static_context).entries() == old(static_context).entries(),
        final(static_context).marks() == old(static_context).marks(),
        match r {
            Ok((goals, next)) => pos < next <= tokens.len() && parse_body_spec(
                lex_views(tokens@),
                pos as int,
                old(static_context).names(),
                old(static_context).counter(),
                views(found@),
            ) == Ok::<Parsed<Seq<TermView>>, ParseError>(
                Parsed {
                    value: views(goals@),
                    more: (next - pos - 1) as nat,
                    names: final(static_context).names(),
                    counter: final(static_context).counter(),
                },
            ),
            Err(e) => parse_body_spec(
                lex_views(tokens@),
                pos as int,
                old(static_context).names(),
                old(static_context).counter(),
                views(found@),
            ) == Err::<Parsed<Seq<TermView>>, ParseError>(e),
        },
    decreases left(lex_views(tokens@), pos as int),
{
    let (term, p) = match parse_term(tokens, pos, static_context) {
        Ok(found) => found,
        Err(e) => {
            return Err(e);
        },
    };
    let mut body = found;
    let ghost before = views(body@);
    body.push(term);
    assert(views(body@) =~= before.push(term@));
    if p >= tokens.len() {
        return Err(ParseError::UnexpectedEnd);
    }
    match &tokens[p] {
        Lex::Comma => parse_body(tokens, p + 1, static_context, body),
        Lex::FullStop => Ok((body, p + 1)),
        _ => Err(ParseError::UnexpectedToken),
    }
}

/// Parses a text that is one query.
pub fn query_parser(src: &str, static_context: &mut StaticContext) -> (r: Result<
    Vec<Term>,
    ParseError,
>)
    ensures
        final(static_context).entries() == old(static_context).entries(),
        final(static_context).marks() == old(static_context).marks(),
        match r {
            Ok(goals) => query_of(src@, old(static_context).names(), old(static_context).counter())
                is Ok && query_of(
                src@,
                old(static_context).names(),
                old(static_context).counter(),
            )->Ok_0.value == views(goals@) && query_of(
                src@,
                old(static_context).names(),
                old(static_context).counter(),
            )->Ok_0.names == final(static_context).names() && query_of(
                src@,
                old(static_context).names(),
                old(static_context).counter(),
            )->Ok_0.counter == final(static_context).counter(),
            Err(e) => query_of(src@, old(static_context).names(), old(static_context).counter())
                == Err::<Parsed<Seq<TermView>>, ParseError>(e),
        },
{
    let tokens = match lex(src.to_owned()) {
        Ok(tokens) => tokens,
        Err(e) => {
            return Err(ParseError::Lex(e));
        },
    };
    match parse_query(&tokens, 0, static_context) {
        Ok((goals, next)) => {
            if next == tokens.len() {
                Ok(goals)
            } else {
                Err(ParseError::TrailingTokens)
            }
        },
        Err(e) => Err(e),
    }
}

/// Parses the query that starts at `pos`, and gives its goals with the
/// place behind it.
pub fn parse_query(tokens: &Vec<Lex>, pos: usize, static_context: &mut StaticContext) -> (r: Result<
    (Vec<Term>, usize),
    ParseError,
>)
    ensures
        final(static_context).entries() == old(static_context).entries(),
        final(static_context).marks() == old(static_context).marks(),
        match r {
            Ok((goals, next)) => pos < next <= tokens.len() && parse_query_spec(
                lex_views(tokens@),
                pos as int,
                old(static_context).names(),
                old(static_context).counter(),
            ) == Ok::<Parsed<Seq<TermView>>, ParseError>(
                Parsed {
                    value: views(goals@),
                    more: (next - pos - 1) as nat,
                    names: final(static_context).names(),
                    counter: final(static_context).counter(),
                },
            ),
            Err(e) => parse_query_spec(
                lex_views(tokens@),
                pos as int,
                old(static_context).names(),
                old(static_context).counter(),
            ) == Err::<Parsed<Seq<TermView>>, ParseError>(e),
        },
{
    let starts = pos < tokens.len() && match &tokens[pos] {
        Lex::Query => true,
        _ => false,
    };
    if starts {
        let goals: Vec<Term> = Vec::new();
        assert(views(goals@) =~= Seq::<TermView>::empty());
        parse_body(tokens, pos + 1, static_context, goals)
    } else {
        Err(ParseError::ExpectedQuery)
    }
}

} // verus!
