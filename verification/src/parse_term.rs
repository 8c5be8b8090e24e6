//! The parser of terms: tokens to a term, by recursive descent.

use vstd::prelude::*;
use crate::lex::{Lex, LexError, LexView, lex, lex_text, lex_texts, lex_views, tokens_from};
use crate::text::push_char;
use crate::static_context::{Names, StaticContext, known};
use crate::term::{
    EMPTY_LIST_COMPOUND,
    Term,
    TermView,
    list_view,
    views,
};

verus! {

/// Why a text is no term, clause or query.
#[derive(Debug, PartialEq, Eq, Clone, Copy)]
pub enum ParseError {
    /// The text has no tokens.
    Lex(LexError),
    /// A token stands where the grammar has no place for it.
    UnexpectedToken,
    /// The tokens end where the grammar asks for more.
    UnexpectedEnd,
    /// Tokens are left behind what was to be parsed.
    TrailingTokens,
    /// A query does not start with `?-`.
    ExpectedQuery,
    /// A new variable is needed and the counter is at its end.
    OutOfVariables,
}

/// What a parser found: the value, the number of tokens that it took less
/// one, and the names and the counter afterwards.
pub struct Parsed<T> {
    pub value: T,
    pub more: nat,
    pub names: Names,
    pub counter: int,
}

/// The token at a place, if there is one.
pub open spec fn at(tokens: Seq<LexView>, pos: int) -> Option<LexView> {
    if 0 <= pos < tokens.len() {
        Some(tokens[pos])
    } else {
        None
    }
}

/// The number of tokens from a place on.
pub open spec fn left(tokens: Seq<LexView>, pos: int) -> nat {
    if pos < tokens.len() {
        (tokens.len() - pos) as nat
    } else {
        0
    }
}

/// The term that starts at `pos`.
///
/// A variable token is the variable that its name stands for, a new one
/// where the name is new. An integer token is that integer. An atom token
/// before `(` opens a compound, whose arguments follow up to `)`; any other
/// atom token is that atom. `[` opens a list.
pub open spec fn parse_term_spec(tokens: Seq<LexView>, pos: int, names: Names, counter: int) -> Result<
    Parsed<TermView>,
    ParseError,
>
    decreases left(tokens, pos), 1nat,
{
    match at(tokens, pos) {
        None => Err(ParseError::UnexpectedEnd),
        Some(LexView::Variable(s)) => match known(names, s) {
            Some(t) => Ok(Parsed { value: t, more: 0, names, counter }),
            None => if counter < isize::MAX {
                let t = TermView::Var(counter + 1, Some(s));
                Ok(Parsed { value: t, more: 0, names: names.push((s, t)), counter: counter + 1 })
            } else {
                Err(ParseError::OutOfVariables)
            },
        },
        Some(LexView::Integer(j)) => Ok(
            Parsed { value: TermView::Int(j), more: 0, names, counter },
        ),
        Some(LexView::Atom(name)) => if at(tokens, pos + 1) == Some(LexView::Left) {
            match parse_arguments_spec(tokens, pos + 2, names, counter) {
                Ok(a) => Ok(
                    Parsed {
                        value: TermView::Compound(name, a.value),
                        more: a.more + 2,
                        names: a.names,
                        counter: a.counter,
                    },
                ),
                Err(e) => Err(e),
            }
        } else {
            Ok(Parsed { value: TermView::Atom(name), more: 0, names, counter })
        },
        Some(LexView::LeftSquare) => match parse_list_spec(tokens, pos + 1, names, counter) {
            Ok(l) => Ok(
                Parsed { value: l.value, more: l.more + 1, names: l.names, counter: l.counter },
            ),
            Err(e) => Err(e),
        },
        Some(_) => Err(ParseError::UnexpectedToken),
    }
}

/// The arguments of a compound, from behind its `(` up to its `)`.
pub open spec fn parse_arguments_spec(
    tokens: Seq<LexView>,
    pos: int,
    names: Names,
    counter: int,
) -> Result<Parsed<Seq<TermView>>, ParseError>
    decreases left(tokens, pos), 3nat,
{
    if at(tokens, pos) == Some(LexView::Right) {
        Ok(Parsed { value: Seq::empty(), more: 0, names, counter })
    } else {
        parse_more_arguments_spec(tokens, pos, names, counter, Seq::empty())
    }
}

/// The arguments `found` so far, and those that follow: terms with a comma
/// between two, up to `)`.
pub open spec fn parse_more_arguments_spec(
    tokens: Seq<LexView>,
    pos: int,
    names: Names,
    counter: int,
    found: Seq<TermView>,
) -> Result<Parsed<Seq<TermView>>, ParseError>
    decreases left(tokens, pos), 2nat,
{
    match parse_term_spec(tokens, pos, names, counter) {
        Err(e) => Err(e),
        Ok(t) => {
            let p = pos + 1 + t.more;
            let arguments = found.push(t.value);
            match at(tokens, p) {
                None => Err(ParseError::UnexpectedEnd),
                Some(LexView::Right) => Ok(
                    Parsed {
                        value: arguments,
                        more: t.more + 1,
                        names: t.names,
                        counter: t.counter,
                    },
                ),
                Some(LexView::Comma) => match parse_more_arguments_spec(
                    tokens,
                    p + 1,
                    t.names,
                    t.counter,
                    arguments,
                ) {
                    Ok(r) => Ok(
                        Parsed {
                            value: r.value,
                            more: t.more + 2 + r.more,
                            names: r.names,
                            counter: r.counter,
                        },
                    ),
                    Err(e) => Err(e),
                },
                Some(_) => Err(ParseError::UnexpectedToken),
            }
        },
    }
}

/// A list, from behind its `[` up to its `]`.
pub open spec fn parse_list_spec(tokens: Seq<LexView>, pos: int, names: Names, counter: int) -> Result<
    Parsed<TermView>,
    ParseError,
>
    decreases left(tokens, pos), 3nat,
{
    if at(tokens, pos) == Some(LexView::RightSquare) {
        Ok(Parsed { value: TermView::Atom(EMPTY_LIST_COMPOUND@), more: 0, names, counter })
    } else {
        parse_items_spec(tokens, pos, names, counter, Seq::empty())
    }
}

/// The list of the items `found` so far and those that follow: terms with
/// a comma between two, then `]`, or a bar, the tail and `]`.
pub open spec fn parse_items_spec(
    tokens: Seq<LexView>,
    pos: int,
    names: Names,
    counter: int,
    found: Seq<TermView>,
) -> Result<Parsed<TermView>, ParseError>
    decreases left(tokens, pos), 2nat,
{
    match parse_term_spec(tokens, pos, names, counter) {
        Err(e) => Err(e),
        Ok(t) => {
            let p = pos + 1 + t.more;
            let items = found.push(t.value);
            match at(tokens, p) {
                None => Err(ParseError::UnexpectedEnd),
                Some(LexView::RightSquare) => Ok(
                    Parsed {
                        value: list_view(items, TermView::Atom(EMPTY_LIST_COMPOUND@)),
                        more: t.more + 1,
                        names: t.names,
                        counter: t.counter,
                    },
                ),
                Some(LexView::Comma) => match parse_items_spec(
                    tokens,
                    p + 1,
                    t.names,
                    t.counter,
                    items,
                ) {
                    Ok(r) => Ok(
                        Parsed {
                            value: r.value,
                            more: t.more + 2 + r.more,
                            names: r.names,
                            counter: r.counter,
                        },
                    ),
                    Err(e) => Err(e),
                },
                Some(LexView::Bar) => match parse_term_spec(tokens, p + 1, t.names, t.counter) {
                    Err(e) => Err(e),
                    Ok(tail) => match at(tokens, p + 2 + tail.more) {
                        None => Err(ParseError::UnexpectedEnd),
                        Some(LexView::RightSquare) => Ok(
                            Parsed {
                                value: list_view(items, tail.value),
                                more: t.more + tail.more + 3,
                                names: tail.names,
                                counter: tail.counter,
                            },
                        ),
                        Some(_) => Err(ParseError::UnexpectedToken),
                    },
                },
                Some(_) => Err(ParseError::UnexpectedToken),
            }
        },
    }
}

/// The term that a whole text is.
pub open spec fn term_of(src: Seq<char>, names: Names, counter: int) -> Result<
    Parsed<TermView>,
    ParseError,
> {
    match tokens_from(src, 0) {
        Err(e) => Err(ParseError::Lex(e)),
        Ok(tokens) => match parse_term_spec(tokens, 0, names, counter) {
            Err(e) => Err(e),
            Ok(t) => if t.more + 1 == tokens.len() {
                Ok(t)
            } else {
                Err(ParseError::TrailingTokens)
            },
        },
    }
}

/// Parses a text that is one term.
pub fn term_parser(src: &str, static_context: &mut StaticContext) -> (r: Result<Term, ParseError>)
    ensures
        final(static_context).entries() == old(static_context).entries(),
        final(static_context).marks() == old(static_context).marks(),
        match r {
            Ok(t) => term_of(src@, old(static_context).names(), old(static_context).counter())
                is Ok && term_of(
                src@,
                old(static_context).names(),
                old(static_context).counter(),
            )->Ok_0.value == t@ && term_of(
                src@,
                old(static_context).names(),
                old(static_context).counter(),
            )->Ok_0.names == final(static_context).names() && term_of(
                src@,
                old(static_context).names(),
                old(static_context).counter(),
            )->Ok_0.counter == final(static_context).counter(),
            Err(e) => term_of(src@, old(static_context).names(), old(static_context).counter())
                == Err::<Parsed<TermView>, ParseError>(e),
        },
{
    let tokens = match lex(src.to_owned()) {
        Ok(tokens) => tokens,
        Err(e) => {
            return Err(ParseError::Lex(e));
        },
    };
    match parse_term(&tokens, 0, static_context) {
        Ok((t, next)) => {
            if next == tokens.len() {
                Ok(t)
            } else {
                Err(ParseError::TrailingTokens)
            }
        },
        Err(e) => Err(e),
    }
}

/// Parses the term that starts at `pos`, and gives it with the place
/// behind it.
pub fn parse_term(tokens: &Vec<Lex>, pos: usize, static_context: &mut StaticContext) -> (r: Result<
    (Term, usize),
    ParseError,
>)
    ensures
        final(static_context).entries() == old(static_context).entries(),
        final(static_context).marks() == old(static_context).marks(),
        match r {
            Ok((t, next)) => pos < next <= tokens.len() && parse_term_spec(
                lex_views(tokens@),
                pos as int,
                old(static_context).names(),
                old(static_context).counter(),
            ) == Ok::<Parsed<TermView>, ParseError>(
                Parsed {
                    value: t@,
                    more: (next - pos - 1) as nat,
                    names: final(static_context).names(),
                    counter: final(static_context).counter(),
                },
            ),
            Err(e) => parse_term_spec(
                lex_views(tokens@),
                pos as int,
                old(static_context).names(),
                old(static_context).counter(),
            ) == Err::<Parsed<TermView>, ParseError>(e),
        },
    decreases left(lex_views(tokens@), pos as int), 1nat,
{
    if pos >= tokens.len() {
        return Err(ParseError::UnexpectedEnd);
    }
    proof {
        static_context.lemma_counter_bounded();
    }
    match &tokens[pos] {
        Lex::Variable(s) => match static_context.var(s.as_str()) {
            Some(t) => Ok((t, pos + 1)),
            None => Err(ParseError::OutOfVariables),
        },
        Lex::Integer(j) => Ok((Term::integer(*j), pos + 1)),
        Lex::Atom(name) => {
            let opens = pos + 1 < tokens.len() && match &tokens[pos + 1] {
                Lex::Left => true,
                _ => false,
            };
            if opens {
                match parse_arguments(tokens, pos + 2, static_context) {
                    Ok((arguments, next)) => Ok((Term::compound(name.as_str(), arguments), next)),
                    Err(e) => Err(e),
                }
            } else {
                Ok((Term::atom(name.as_str()), pos + 1))
            }
        },
        Lex::LeftSquare => parse_list(tokens, pos + 1, static_context),
        _ => Err(ParseError::UnexpectedToken),
    }
}

/// The printed forms of the tokens, with a space between two of them.
pub fn remaining(remainder: &Vec<Lex>) -> (left: String)
    ensures
        left@ == lex_texts(lex_views(remainder@)),
{
    let mut left = String::new();
    let mut i: usize = 0;
    let ghost all = lex_views(remainder@);
    assert(all.take(0) =~= Seq::<LexView>::empty());
    while i < remainder.len()
        invariant
            i <= remainder.len(),
            all == lex_views(remainder@),
            left@ == lex_texts(all.take(i as int)),
        decreases remainder.len() - i,
    {
        let ghost before = left@;
        proof {
            let next = all.take(i + 1);
            assert(next.drop_last() =~= all.take(i as int));
            assert(next.last() == remainder@[i as int]@);
            assert(next[0] == all[0]);
        }
        if i > 0 {
            push_char(&mut left, ' ');
        }
        remainder[i].write(&mut left);
        proof {
            let next = all.take(i + 1);
            if i > 0 {
                assert(left@ =~= before + seq![' '] + lex_text(next.last()));
            } else {
                assert(left@ =~= lex_text(next[0]));
            }
        }
        i += 1;
    }
    assert(all.take(i as int) =~= all);
    left
}

/// Whether the token at `pos` is `)`.
fn closes(tokens: &Vec<Lex>, pos: usize) -> (r: bool)
    ensures
        r == (at(lex_views(tokens@), pos as int) == Some(LexView::Right)),
{
    pos < tokens.len() && match &tokens[pos] {
        Lex::Right => true,
        _ => false,
    }
}

/// Whether the token at `pos` is `]`.
fn closes_list(tokens: &Vec<Lex>, pos: usize) -> (r: bool)
    ensures
        r == (at(lex_views(tokens@), pos as int) == Some(LexView::RightSquare)),
{
    pos < tokens.len() && match &tokens[pos] {
        Lex::RightSquare => true,
        _ => false,
    }
}

fn parse_arguments(tokens: &Vec<Lex>, pos: usize, static_context: &mut StaticContext) -> (r: Result<
    (Vec<Term>, usize),
    ParseError,
>)
    requires
        pos <= tokens.len(),
    ensures
        final(static_context).entries() == old(static_context).entries(),
        final(static_context).marks() == old(static_context).marks(),
        match r {
            Ok((found, next)) => pos < next <= tokens.len() && parse_arguments_spec(
                lex_views(tokens@),
                pos as int,
                old(static_context).names(),
                old(static_context).counter(),
            ) == Ok::<Parsed<Seq<TermView>>, ParseError>(
                Parsed {
                    value: views(found@),
                    more: (next - pos - 1) as nat,
                    names: final(static_context).names(),
                    counter: final(static_context).counter(),
                },
            ),
            Err(e) => parse_arguments_spec(
                lex_views(tokens@),
                pos as int,
                old(static_context).names(),
                old(static_context).counter(),
            ) == Err::<Parsed<Seq<TermView>>, ParseError>(e),
        },
    decreases left(lex_views(tokens@), pos as int), 3nat,
{
    if closes(tokens, pos) {
        let found: Vec<Term> = Vec::new();
        assert(views(found@) =~= Seq::<TermView>::empty());
        return Ok((found, pos + 1));
    }
    let found: Vec<Term> = Vec::new();
    assert(views(found@) =~= Seq::<TermView>::empty());
    parse_more_arguments(tokens, pos, static_context, found)
}

fn parse_more_arguments(
    tokens: &Vec<Lex>,
    pos: usize,
    static_context: &mut StaticContext,
    found: Vec<Term>,
) -> (r: Result<(Vec<Term>, usize), ParseError>)
    requires
        pos <= tokens.len(),
    ensures
        final(static_context).entries() == old(static_context).entries(),
        final(static_context).marks() == old(static_context).marks(),
        match r {
            Ok((all, next)) => pos < next <= tokens.len() && parse_more_arguments_spec(
                lex_views(tokens@),
                pos as int,
                old(static_context).names(),
                old(static_context).counter(),
                views(found@),
            ) == Ok::<Parsed<Seq<TermView>>, ParseError>(
                Parsed {
                    value: views(all@),
                    more: (next - pos - 1) as nat,
                    names: final(static_context).names(),
                    counter: final(static_context).counter(),
                },
            ),
            Err(e) => parse_more_arguments_spec(
                lex_views(tokens@),
                pos as int,
                old(static_context).names(),
                old(static_context).counter(),
                views(found@),
            ) == Err::<Parsed<Seq<TermView>>, ParseError>(e),
        },
    decreases left(lex_views(tokens@), pos as int), 2nat,
{
    let (t, p) = match parse_term(tokens, pos, static_context) {
        Ok(found) => found,
        Err(e) => {
            return Err(e);
        },
    };
    let mut found = found;
    let ghost before = views(found@);
    found.push(t);
    assert(views(found@) =~= before.push(t@));
    if p >= tokens.len() {
        return Err(ParseError::UnexpectedEnd);
    }
    match &tokens[p] {
        Lex::Right => Ok((found, p + 1)),
        Lex::Comma => parse_more_arguments(tokens, p + 1, static_context, found),
        _ => Err(ParseError::UnexpectedToken),
    }
}

fn parse_list(tokens: &Vec<Lex>, pos: usize, static_context: &mut StaticContext) -> (r: Result<
    (Term, usize),
    ParseError,
>)
    requires
        1 <= pos <= tokens.len(),
    ensures
        final(static_context).entries() == old(static_context).entries(),
        final(static_context).marks() == old(static_context).marks(),
        match r {
            Ok((t, next)) => pos < next <= tokens.len() && parse_list_spec(
                lex_views(tokens@),
                pos as int,
                old(static_context).names(),
                old(static_context).counter(),
            ) == Ok::<Parsed<TermView>, ParseError>(
                Parsed {
                    value: t@,
                    more: (next - pos - 1) as nat,
                    names: final(static_context).names(),
                    counter: final(static_context).counter(),
                },
            ),
            Err(e) => parse_list_spec(
                lex_views(tokens@),
                pos as int,
                old(static_context).names(),
                old(static_context).counter(),
            ) == Err::<Parsed<TermView>, ParseError>(e),
        },
    decreases left(lex_views(tokens@), pos as int), 3nat,
{
    if closes_list(tokens, pos) {
        return Ok((Term::empty_list(), pos + 1));
    }
    let found: Vec<Term> = Vec::new();
    assert(views(found@) =~= Seq::<TermView>::empty());
    parse_non_empty_list(tokens, pos, static_context, found)
}

fn parse_non_empty_list(
    tokens: &Vec<Lex>,
    pos: usize,
    static_context: &mut StaticContext,
    found: Vec<Term>,
) -> (r: Result<(Term, usize), ParseError>)
    requires
        pos <= tokens.len(),
    ensures
        final(static_context).entries() == old(static_context).entries(),
        final(static_context).marks() == old(static_context).marks(),
        match r {
            Ok((t, next)) => pos < next <= tokens.len() && parse_items_spec(
                lex_views(tokens@),
                pos as int,
                old(static_context).names(),
                old(static_context).counter(),
                views(found@),
            ) == Ok::<Parsed<TermView>, ParseError>(
                Parsed {
                    value: t@,
                    more: (next - pos - 1) as nat,
                    names: final(static_context).names(),
                    counter: final(static_context).counter(),
                },
            ),
            Err(e) => parse_items_spec(
                lex_views(tokens@),
                pos as int,
                old(static_context).names(),
                old(static_context).counter(),
                views(found@),
            ) == Err::<Parsed<TermView>, ParseError>(e),
        },
    decreases left(lex_views(tokens@), pos as int), 2nat,
{
    let (item, p) = match parse_term(tokens, pos, static_context) {
        Ok(found) => found,
        Err(e) => {
            return Err(e);
        },
    };
    let mut list = found;
    let ghost before = views(list@);
    list.push(item);
    assert(views(list@) =~= before.push(item@));
    if p >= tokens.len() {
        return Err(ParseError::UnexpectedEnd);
    }
    match &tokens[p] {
        Lex::RightSquare => Ok((Term::make_list(list), p + 1)),
        Lex::Comma => parse_non_empty_list(tokens, p + 1, static_context, list),
        Lex::Bar => {
            let (tail, q) = match parse_term(tokens, p + 1, static_context) {
                Ok(found) => found,
                Err(e) => {
                    return Err(e);
                },
            };
            if q >= tokens.len() {
                return Err(ParseError::UnexpectedEnd);
            }
            match &tokens[q] {
                Lex::RightSquare => Ok((Term::make_list_onto(list, tail), q + 1)),
                _ => Err(ParseError::UnexpectedToken),
            }
        },
        _ => Err(ParseError::UnexpectedToken),
    }
}

} // verus!
