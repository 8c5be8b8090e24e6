//! The scanner: source text to tokens.

use vstd::prelude::*;
use vstd::string::StringExecFns;
use crate::text::{decimal, push_char, push_decimal};

verus! {

/// A token.
#[derive(Debug, PartialEq, Eq, Clone)]
pub enum Lex {
    Atom(String),
    Variable(String),
    String(String),
    Integer(isize),
    /// A numeral with a decimal point, as it was written.
    Float(String),
    Boolean(bool),
    Left,
    Right,
    LeftSquare,
    RightSquare,
    Quote,
    FullStop,
    True,
    /// `:-`
    Implies,
    /// `?-`
    Query,
    Comma,
    Bar,
}

/// Why a text has no tokens.
#[derive(Debug, PartialEq, Eq, Clone, Copy)]
pub enum LexError {
    /// A numeral with more than one decimal point.
    InvalidFloat,
    /// A numeral without decimal point that is too large for an integer.
    InvalidInt,
    /// A string without its closing quote.
    UnterminatedString,
}

/// A token as a mathematical value.
pub enum LexView {
    Atom(Seq<char>),
    Variable(Seq<char>),
    String(Seq<char>),
    Integer(int),
    Float(Seq<char>),
    Boolean(bool),
    Left,
    Right,
    LeftSquare,
    RightSquare,
    Quote,
    FullStop,
    True,
    Implies,
    Query,
    Comma,
    Bar,
}

impl View for Lex {
    type V = LexView;

    open spec fn view(&self) -> LexView {
        match self {
            Lex::Atom(s) => LexView::Atom(s@),
            Lex::Variable(s) => LexView::Variable(s@),
            Lex::String(s) => LexView::String(s@),
            Lex::Integer(i) => LexView::Integer(*i as int),
            Lex::Float(s) => LexView::Float(s@),
            Lex::Boolean(b) => LexView::Boolean(*b),
            Lex::Left => LexView::Left,
            Lex::Right => LexView::Right,
            Lex::LeftSquare => LexView::LeftSquare,
            Lex::RightSquare => LexView::RightSquare,
            Lex::Quote => LexView::Quote,
            Lex::FullStop => LexView::FullStop,
            Lex::True => LexView::True,
            Lex::Implies => LexView::Implies,
            Lex::Query => LexView::Query,
            Lex::Comma => LexView::Comma,
            Lex::Bar => LexView::Bar,
        }
    }
}

/// The printed form of a token.
pub open spec fn lex_text(t: LexView) -> Seq<char> {
    match t {
        LexView::Left => seq!['('],
        LexView::Right => seq![')'],
        LexView::LeftSquare => seq!['['],
        LexView::RightSquare => seq![']'],
        LexView::Quote => seq!['\''],
        LexView::Atom(s) => s,
        LexView::Integer(i) => decimal(i),
        LexView::Float(s) => s,
        LexView::Boolean(b) => if b {
            seq!['t', 'r', 'u', 'e']
        } else {
            seq!['f', 'a', 'l', 's', 'e']
        },
        LexView::String(s) => s,
        LexView::Variable(s) => s,
        LexView::FullStop => seq!['.'],
        LexView::True => seq!['t', 'r', 'u', 'e'],
        LexView::Implies => seq![':', '-'],
        LexView::Query => seq!['?', '-'],
        LexView::Comma => seq![',', ' '],
        LexView::Bar => seq!['|'],
    }
}

/// The printed forms of the tokens, with a space between two of them.
pub open spec fn lex_texts(tokens: Seq<LexView>) -> Seq<char>
    decreases tokens.len(),
{
    if tokens.len() == 0 {
        Seq::empty()
    } else if tokens.len() == 1 {
        lex_text(tokens[0])
    } else {
        lex_texts(tokens.drop_last()) + seq![' '] + lex_text(tokens.last())
    }
}

impl Lex {
    /// Appends the printed form of the token to `out`.
    pub fn write(&self, out: &mut String)
        ensures
            final(out)@ == old(out)@ + lex_text(self@),
    {
        match self {
            Lex::Left => {
                push_char(out, '(');
            },
            Lex::Right => {
                push_char(out, ')');
            },
            Lex::LeftSquare => {
                push_char(out, '[');
            },
            Lex::RightSquare => {
                push_char(out, ']');
            },
            Lex::Quote => {
                push_char(out, '\'');
            },
            Lex::Atom(s) => {
                out.append(s.as_str());
            },
            Lex::Integer(i) => {
                push_decimal(out, *i);
            },
            Lex::Float(s) => {
                out.append(s.as_str());
            },
            Lex::Boolean(b) => {
                if *b {
                    push_char(out, 't');
                    push_char(out, 'r');
                    push_char(out, 'u');
                    push_char(out, 'e');
                } else {
                    push_char(out, 'f');
                    push_char(out, 'a');
                    push_char(out, 'l');
                    push_char(out, 's');
                    push_char(out, 'e');
                }
            },
            Lex::String(s) => {
                out.append(s.as_str());
            },
            Lex::Variable(s) => {
                out.append(s.as_str());
            },
            Lex::FullStop => {
                push_char(out, '.');
            },
            Lex::True => {
                push_char(out, 't');
                push_char(out, 'r');
                push_char(out, 'u');
                push_char(out, 'e');
            },
            Lex::Implies => {
                push_char(out, ':');
                push_char(out, '-');
            },
            Lex::Query => {
                push_char(out, '?');
                push_char(out, '-');
            },
            Lex::Comma => {
                push_char(out, ',');
                push_char(out, ' ');
            },
            Lex::Bar => {
                push_char(out, '|');
            },
        }
        assert(out@ =~= old(out)@ + lex_text(self@));
    }

    /// The printed form of the token.
    pub fn to_string(&self) -> (s: String)
        ensures
            s@ == lex_text(self@),
    {
        let mut s = String::new();
        self.write(&mut s);
        assert(s@ =~= lex_text(self@));
        s
    }
}

/// The views of a sequence of tokens, one for one.
pub open spec fn lex_views(tokens: Seq<Lex>) -> Seq<LexView> {
    Seq::new(tokens.len(), |i: int| tokens[i]@)
}

/// Whether `char::is_uppercase` of std holds of the character: whether it
/// has the Unicode property Uppercase.
pub uninterp spec fn is_uppercase_char(c: char) -> bool;

/// Whether `char::is_alphanumeric` of std holds of the character: whether
/// it is a letter or a number in the sense of Unicode.
pub uninterp spec fn is_alphanumeric_char(c: char) -> bool;

/// `char::is_uppercase` of std.
#[verifier::external_body]
fn is_uppercase(c: char) -> (r: bool)
    ensures
        r == is_uppercase_char(c),
{
    c.is_uppercase()
}

/// `char::is_alphanumeric` of std.
#[verifier::external_body]
fn is_alphanumeric(c: char) -> (r: bool)
    ensures
        r == is_alphanumeric_char(c),
{
    c.is_alphanumeric()
}

/// The value of a decimal digit; `None` for any other character.
pub open spec fn digit_value(c: char) -> Option<int> {
    if c == '0' {
        Some(0)
    } else if c == '1' {
        Some(1)
    } else if c == '2' {
        Some(2)
    } else if c == '3' {
        Some(3)
    } else if c == '4' {
        Some(4)
    } else if c == '5' {
        Some(5)
    } else if c == '6' {
        Some(6)
    } else if c == '7' {
        Some(7)
    } else if c == '8' {
        Some(8)
    } else if c == '9' {
        Some(9)
    } else {
        None
    }
}

/// The value of a decimal digit.
pub fn digit(c: char) -> (r: Option<isize>)
    ensures
        match r {
            Some(d) => digit_value(c) == Some(d as int),
            None => digit_value(c) is None,
        },
{
    if c == '0' {
        Some(0)
    } else if c == '1' {
        Some(1)
    } else if c == '2' {
        Some(2)
    } else if c == '3' {
        Some(3)
    } else if c == '4' {
        Some(4)
    } else if c == '5' {
        Some(5)
    } else if c == '6' {
        Some(6)
    } else if c == '7' {
        Some(7)
    } else if c == '8' {
        Some(8)
    } else if c == '9' {
        Some(9)
    } else {
        None
    }
}

/// Whether a character goes on a numeral: a digit or a point.
pub open spec fn is_numeral_char(c: char) -> bool {
    digit_value(c) is Some || c == '.'
}

/// Whether a character goes on a name: a letter, a number or an
/// underscore.
pub open spec fn is_name_char(c: char) -> bool {
    is_alphanumeric_char(c) || c == '_'
}

/// The characters of a text.
pub fn characters(src: &str) -> (chars: Vec<char>)
    ensures
        chars@ == src@,
{
    broadcast use vstd::string::group_string_axioms;

    let mut chars: Vec<char> = Vec::new();
    for c in it: src.chars()
        invariant
            chars@ == it.history(),
    {
        let ghost before = chars@;
        chars.push(c);
        assert(chars@ =~= before.push(c));
    }
    chars
}

/// How many characters from `from` on go on a numeral, one after the
/// other.
pub open spec fn numeral_run(chars: Seq<char>, from: int) -> nat
    decreases chars.len() - from,
{
    if 0 <= from < chars.len() && is_numeral_char(chars[from]) {
        1 + numeral_run(chars, from + 1)
    } else {
        0
    }
}

/// How many characters from `from` on go on a name, one after the other.
pub open spec fn name_run(chars: Seq<char>, from: int) -> nat
    decreases chars.len() - from,
{
    if 0 <= from < chars.len() && is_name_char(chars[from]) {
        1 + name_run(chars, from + 1)
    } else {
        0
    }
}

/// How many characters from `from` on stand before the next double quote,
/// or before the end of the text.
pub open spec fn string_run(chars: Seq<char>, from: int) -> nat
    decreases chars.len() - from,
{
    if 0 <= from < chars.len() && chars[from] != '"' {
        1 + string_run(chars, from + 1)
    } else {
        0
    }
}

/// The number of decimal points among the characters.
pub open spec fn points(text: Seq<char>) -> nat
    decreases text.len(),
{
    if text.len() == 0 {
        0
    } else {
        points(text.drop_last()) + if text.last() == '.' {
            1nat
        } else {
            0nat
        }
    }
}

/// The number that the digits write; a character that is no digit counts
/// as 0.
pub open spec fn number_value(text: Seq<char>) -> int
    decreases text.len(),
{
    if text.len() == 0 {
        0
    } else {
        number_value(text.drop_last()) * 10 + match digit_value(text.last()) {
            Some(d) => d,
            None => 0,
        }
    }
}

/// The token of a numeral: an integer where it has no point and fits, a
/// float where it has one point.
pub open spec fn numeral_token(text: Seq<char>) -> Result<LexView, LexError> {
    if points(text) == 0 {
        if number_value(text) <= isize::MAX {
            Ok(LexView::Integer(number_value(text)))
        } else {
            Err(LexError::InvalidInt)
        }
    } else if points(text) == 1 {
        Ok(LexView::Float(text))
    } else {
        Err(LexError::InvalidFloat)
    }
}

/// The token of a name: a variable where it starts with an uppercase
/// letter, the reserved word `true`, or an atom.
pub open spec fn name_token(text: Seq<char>) -> LexView {
    if text.len() > 0 && is_uppercase_char(text[0]) {
        LexView::Variable(text)
    } else if text == seq!['t', 'r', 'u', 'e'] {
        LexView::True
    } else {
        LexView::Atom(text)
    }
}

/// Whether the character after the `i`-th is `c`.
pub open spec fn followed_by(chars: Seq<char>, i: int, c: char) -> bool {
    i + 1 < chars.len() && chars[i + 1] == c
}

/// The token that starts at the `i`-th character, which is neither a space
/// nor a line break, and the place behind the token.
pub open spec fn token_at(chars: Seq<char>, i: int) -> (Result<LexView, LexError>, int) {
    let c = chars[i];
    if c == '(' {
        (Ok(LexView::Left), i + 1)
    } else if c == ')' {
        (Ok(LexView::Right), i + 1)
    } else if c == '[' {
        (Ok(LexView::LeftSquare), i + 1)
    } else if c == ']' {
        (Ok(LexView::RightSquare), i + 1)
    } else if c == '.' {
        (Ok(LexView::FullStop), i + 1)
    } else if c == '\'' {
        (Ok(LexView::Quote), i + 1)
    } else if c == ',' {
        (Ok(LexView::Comma), i + 1)
    } else if c == '|' {
        (Ok(LexView::Bar), i + 1)
    } else if c == '<' {
        if followed_by(chars, i, '=') {
            (Ok(LexView::Atom(seq!['<', '='])), i + 2)
        } else {
            (Ok(LexView::Atom(seq!['<'])), i + 1)
        }
    } else if c == '>' {
        if followed_by(chars, i, '=') {
            (Ok(LexView::Atom(seq!['>', '='])), i + 2)
        } else {
            (Ok(LexView::Atom(seq!['>'])), i + 1)
        }
    } else if c == ':' {
        if followed_by(chars, i, '-') {
            (Ok(LexView::Implies), i + 2)
        } else {
            (Ok(LexView::Atom(seq!['-'])), i + 1)
        }
    } else if c == '?' {
        if followed_by(chars, i, '-') {
            (Ok(LexView::Query), i + 2)
        } else {
            (Ok(LexView::Atom(seq!['?'])), i + 1)
        }
    } else if c == '"' {
        let end = i + 1 + string_run(chars, i + 1);
        if end < chars.len() {
            (Ok(LexView::String(chars.subrange(i + 1, end))), end + 1)
        } else {
            (Err(LexError::UnterminatedString), end)
        }
    } else if digit_value(c) is Some {
        let end = i + 1 + numeral_run(chars, i + 1);
        (numeral_token(chars.subrange(i, end)), end)
    } else {
        let end = i + 1 + name_run(chars, i + 1);
        (Ok(name_token(chars.subrange(i, end))), end)
    }
}

/// The tokens of the text from the `i`-th character on. Spaces and line
/// breaks separate tokens and are dropped.
pub open spec fn tokens_from(chars: Seq<char>, i: int) -> Result<Seq<LexView>, LexError>
    decreases
            (if i < chars.len() {
                chars.len() - i
            } else {
                0
            }),
{
    if i < 0 || i >= chars.len() {
        Ok(Seq::empty())
    } else if chars[i] == ' ' || chars[i] == '\n' {
        tokens_from(chars, i + 1)
    } else {
        let t = token_at(chars, i);
        match t.0 {
            Err(e) => Err(e),
            Ok(token) => match tokens_from(chars, t.1) {
                Ok(rest) => Ok(seq![token] + rest),
                Err(e) => Err(e),
            },
        }
    }
}

/// The tokens `front` before what `rest` gives.
pub open spec fn tokens_then(front: Seq<LexView>, rest: Result<Seq<LexView>, LexError>) -> Result<
    Seq<LexView>,
    LexError,
> {
    match rest {
        Ok(tokens) => Ok(front + tokens),
        Err(e) => Err(e),
    }
}

/// The characters from `from` up to `to`, as a string.
fn text_between(chars: &Vec<char>, from: usize, to: usize) -> (text: String)
    requires
        from <= to <= chars.len(),
    ensures
        text@ == chars@.subrange(from as int, to as int),
{
    let mut text = String::new();
    let mut i: usize = from;
    assert(text@ =~= chars@.subrange(from as int, from as int));
    while i < to
        invariant
            from <= i <= to <= chars.len(),
            text@ == chars@.subrange(from as int, i as int),
        decreases to - i,
    {
        push_char(&mut text, chars[i]);
        assert(text@ =~= chars@.subrange(from as int, i + 1));
        i += 1;
    }
    text
}

/// The place behind the numeral characters that start at `from`.
fn numeral_end(chars: &Vec<char>, from: usize) -> (end: usize)
    requires
        from <= chars.len(),
    ensures
        from <= end <= chars.len(),
        end == from + numeral_run(chars@, from as int),
{
    let mut i: usize = from;
    while i < chars.len() && (digit(chars[i]).is_some() || chars[i] == '.')
        invariant
            from <= i <= chars.len(),
            numeral_run(chars@, from as int) == (i - from) + numeral_run(chars@, i as int),
        decreases chars.len() - i,
    {
        i += 1;
    }
    i
}

/// The place behind the name characters that start at `from`.
fn name_end(chars: &Vec<char>, from: usize) -> (end: usize)
    requires
        from <= chars.len(),
    ensures
        from <= end <= chars.len(),
        end == from + name_run(chars@, from as int),
{
    let mut i: usize = from;
    while i < chars.len() && (is_alphanumeric(chars[i]) || chars[i] == '_')
        invariant
            from <= i <= chars.len(),
            name_run(chars@, from as int) == (i - from) + name_run(chars@, i as int),
        decreases chars.len() - i,
    {
        i += 1;
    }
    i
}

/// The place of the next double quote from `from` on, or the end.
fn string_end(chars: &Vec<char>, from: usize) -> (end: usize)
    requires
        from <= chars.len(),
    ensures
        from <= end <= chars.len(),
        end == from + string_run(chars@, from as int),
{
    let mut i: usize = from;
    while i < chars.len() && chars[i] != '"'
        invariant
            from <= i <= chars.len(),
            string_run(chars@, from as int) == (i - from) + string_run(chars@, i as int),
        decreases chars.len() - i,
    {
        i += 1;
    }
    i
}

/// The number that the front of a numeral writes is not above the number
/// that all of it writes.
pub proof fn lemma_number_value_grows(text: Seq<char>, n: int)
    requires
        0 <= n <= text.len(),
    ensures
        0 <= number_value(text.take(n)) <= number_value(text),
    decreases text.len() - n,
{
    lemma_number_value_natural(text.take(n));
    if n == text.len() {
        assert(text.take(n) =~= text);
    } else {
        let next = text.take(n + 1);
        assert(next.drop_last() =~= text.take(n));
        lemma_number_value_grows(text, n + 1);
    }
}

/// The number that a numeral writes is not negative.
pub proof fn lemma_number_value_natural(text: Seq<char>)
    ensures
        0 <= number_value(text),
    decreases text.len(),
{
    if text.len() > 0 {
        lemma_number_value_natural(text.drop_last());
    }
}

/// The token of the numeral that the characters from `from` up to `to`
/// write.
fn numeral(chars: &Vec<char>, from: usize, to: usize) -> (r: Result<Lex, LexError>)
    requires
        from <= to <= chars.len(),
    ensures
        match r {
            Ok(token) => numeral_token(chars@.subrange(from as int, to as int)) == Ok::<
                LexView,
                LexError,
            >(token@),
            Err(e) => numeral_token(chars@.subrange(from as int, to as int)) == Err::<
                LexView,
                LexError,
            >(e),
        },
{
    let ghost text = chars@.subrange(from as int, to as int);
    let mut dots: usize = 0;
    let mut value: Option<isize> = Some(0);
    let mut i: usize = from;
    assert(text.take(0) =~= Seq::<char>::empty());
    while i < to
        invariant
            from <= i <= to <= chars.len(),
            text == chars@.subrange(from as int, to as int),
            dots == points(text.take(i - from)),
            dots <= i - from,
            match value {
                Some(v) => v == number_value(text.take(i - from)),
                None => number_value(text) > isize::MAX,
            },
        decreases to - i,
    {
        let c = chars[i];
        proof {
            let next = text.take(i + 1 - from);
            assert(next.drop_last() =~= text.take(i - from));
            assert(next.last() == c);
            lemma_number_value_grows(text, i + 1 - from);
            lemma_number_value_grows(text, i - from);
        }
        if c == '.' {
            dots += 1;
        }
        let d: isize = match digit(c) {
            Some(d) => d,
            None => 0,
        };
        value = match value {
            Some(v) => match v.checked_mul(10) {
                Some(tens) => tens.checked_add(d),
                None => None,
            },
            None => None,
        };
        i += 1;
    }
    assert(text.take(to - from) =~= text);
    if dots == 0 {
        match value {
            Some(v) => Ok(Lex::Integer(v)),
            None => Err(LexError::InvalidInt),
        }
    } else if dots == 1 {
        Ok(Lex::Float(text_between(chars, from, to)))
    } else {
        Err(LexError::InvalidFloat)
    }
}

/// The token of the name that the characters from `from` up to `to` write.
fn name(chars: &Vec<char>, from: usize, to: usize) -> (token: Lex)
    requires
        from < to <= chars.len(),
    ensures
        token@ == name_token(chars@.subrange(from as int, to as int)),
{
    let text = text_between(chars, from, to);
    if is_uppercase(chars[from]) {
        Lex::Variable(text)
    } else {
        let word = String::from_str("true");
        proof {
            reveal_strlit("true");
            assert(word@ =~= seq!['t', 'r', 'u', 'e']);
        }
        if text == word {
            Lex::True
        } else {
            Lex::Atom(text)
        }
    }
}

/// The atom of one or two given characters.
fn short_atom(first: char, second: Option<char>) -> (token: Lex)
    ensures
        token@ == LexView::Atom(
            match second {
                Some(c) => seq![first, c],
                None => seq![first],
            },
        ),
{
    let mut text = String::new();
    push_char(&mut text, first);
    match second {
        Some(c) => {
            push_char(&mut text, c);
            assert(text@ =~= seq![first, c]);
        },
        None => {
            assert(text@ =~= seq![first]);
        },
    }
    Lex::Atom(text)
}

/// The token that starts at the `i`-th character, and the place behind it.
fn token(chars: &Vec<char>, i: usize) -> (r: (Result<Lex, LexError>, usize))
    requires
        i < chars.len(),
    ensures
        i < r.1 <= chars.len(),
        r.1 == token_at(chars@, i as int).1,
        match r.0 {
            Ok(token) => token_at(chars@, i as int).0 == Ok::<LexView, LexError>(token@),
            Err(e) => token_at(chars@, i as int).0 == Err::<LexView, LexError>(e),
        },
{
    let c = chars[i];
    let follows_equals = i + 1 < chars.len() && chars[i + 1] == '=';
    let follows_minus = i + 1 < chars.len() && chars[i + 1] == '-';
    if c == '(' {
        (Ok(Lex::Left), i + 1)
    } else if c == ')' {
        (Ok(Lex::Right), i + 1)
    } else if c == '[' {
        (Ok(Lex::LeftSquare), i + 1)
    } else if c == ']' {
        (Ok(Lex::RightSquare), i + 1)
    } else if c == '.' {
        (Ok(Lex::FullStop), i + 1)
    } else if c == '\'' {
        (Ok(Lex::Quote), i + 1)
    } else if c == ',' {
        (Ok(Lex::Comma), i + 1)
    } else if c == '|' {
        (Ok(Lex::Bar), i + 1)
    } else if c == '<' {
        if follows_equals {
            (Ok(short_atom('<', Some('='))), i + 2)
        } else {
            (Ok(short_atom('<', None)), i + 1)
        }
    } else if c == '>' {
        if follows_equals {
            (Ok(short_atom('>', Some('='))), i + 2)
        } else {
            (Ok(short_atom('>', None)), i + 1)
        }
    } else if c == ':' {
        if follows_minus {
            (Ok(Lex::Implies), i + 2)
        } else {
            (Ok(short_atom('-', None)), i + 1)
        }
    } else if c == '?' {
        if follows_minus {
            (Ok(Lex::Query), i + 2)
        } else {
            (Ok(short_atom('?', None)), i + 1)
        }
    } else if c == '"' {
        let end = string_end(chars, i + 1);
        if end < chars.len() {
            (Ok(Lex::String(text_between(chars, i + 1, end))), end + 1)
        } else {
            (Err(LexError::UnterminatedString), end)
        }
    } else if digit(c).is_some() {
        let end = numeral_end(chars, i + 1);
        (numeral(chars, i, end), end)
    } else {
        let end = name_end(chars, i + 1);
        (Ok(name(chars, i, end)), end)
    }
}

/// The tokens of a text.
///
/// Brackets, comma, bar, full stop and quote are tokens of their own, and
/// so are `:-` and `?-`. `<`, `<=`, `>`, `>=` and a lone `?` are atoms. A
/// double quote opens a string that ends at the next one. A digit opens a
/// numeral of digits and points. Anything else opens a name of letters,
/// numbers and underscores.
pub fn lex(src: String) -> (r: Result<Vec<Lex>, LexError>)
    ensures
        match r {
            Ok(tokens) => tokens_from(src@, 0) == Ok::<Seq<LexView>, LexError>(lex_views(tokens@)),
            Err(e) => tokens_from(src@, 0) == Err::<Seq<LexView>, LexError>(e),
        },
{
    let chars = characters(src.as_str());
    let mut result: Vec<Lex> = Vec::new();
    let mut i: usize = 0;
    proof {
        lemma_tokens_then_nothing(tokens_from(chars@, 0));
        assert(lex_views(result@) =~= Seq::<LexView>::empty());
    }
    while i < chars.len()
        invariant
            i <= chars.len(),
            chars@ == src@,
            tokens_from(chars@, 0) == tokens_then(lex_views(result@), tokens_from(chars@, i as int)),
        decreases chars.len() - i,
    {
        let c = chars[i];
        if c == ' ' || c == '\n' {
            i += 1;
        } else {
            let ghost before = lex_views(result@);
            let (found, next) = token(&chars, i);
            match found {
                Err(e) => {
                    return Err(e);
                },
                Ok(t) => {
                    result.push(t);
                    proof {
                        assert(lex_views(result@) =~= before.push(t@));
                        lemma_tokens_then_step(before, t@, tokens_from(chars@, next as int));
                    }
                },
            }
            i = next;
        }
    }
    proof {
        assert(lex_views(result@) + Seq::<LexView>::empty() =~= lex_views(result@));
    }
    Ok(result)
}

/// Nothing in front changes nothing.
pub proof fn lemma_tokens_then_nothing(rest: Result<Seq<LexView>, LexError>)
    ensures
        tokens_then(Seq::empty(), rest) == rest,
{
    match rest {
        Ok(tokens) => {
            assert(Seq::<LexView>::empty() + tokens =~= tokens);
        },
        Err(e) => {},
    }
}

/// A token in front of the rest may as well be counted to the front.
pub proof fn lemma_tokens_then_step(
    front: Seq<LexView>,
    token: LexView,
    rest: Result<Seq<LexView>, LexError>,
)
    ensures
        tokens_then(front.push(token), rest) == tokens_then(
            front,
            match rest {
                Ok(tokens) => Ok(seq![token] + tokens),
                Err(e) => Err(e),
            },
        ),
{
    match rest {
        Ok(tokens) => {
            assert(front.push(token) + tokens =~= front + (seq![token] + tokens));
        },
        Err(e) => {},
    }
}

} // verus!
