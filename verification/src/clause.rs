//! Clauses: a head and the goals of its body.

use vstd::prelude::*;
use crate::term::{Term, TermView, has_vars, term_text, views};
use crate::text::push_char;

verus! {

/// A clause `head :- body`. A fact has an empty body.
#[derive(Debug, PartialEq, Eq)]
pub struct Clause {
    pub head: Term,
    pub body: Vec<Term>,
    pub contains_variables: bool,
}

/// A clause as a mathematical value.
pub struct ClauseView {
    pub head: TermView,
    pub body: Seq<TermView>,
}

/// Whether a variable occurs in one of the terms.
pub open spec fn any_has_vars(terms: Seq<TermView>) -> bool {
    exists|i: int| 0 <= i < terms.len() && has_vars(#[trigger] terms[i])
}

/// The printed forms of the terms, one behind the other.
pub open spec fn terms_text(terms: Seq<TermView>) -> Seq<char>
    decreases terms.len(),
{
    if terms.len() == 0 {
        Seq::empty()
    } else {
        terms_text(terms.drop_last()) + term_text(terms.last())
    }
}

/// The printed form of a clause: the head, an arrow, and the goals of the
/// body one behind the other; ` true` in place of an empty body.
pub open spec fn clause_text(c: ClauseView) -> Seq<char> {
    term_text(c.head) + seq![' ', '-', '>', ' '] + if c.body.len() == 0 {
        seq![' ', 't', 'r', 'u', 'e', '.']
    } else {
        terms_text(c.body) + seq!['.']
    }
}

impl View for Clause {
    type V = ClauseView;

    open spec fn view(&self) -> ClauseView {
        ClauseView { head: self.head@, body: views(self.body@) }
    }
}

impl Clause {
    /// The clause with the given head and body.
    pub fn rule(head: Term, body: Vec<Term>) -> (c: Clause)
        ensures
            c@ == (ClauseView { head: head@, body: views(body@) }),
            c.contains_variables == (has_vars(head@) || any_has_vars(views(body@))),
    {
        let mut contains_variables = head.contains_variables();
        let mut i: usize = 0;
        while i < body.len()
            invariant
                i <= body.len(),
                contains_variables == (has_vars(head@) || exists|j: int|
                    0 <= j < i && has_vars(#[trigger] views(body@)[j])),
            decreases body.len() - i,
        {
            if body[i].contains_variables() {
                assert(has_vars(views(body@)[i as int]));
                contains_variables = true;
            }
            i += 1;
        }
        Clause { head, body, contains_variables }
    }

    /// The fact with the given head.
    pub fn fact(head: Term) -> (c: Clause)
        ensures
            c@ == (ClauseView { head: head@, body: Seq::empty() }),
            c.contains_variables == has_vars(head@),
    {
        let contains_variables = head.contains_variables();
        let c = Clause { head, body: Vec::new(), contains_variables };
        assert(views(c.body@) =~= Seq::<TermView>::empty());
        c
    }

    /// The printed form of the clause.
    pub fn to_string(&self) -> (s: String)
        ensures
            s@ == clause_text(self@),
    {
        let mut s = self.head.to_string();
        push_char(&mut s, ' ');
        push_char(&mut s, '-');
        push_char(&mut s, '>');
        push_char(&mut s, ' ');
        let ghost start = s@;
        assert(start =~= term_text(self.head@) + seq![' ', '-', '>', ' ']);
        if self.body.len() == 0 {
            push_char(&mut s, ' ');
            push_char(&mut s, 't');
            push_char(&mut s, 'r');
            push_char(&mut s, 'u');
            push_char(&mut s, 'e');
            push_char(&mut s, '.');
            assert(s@ =~= start + seq![' ', 't', 'r', 'u', 'e', '.']);
        } else {
            let mut i: usize = 0;
            let ghost all = views(self.body@);
            assert(all.take(0) =~= Seq::<TermView>::empty());
            assert(s@ =~= start + terms_text(all.take(0)));
            while i < self.body.len()
                invariant
                    i <= self.body.len(),
                    all == views(self.body@),
                    s@ == start + terms_text(all.take(i as int)),
                decreases self.body.len() - i,
            {
                let ghost before = s@;
                proof {
                    let next = all.take(i + 1);
                    assert(next.drop_last() =~= all.take(i as int));
                    assert(next.last() == self.body@[i as int]@);
                }
                self.body[i].write(&mut s);
                assert(s@ =~= start + terms_text(all.take(i + 1)));
                i += 1;
            }
            assert(all.take(i as int) =~= all);
            push_char(&mut s, '.');
            assert(s@ =~= start + (terms_text(all) + seq!['.']));
        }
        s
    }

    /// A copy of the clause.
    pub fn duplicate(&self) -> (c: Clause)
        ensures
            c@ == self@,
            c.contains_variables == self.contains_variables,
    {
        let body = copy_terms(&self.body);
        Clause { head: self.head.clone(), body, contains_variables: self.contains_variables }
    }
}

/// A copy of the terms.
pub fn copy_terms(terms: &Vec<Term>) -> (copies: Vec<Term>)
    ensures
        views(copies@) == views(terms@),
{
    let mut copies: Vec<Term> = Vec::new();
    let mut i: usize = 0;
    while i < terms.len()
        invariant
            i <= terms.len(),
            copies.len() == i,
            forall|j: int| 0 <= j < i ==> copies@[j]@ == terms@[j]@,
        decreases terms.len() - i,
    {
        copies.push(terms[i].clone());
        i += 1;
    }
    assert(views(copies@) =~= views(terms@));
    copies
}

} // verus!
