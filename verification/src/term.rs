//! Terms and their mathematical view.

use vstd::prelude::*;
use vstd::string::StringExecFns;
use crate::bindings::Bindings;
use crate::text::{decimal, push_char, push_decimal};
use crate::variable::{Variable, variable_text};

verus! {

/// The functor of a list cell.
pub const LIST_COMPOUND: &'static str = "_list";

/// The atom that stands for the empty list.
pub const EMPTY_LIST_COMPOUND: &'static str = "_emptyList";

/// A term as a mathematical value: names are sequences of characters,
/// integers are unbounded, and a variable is its identity with its display
/// name.
pub enum TermView {
    Atom(Seq<char>),
    Int(int),
    Var(int, Option<Seq<char>>),
    Compound(Seq<char>, Seq<TermView>),
}

/// A term of the language: an atom, an integer, a variable or a compound of
/// a functor and its arguments.
#[derive(Debug, PartialEq, Eq, Hash)]
pub enum Term {
    Atom(String),
    Int(isize),
    Variable(Variable),
    CompoundTerm(String, Vec<Term>),
}

impl View for Term {
    type V = TermView;

    open spec fn view(&self) -> TermView
        decreases self,
    {
        match self {
            Term::Atom(s) => TermView::Atom(s@),
            Term::Int(i) => TermView::Int(*i as int),
            Term::Variable(v) => TermView::Var(v.id(), v.name()),
            Term::CompoundTerm(f, args) => TermView::Compound(f@, Term::view_all(args@)),
        }
    }
}

impl Term {
    /// The views of a sequence of terms, one for one, from the last down.
    pub open spec fn view_all(terms: Seq<Term>) -> Seq<TermView>
        decreases terms,
    {
        if terms.len() == 0 {
            Seq::empty()
        } else {
            Term::view_all(terms.drop_last()).push(terms.last().view())
        }
    }
}

impl Clone for Term {
    #[verifier::loop_isolation(false)]
    fn clone(&self) -> (r: Term)
        ensures
            r@ == self@,
        decreases self,
    {
        match self {
            Term::Atom(s) => Term::Atom(s.clone()),
            Term::Int(i) => Term::Int(*i),
            Term::Variable(v) => Term::Variable(v.duplicate()),
            Term::CompoundTerm(f, args) => {
                let mut copies: Vec<Term> = Vec::new();
                let mut i: usize = 0;
                while i < args.len()
                    invariant
                        i <= args.len(),
                        copies.len() == i,
                        forall|j: int| 0 <= j < i ==> copies@[j]@ == args@[j]@,
                    decreases args.len() - i,
                {
                    copies.push(args[i].clone());
                    i += 1;
                }
                let r = Term::CompoundTerm(f.clone(), copies);
                proof {
                    lemma_compound_view(r);
                    lemma_compound_view(*self);
                    assert(views(copies@) =~= views(args@));
                }
                r
            }
        }
    }
}

/// The views of a sequence of terms, one for one.
pub open spec fn views(terms: Seq<Term>) -> Seq<TermView> {
    Seq::new(terms.len(), |i: int| terms[i]@)
}

/// `view_all` is `views`.
pub proof fn lemma_view_all(terms: Seq<Term>)
    ensures
        Term::view_all(terms) == views(terms),
    decreases terms.len(),
{
    if terms.len() > 0 {
        lemma_view_all(terms.drop_last());
        assert(Term::view_all(terms) == Term::view_all(terms.drop_last()).push(terms.last()@));
        assert(views(terms.drop_last()).len() == terms.len() - 1);
        assert(Term::view_all(terms).len() == terms.len());
        assert(views(terms).len() == terms.len());
        assert forall|i: int| 0 <= i < terms.len() implies Term::view_all(terms)[i] == views(terms)[i] by {
            if i < terms.len() - 1 {
                assert(views(terms.drop_last())[i] == terms.drop_last()[i]@);
            }
        }
    }
    assert(Term::view_all(terms) =~= views(terms));
}

/// The view of a compound is its functor with the views of its arguments.
pub proof fn lemma_compound_view(t: Term)
    requires
        t is CompoundTerm,
    ensures
        t@ == TermView::Compound(t->CompoundTerm_0@, views(t->CompoundTerm_1@)),
{
    lemma_view_all(t->CompoundTerm_1@);
}

/// Whether a variable occurs in the term.
pub open spec fn has_vars(t: TermView) -> bool
    decreases t,
{
    match t {
        TermView::Var(_, _) => true,
        TermView::Compound(_, args) => exists|i: int|
            0 <= i < args.len() && has_vars(#[trigger] args[i]),
        _ => false,
    }
}

/// Whether the identity of every variable of the term lies above `lo` and
/// not above `hi`.
pub open spec fn ids_within(t: TermView, lo: int, hi: int) -> bool
    decreases t,
{
    match t {
        TermView::Var(id, _) => lo < id <= hi,
        TermView::Compound(_, args) => forall|i: int|
            0 <= i < args.len() ==> ids_within(#[trigger] args[i], lo, hi),
        _ => true,
    }
}

/// The term with the display names of its variables left out. Two
/// variables are the same where their identities are, so two terms are the
/// same where they are equal without the names.
pub open spec fn plain(t: TermView) -> TermView
    decreases t,
{
    match t {
        TermView::Var(id, _) => TermView::Var(id, None),
        TermView::Compound(f, args) => TermView::Compound(f, plain_all(args)),
        _ => t,
    }
}

/// `plain` of each term of a sequence.
pub open spec fn plain_all(terms: Seq<TermView>) -> Seq<TermView>
    decreases terms,
{
    if terms.len() == 0 {
        Seq::empty()
    } else {
        plain_all(terms.drop_last()).push(plain(terms.last()))
    }
}

/// Whether the two are the same term: the same shape, names of atoms and
/// functors, numbers, and variables of the same identities.
pub open spec fn alike(a: TermView, b: TermView) -> bool {
    plain(a) == plain(b)
}

/// Whether one of the terms is the variable with the identity `id`.
pub open spec fn has_id(terms: Seq<TermView>, id: int) -> bool {
    exists|i: int| 0 <= i < terms.len() && (#[trigger] terms[i]) is Var && terms[i]->Var_0 == id
}

/// Adds to `acc` the variables of `t` that `acc` does not hold yet, in the
/// order in which they first occur from left to right. A variable is held
/// where one of its identity is, whatever name it is shown under.
pub open spec fn collect_vars(t: TermView, acc: Seq<TermView>) -> Seq<TermView>
    decreases t,
{
    match t {
        TermView::Var(id, _) => if has_id(acc, id) {
            acc
        } else {
            acc.push(t)
        },
        TermView::Compound(_, args) => collect_vars_all(args, acc),
        _ => acc,
    }
}

/// `collect_vars` over a sequence of terms, from left to right.
pub open spec fn collect_vars_all(terms: Seq<TermView>, acc: Seq<TermView>) -> Seq<TermView>
    decreases terms,
{
    if terms.len() == 0 {
        acc
    } else {
        collect_vars(terms.last(), collect_vars_all(terms.drop_last(), acc))
    }
}

/// The list with the given items in front of `tail`.
pub open spec fn list_view(items: Seq<TermView>, tail: TermView) -> TermView
    decreases items.len(),
{
    if items.len() == 0 {
        tail
    } else {
        TermView::Compound(LIST_COMPOUND@, seq![items[0], list_view(items.skip(1), tail)])
    }
}

/// Whether the term is a list cell: a compound of the list functor with a
/// head and a tail.
pub open spec fn is_cell(t: TermView) -> bool {
    t is Compound && t->Compound_0 == LIST_COMPOUND@ && t->Compound_1.len() >= 2
}

/// The printed form of a term: an atom's name, `[]` for the empty list, an
/// integer's decimal numeral, a variable's name, a list in square brackets
/// and any other compound as its functor and its arguments in round
/// brackets.
pub open spec fn term_text(t: TermView) -> Seq<char>
    decreases t, 1nat,
{
    match t {
        TermView::Atom(s) => if s == EMPTY_LIST_COMPOUND@ {
            seq!['[', ']']
        } else {
            s
        },
        TermView::Int(i) => decimal(i),
        TermView::Var(id, name) => variable_text(id, name),
        TermView::Compound(f, args) => if is_cell(t) {
            seq!['['] + cell_text(t) + seq![']']
        } else {
            f + seq!['('] + arguments_text(args) + seq![')']
        },
    }
}

/// What stands between the brackets of a list: the head, then nothing
/// where the tail is the empty list, a comma and the rest where the tail is
/// a list cell, and a bar and the tail where it is anything else.
pub open spec fn cell_text(t: TermView) -> Seq<char>
    decreases t, 0nat,
{
    if is_cell(t) {
        let head = t->Compound_1[0];
        let tail = t->Compound_1[1];
        term_text(head) + if tail == TermView::Atom(EMPTY_LIST_COMPOUND@) {
            Seq::empty()
        } else if is_cell(tail) {
            seq![','] + cell_text(tail)
        } else {
            seq!['|'] + term_text(tail)
        }
    } else {
        Seq::empty()
    }
}

/// The printed forms of the arguments, with a comma and a space between
/// two of them.
pub open spec fn arguments_text(args: Seq<TermView>) -> Seq<char>
    decreases args, 0nat,
{
    if args.len() == 0 {
        Seq::empty()
    } else if args.len() == 1 {
        term_text(args[0])
    } else {
        arguments_text(args.drop_last()) + seq![',', ' '] + term_text(args.last())
    }
}

/// Whether the string holds the given name.
fn is_name(s: &String, name: &str) -> (r: bool)
    ensures
        r == (s@ == name@),
{
    let n = String::from_str(name);
    *s == n
}

/// Whether the variable with the identity `id` is among `terms`.
fn holds(terms: &Vec<Term>, id: isize) -> (r: bool)
    ensures
        r == has_id(views(terms@), id as int),
{
    let mut i: usize = 0;
    while i < terms.len()
        invariant
            i <= terms.len(),
            forall|j: int|
                0 <= j < i ==> !((#[trigger] views(terms@)[j]) is Var && views(terms@)[j]->Var_0
                    == id),
        decreases terms.len() - i,
    {
        match &terms[i] {
            Term::Variable(v) => {
                if v.0 == id {
                    assert(views(terms@)[i as int] is Var && views(terms@)[i as int]->Var_0 == id);
                    return true;
                }
            },
            _ => {},
        }
        assert(views(terms@)[i as int] == terms@[i as int]@);
        i += 1;
    }
    false
}

/// What `plain_all` gives, term by term.
pub proof fn lemma_plain_all_index(terms: Seq<TermView>)
    ensures
        plain_all(terms).len() == terms.len(),
        forall|i: int| 0 <= i < terms.len() ==> #[trigger] plain_all(terms)[i] == plain(terms[i]),
    decreases terms.len(),
{
    if terms.len() > 0 {
        lemma_plain_all_index(terms.drop_last());
        assert forall|i: int| 0 <= i < terms.len() implies #[trigger] plain_all(terms)[i]
            == plain(terms[i]) by {
            if i < terms.len() - 1 {
                assert(terms[i] == terms.drop_last()[i]);
            }
        }
    }
}

impl Term {
    /// The integer `i` as a term.
    pub fn integer(i: isize) -> (t: Term)
        ensures
            t@ == TermView::Int(i as int),
    {
        Term::Int(i)
    }

    /// The atom named `s`.
    pub fn atom(s: &str) -> (t: Term)
        ensures
            t@ == TermView::Atom(s@),
    {
        Term::Atom(String::from_str(s))
    }

    /// The compound of `functor` with one argument.
    pub fn compound1(functor: &str, argument: Term) -> (t: Term)
        ensures
            t@ == TermView::Compound(functor@, seq![argument@]),
    {
        let mut arguments: Vec<Term> = Vec::new();
        arguments.push(argument);
        let t = Term::CompoundTerm(String::from_str(functor), arguments);
        proof {
            lemma_compound_view(t);
            assert(views(arguments@) =~= seq![argument@]);
        }
        t
    }

    /// The compound of `functor` with the given arguments.
    pub fn compound(functor: &str, arguments: Vec<Term>) -> (t: Term)
        ensures
            t@ == TermView::Compound(functor@, views(arguments@)),
    {
        let t = Term::CompoundTerm(String::from_str(functor), arguments);
        proof {
            lemma_compound_view(t);
        }
        t
    }

    /// A new variable named `name`, with the next identity of `bindings`.
    pub fn var(name: &str, bindings: &mut Bindings) -> (t: Term)
        requires
            old(bindings).counter() < isize::MAX,
        ensures
            t@ == TermView::Var(old(bindings).counter() + 1, Some(name@)),
            final(bindings).counter() == old(bindings).counter() + 1,
            final(bindings).entries() == old(bindings).entries(),
            final(bindings).marks() == old(bindings).marks(),
    {
        Term::Variable(Variable::new_named(bindings, name))
    }

    /// A new variable without a name, with the next identity of `bindings`.
    pub fn var_unnamed(bindings: &mut Bindings) -> (t: Term)
        requires
            old(bindings).counter() < isize::MAX,
        ensures
            t@ == TermView::Var(old(bindings).counter() + 1, None),
            final(bindings).counter() == old(bindings).counter() + 1,
            final(bindings).entries() == old(bindings).entries(),
            final(bindings).marks() == old(bindings).marks(),
    {
        Term::Variable(Variable::new(bindings))
    }

    /// The variable with identity `i`, named `name`.
    pub fn var_full(name: &str, i: isize) -> (t: Term)
        ensures
            t@ == TermView::Var(i as int, Some(name@)),
    {
        Term::Variable(Variable(i, Some(String::from_str(name))))
    }

    /// The empty list.
    pub fn empty_list() -> (t: Term)
        ensures
            t@ == TermView::Atom(EMPTY_LIST_COMPOUND@),
    {
        Term::atom(EMPTY_LIST_COMPOUND)
    }

    /// The list cell with the given head and tail.
    pub fn list(head: Term, tail: Term) -> (t: Term)
        ensures
            t@ == TermView::Compound(LIST_COMPOUND@, seq![head@, tail@]),
    {
        let mut arguments: Vec<Term> = Vec::new();
        arguments.push(head);
        arguments.push(tail);
        let t = Term::CompoundTerm(String::from_str(LIST_COMPOUND), arguments);
        proof {
            lemma_compound_view(t);
            assert(views(arguments@) =~= seq![head@, tail@]);
        }
        t
    }

    /// The list of the given items, ending in the empty list.
    pub fn make_list(list: Vec<Term>) -> (t: Term)
        ensures
            t@ == list_view(views(list@), TermView::Atom(EMPTY_LIST_COMPOUND@)),
    {
        Term::make_list_onto(list, Term::empty_list())
    }

    /// The list of the given items in front of `tail`.
    pub fn make_list_onto(list: Vec<Term>, tail: Term) -> (t: Term)
        ensures
            t@ == list_view(views(list@), tail@),
    {
        let mut list = list;
        let mut result = tail;
        let ghost all = views(list@);
        assert(all.take(all.len() as int) =~= all);
        while list.len() > 0
            invariant
                list@.len() <= all.len(),
                views(list@) == all.take(list@.len() as int),
                list_view(all, tail@) == list_view(all.take(list@.len() as int), result@),
            decreases list.len(),
        {
            let ghost before = views(list@);
            let ghost rest = result@;
            let item = list.pop().unwrap();
            result = Term::list(item, result);
            proof {
                let n = list@.len() as int;
                assert(views(list@) =~= all.take(n));
                assert(item@ == before[n]);
                lemma_list_view_last(before, rest);
                assert(before.drop_last() =~= all.take(n));
            }
        }
        assert(all.take(0) =~= Seq::<TermView>::empty());
        result
    }

    /// Whether a variable occurs in the term.
    #[verifier::loop_isolation(false)]
    pub fn contains_variables(&self) -> (r: bool)
        ensures
            r == has_vars(self@),
        decreases self,
    {
        match self {
            Term::Atom(_) => false,
            Term::Int(_) => false,
            Term::Variable(_) => true,
            Term::CompoundTerm(_, args) => {
                let mut i: usize = 0;
                while i < args.len()
                    invariant
                        i <= args.len(),
                        forall|j: int| 0 <= j < i ==> !has_vars(args@[j]@),
                    decreases args.len() - i,
                {
                    if args[i].contains_variables() {
                        proof {
                            lemma_compound_view(*self);
                            assert(views(args@)[i as int] == args@[i as int]@);
                            assert(has_vars(views(args@)[i as int]));
                            assert(self@->Compound_1 == views(args@));
                        }
                        return true;
                    }
                    i += 1;
                }
                proof {
                    lemma_compound_view(*self);
                    assert forall|j: int| 0 <= j < args.len() implies !has_vars(
                        #[trigger] views(args@)[j],
                    ) by {}
                }
                false
            },
        }
    }

    /// Whether the two are the same term: the same shape, names of atoms
    /// and functors, numbers, and variables of the same identities. The
    /// display name of a variable does not count.
    #[verifier::loop_isolation(false)]
    pub fn same(&self, other: &Term) -> (r: bool)
        ensures
            r == alike(self@, other@),
        decreases self,
    {
        match (self, other) {
            (Term::Atom(a), Term::Atom(b)) => *a == *b,
            (Term::Int(a), Term::Int(b)) => *a == *b,
            (Term::Variable(a), Term::Variable(b)) => a.same(b),
            (Term::CompoundTerm(f, args), Term::CompoundTerm(g, others)) => {
                proof {
                    lemma_compound_view(*self);
                    lemma_compound_view(*other);
                    lemma_plain_all_index(views(args@));
                    lemma_plain_all_index(views(others@));
                }
                if !(*f == *g) || args.len() != others.len() {
                    assert(views(args@).len() == args@.len());
                    assert(views(others@).len() == others@.len());
                    return false;
                }
                let mut i: usize = 0;
                while i < args.len()
                    invariant
                        i <= args.len(),
                        args.len() == others.len(),
                        forall|j: int| 0 <= j < i ==> alike(args@[j]@, others@[j]@),
                    decreases args.len() - i,
                {
                    if !args[i].same(&others[i]) {
                        assert(views(args@)[i as int] == args@[i as int]@);
                        assert(views(others@)[i as int] == others@[i as int]@);
                        assert(plain_all(views(args@))[i as int] != plain_all(views(others@))[i as int]);
                        return false;
                    }
                    i += 1;
                }
                assert forall|j: int| 0 <= j < args.len() implies plain_all(views(args@))[j]
                    == plain_all(views(others@))[j] by {
                    assert(views(args@)[j] == args@[j]@);
                    assert(views(others@)[j] == others@[j]@);
                }
                assert(plain_all(views(args@)) =~= plain_all(views(others@)));
                true
            },
            _ => false,
        }
    }

    /// The distinct variables of the given terms, each once, in the order in
    /// which they first occur. Two variables are the same where their
    /// identities are: of a variable that stands there under two names, the
    /// first occurrence is kept.
    pub fn find_distinct_variables(terms: &Vec<Term>) -> (found: Vec<Term>)
        ensures
            views(found@) == collect_vars_all(views(terms@), Seq::empty()),
            ids_distinct(views(found@)),
            forall|i: int|
                0 <= i < found@.len() ==> occurs_in(#[trigger] views(found@)[i], views(terms@)),
            forall|x: TermView| #[trigger]
                occurs_in(x, views(terms@)) ==> has_id(views(found@), x->Var_0),
    {
        let mut found: Vec<Term> = Vec::new();
        let mut i: usize = 0;
        assert(views(terms@).take(0) =~= Seq::<TermView>::empty());
        assert(views(found@) =~= Seq::<TermView>::empty());
        while i < terms.len()
            invariant
                i <= terms.len(),
                views(found@) == collect_vars_all(views(terms@).take(i as int), Seq::empty()),
            decreases terms.len() - i,
        {
            proof {
                let next = views(terms@).take(i + 1);
                assert(next.drop_last() =~= views(terms@).take(i as int));
                assert(next.last() == terms@[i as int]@);
            }
            Term::find_variables_set(&terms[i], &mut found);
            i += 1;
        }
        assert(views(terms@).take(i as int) =~= views(terms@));
        proof {
            lemma_distinct_variables(views(terms@));
        }
        found
    }

    /// Adds the variables of `term` that `set` does not hold yet.
    #[verifier::loop_isolation(false)]
    pub fn find_variables_set(term: &Term, set: &mut Vec<Term>)
        ensures
            views(final(set)@) == collect_vars(term@, views(old(set)@)),
        decreases term,
    {
        match term {
            Term::Atom(_) => {},
            Term::Int(_) => {},
            Term::Variable(v) => {
                if !holds(set, v.0) {
                    set.push(term.clone());
                    assert(views(set@) =~= views(old(set)@).push(term@));
                }
            },
            Term::CompoundTerm(_, args) => {
                let mut i: usize = 0;
                proof {
                    lemma_compound_view(*term);
                    assert(views(args@).take(0) =~= Seq::<TermView>::empty());
                }
                while i < args.len()
                    invariant
                        i <= args.len(),
                        views(set@) == collect_vars_all(
                            views(args@).take(i as int),
                            views(old(set)@),
                        ),
                    decreases args.len() - i,
                {
                    proof {
                        let next = views(args@).take(i + 1);
                        assert(next.drop_last() =~= views(args@).take(i as int));
                        assert(next.last() == args@[i as int]@);
                    }
                    Term::find_variables_set(&args[i], set);
                    i += 1;
                }
                assert(views(args@).take(i as int) =~= views(args@));
            },
        }
    }

    /// The printed form of the term.
    pub fn to_string(&self) -> (s: String)
        ensures
            s@ == term_text(self@),
    {
        let mut s = String::new();
        self.write(&mut s);
        assert(s@ =~= term_text(self@));
        s
    }

    /// Whether the term is a list cell.
    fn cell(&self) -> (r: bool)
        ensures
            r == is_cell(self@),
    {
        match self {
            Term::CompoundTerm(f, args) => {
                proof {
                    lemma_compound_view(*self);
                }
                is_name(f, LIST_COMPOUND) && args.len() >= 2
            },
            _ => false,
        }
    }

    /// Whether the term is the empty list.
    fn is_empty_list(&self) -> (r: bool)
        ensures
            r == (self@ == TermView::Atom(EMPTY_LIST_COMPOUND@)),
    {
        match self {
            Term::Atom(s) => is_name(s, EMPTY_LIST_COMPOUND),
            _ => false,
        }
    }

    /// Appends the printed form of the term to `out`.
    #[verifier::loop_isolation(false)]
    pub fn write(&self, out: &mut String)
        ensures
            final(out)@ == old(out)@ + term_text(self@),
        decreases self, 1nat,
    {
        match self {
            Term::Atom(s) => {
                if is_name(s, EMPTY_LIST_COMPOUND) {
                    push_char(out, '[');
                    push_char(out, ']');
                    assert(out@ =~= old(out)@ + seq!['[', ']']);
                } else {
                    out.append(s.as_str());
                }
            },
            Term::Int(i) => {
                push_decimal(out, *i);
            },
            Term::Variable(v) => {
                let name = v.to_string();
                out.append(name.as_str());
            },
            Term::CompoundTerm(f, args) => {
                proof {
                    lemma_compound_view(*self);
                }
                if self.cell() {
                    push_char(out, '[');
                    self.write_cell(out);
                    push_char(out, ']');
                    assert(out@ =~= old(out)@ + (seq!['['] + cell_text(self@) + seq![']']));
                } else {
                    out.append(f.as_str());
                    push_char(out, '(');
                    let ghost start = out@;
                    let mut i: usize = 0;
                    assert(views(args@).take(0) =~= Seq::<TermView>::empty());
                    assert(out@ =~= start + Seq::<char>::empty());
                    while i < args.len()
                        invariant
                            i <= args.len(),
                            out@ == start + arguments_text(views(args@).take(i as int)),
                        decreases args.len() - i,
                    {
                        let ghost before = out@;
                        proof {
                            let next = views(args@).take(i + 1);
                            assert(next.drop_last() =~= views(args@).take(i as int));
                            assert(next.last() == args@[i as int]@);
                        }
                        if i > 0 {
                            push_char(out, ',');
                            push_char(out, ' ');
                        }
                        args[i].write(out);
                        proof {
                            let next = views(args@).take(i + 1);
                            if i > 0 {
                                assert(out@ =~= start + (arguments_text(next.drop_last()) + seq![
                                    ',',
                                    ' ',
                                ] + term_text(next.last())));
                            } else {
                                assert(next[0] == next.last());
                                assert(out@ =~= start + term_text(next[0]));
                            }
                        }
                        i += 1;
                    }
                    assert(views(args@).take(i as int) =~= views(args@));
                    push_char(out, ')');
                    assert(out@ =~= old(out)@ + (f@ + seq!['('] + arguments_text(views(args@))
                        + seq![')']));
                }
            },
        }
    }

    /// Appends to `out` what stands between the brackets of the list that
    /// the term is.
    fn write_cell(&self, out: &mut String)
        requires
            is_cell(self@),
        ensures
            final(out)@ == old(out)@ + cell_text(self@),
        decreases self, 0nat,
    {
        match self {
            Term::CompoundTerm(_, args) => {
                proof {
                    lemma_compound_view(*self);
                    assert(views(args@)[0] == args@[0]@);
                    assert(views(args@)[1] == args@[1]@);
                }
                args[0].write(out);
                let tail = &args[1];
                if tail.is_empty_list() {
                    assert(out@ =~= old(out)@ + (term_text(args@[0]@) + Seq::<char>::empty()));
                } else if tail.cell() {
                    push_char(out, ',');
                    tail.write_cell(out);
                    assert(out@ =~= old(out)@ + (term_text(args@[0]@) + (seq![','] + cell_text(
                        tail@,
                    ))));
                } else {
                    push_char(out, '|');
                    tail.write(out);
                    assert(out@ =~= old(out)@ + (term_text(args@[0]@) + (seq!['|'] + term_text(
                        tail@,
                    ))));
                }
            },
            _ => {},
        }
    }
}

/// Whether the variable `x` stands somewhere in the term.
pub open spec fn occurs(x: TermView, t: TermView) -> bool
    decreases t,
{
    match t {
        TermView::Var(_, _) => x == t,
        TermView::Compound(_, args) => exists|i: int|
            0 <= i < args.len() && occurs(x, #[trigger] args[i]),
        _ => false,
    }
}

/// Whether `x` stands somewhere in one of the terms.
pub open spec fn occurs_in(x: TermView, terms: Seq<TermView>) -> bool {
    exists|i: int| 0 <= i < terms.len() && occurs(x, #[trigger] terms[i])
}

/// Whether no two of the terms are variables of the same identity.
pub open spec fn ids_distinct(terms: Seq<TermView>) -> bool {
    forall|i: int, j: int|
        0 <= i < j < terms.len() ==> !((#[trigger] terms[i]) is Var && (#[trigger] terms[j]) is Var
            && terms[i]->Var_0 == terms[j]->Var_0)
}

/// Collecting the variables of a term keeps what was collected before, in
/// its place, and adds only variables that stand in the term; afterwards
/// every variable that stands in the term is held, and none twice.
pub proof fn lemma_collect_vars(t: TermView, acc: Seq<TermView>)
    requires
        ids_distinct(acc),
    ensures
        ids_distinct(collect_vars(t, acc)),
        acc.len() <= collect_vars(t, acc).len(),
        collect_vars(t, acc).take(acc.len() as int) == acc,
        forall|i: int|
            acc.len() <= i < collect_vars(t, acc).len() ==> occurs(
                #[trigger] collect_vars(t, acc)[i],
                t,
            ),
        forall|x: TermView| #[trigger] occurs(x, t) ==> has_id(collect_vars(t, acc), x->Var_0),
    decreases t,
{
    match t {
        TermView::Var(id, _) => {
            if !has_id(acc, id) {
                let more = acc.push(t);
                assert(more.take(acc.len() as int) =~= acc);
                assert(more[acc.len() as int] is Var && more[acc.len() as int]->Var_0 == id);
                assert forall|i: int, j: int| 0 <= i < j < more.len() implies !((
                #[trigger] more[i]) is Var && (#[trigger] more[j]) is Var && more[i]->Var_0
                    == more[j]->Var_0) by {
                    if j == acc.len() {
                        assert(more[i] == acc[i]);
                    }
                }
            } else {
                assert(acc.take(acc.len() as int) =~= acc);
            }
        },
        TermView::Compound(_, args) => {
            lemma_collect_vars_all(args, acc);
            let all = collect_vars_all(args, acc);
            assert forall|i: int| acc.len() <= i < all.len() implies occurs(
                #[trigger] all[i],
                t,
            ) by {
                let j = choose|j: int| 0 <= j < args.len() && occurs(all[i], #[trigger] args[j]);
            }
            assert forall|x: TermView| #[trigger] occurs(x, t) implies has_id(all, x->Var_0) by {
                let j = choose|j: int| 0 <= j < args.len() && occurs(x, #[trigger] args[j]);
                assert(occurs_in(x, args));
            }
        },
        _ => {
            assert(acc.take(acc.len() as int) =~= acc);
        },
    }
}

/// A variable that is held is still held when more are collected.
pub proof fn lemma_has_id_stays(front: Seq<TermView>, all: Seq<TermView>, id: int)
    requires
        front.len() <= all.len(),
        all.take(front.len() as int) == front,
        has_id(front, id),
    ensures
        has_id(all, id),
{
    let i = choose|i: int|
        0 <= i < front.len() && (#[trigger] front[i]) is Var && front[i]->Var_0 == id;
    assert(all.take(front.len() as int)[i] == all[i]);
    assert(all[i] is Var && all[i]->Var_0 == id);
}

/// As `lemma_collect_vars`, for a sequence of terms.
pub proof fn lemma_collect_vars_all(terms: Seq<TermView>, acc: Seq<TermView>)
    requires
        ids_distinct(acc),
    ensures
        ids_distinct(collect_vars_all(terms, acc)),
        acc.len() <= collect_vars_all(terms, acc).len(),
        collect_vars_all(terms, acc).take(acc.len() as int) == acc,
        forall|i: int|
            acc.len() <= i < collect_vars_all(terms, acc).len() ==> occurs_in(
                #[trigger] collect_vars_all(terms, acc)[i],
                terms,
            ),
        forall|x: TermView| #[trigger]
            occurs_in(x, terms) ==> has_id(collect_vars_all(terms, acc), x->Var_0),
    decreases terms,
{
    if terms.len() > 0 {
        let front = collect_vars_all(terms.drop_last(), acc);
        lemma_collect_vars_all(terms.drop_last(), acc);
        lemma_collect_vars(terms.last(), front);
        let all = collect_vars_all(terms, acc);
        assert(all.take(acc.len() as int) =~= front.take(acc.len() as int)) by {
            assert(all.take(front.len() as int) == front);
            assert forall|k: int| 0 <= k < acc.len() implies all[k] == front[k] by {
                assert(all.take(front.len() as int)[k] == all[k]);
            }
        }
        assert forall|i: int| acc.len() <= i < all.len() implies occurs_in(
            #[trigger] all[i],
            terms,
        ) by {
            if i < front.len() {
                assert(all.take(front.len() as int)[i] == all[i]);
                assert(occurs_in(front[i], terms.drop_last()));
                let j = choose|j: int|
                    0 <= j < terms.drop_last().len() && occurs(
                        front[i],
                        #[trigger] terms.drop_last()[j],
                    );
                assert(occurs(all[i], terms[j]));
            } else {
                assert(occurs(all[i], terms[terms.len() - 1]));
            }
        }
        assert forall|x: TermView| #[trigger] occurs_in(x, terms) implies has_id(
            all,
            x->Var_0,
        ) by {
            let j = choose|j: int| 0 <= j < terms.len() && occurs(x, #[trigger] terms[j]);
            if j < terms.len() - 1 {
                assert(occurs(x, terms.drop_last()[j]));
                assert(occurs_in(x, terms.drop_last()));
                lemma_has_id_stays(front, all, x->Var_0);
            }
        }
    } else {
        assert(acc.take(acc.len() as int) =~= acc);
    }
}

/// The distinct variables of a query are its variables, each identity
/// once: every one of them stands in the query, every variable of the
/// query is among them under its identity, and no two of them have the
/// same identity.
pub proof fn lemma_distinct_variables(terms: Seq<TermView>)
    ensures
        ids_distinct(collect_vars_all(terms, Seq::empty())),
        forall|i: int|
            0 <= i < collect_vars_all(terms, Seq::empty()).len() ==> occurs_in(
                #[trigger] collect_vars_all(terms, Seq::empty())[i],
                terms,
            ),
        forall|x: TermView| #[trigger]
            occurs_in(x, terms) ==> has_id(collect_vars_all(terms, Seq::empty()), x->Var_0),
{
    lemma_collect_vars_all(terms, Seq::empty());
}

/// A list with a last item is the list of the items before it, in front of
/// the cell of that item.
pub proof fn lemma_list_view_last(items: Seq<TermView>, tail: TermView)
    requires
        items.len() > 0,
    ensures
        list_view(items, tail) == list_view(
            items.drop_last(),
            TermView::Compound(LIST_COMPOUND@, seq![items.last(), tail]),
        ),
    decreases items.len(),
{
    if items.len() == 1 {
        assert(items.skip(1) =~= Seq::<TermView>::empty());
        assert(items.drop_last() =~= Seq::<TermView>::empty());
        assert(list_view(items.skip(1), tail) == tail);
    } else {
        lemma_list_view_last(items.skip(1), tail);
        assert(items.skip(1).drop_last() =~= items.drop_last().skip(1));
        assert(items.drop_last()[0] == items[0]);
        assert(items.skip(1).last() == items.last());
    }
}

} // verus!
