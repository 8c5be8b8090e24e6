//! A stock of small terms over one binding environment, for trying the
//! library out.

use vstd::prelude::*;
use crate::bindings::{Binding, Bindings, instantiation};
use crate::clause::Clause;
use crate::database::{Database, clause_views};
use crate::term::{Term, TermView, alike};

verus! {

/// The atoms `a` and `b`, the integers 1 and 2, the variables `X`, `Y`,
/// `Z`, `U` and `V` with the identities 1 to 5, a few compounds of them,
/// and the bindings that the variables belong to.
#[derive(Debug)]
pub struct TermBuilder {
    bindings: Bindings,
    a: Term,
    b: Term,
    one: Term,
    two: Term,
    x: Term,
    y: Term,
    z: Term,
    u: Term,
    v: Term,
    fa: Term,
    fb: Term,
    faa: Term,
    fab: Term,
    fxy: Term,
    fxx: Term,
    fxa: Term,
    ga: Term,
}

/// The name of one character.
pub open spec fn letter(c: char) -> Seq<char> {
    seq![c]
}

/// The variable of the stock with the given identity and name.
pub open spec fn stock_var(id: int, c: char) -> TermView {
    TermView::Var(id, Some(letter(c)))
}

/// The compound of the stock with the given functor and arguments.
pub open spec fn stock(c: char, arguments: Seq<TermView>) -> TermView {
    TermView::Compound(letter(c), arguments)
}

impl TermBuilder {
    /// The bindings of the stock, as they stand.
    pub closed spec fn entries(&self) -> Seq<Binding> {
        self.bindings.entries()
    }

    /// The marks of the frames of the bindings.
    pub closed spec fn marks(&self) -> Seq<nat> {
        self.bindings.marks()
    }

    /// The identity that was handed out last.
    pub closed spec fn counter(&self) -> int {
        self.bindings.counter()
    }

    /// Whether the terms of the stock are what they are meant to be.
    pub closed spec fn stocked(&self) -> bool {
        &&& self.a@ == TermView::Atom(letter('a'))
        &&& self.b@ == TermView::Atom(letter('b'))
        &&& self.one@ == TermView::Int(1)
        &&& self.two@ == TermView::Int(2)
        &&& self.x@ == stock_var(1, 'X')
        &&& self.y@ == stock_var(2, 'Y')
        &&& self.z@ == stock_var(3, 'Z')
        &&& self.u@ == stock_var(4, 'U')
        &&& self.v@ == stock_var(5, 'V')
        &&& self.fa@ == stock('f', seq![self.a@])
        &&& self.fb@ == stock('f', seq![self.b@])
        &&& self.faa@ == stock('f', seq![self.a@, self.a@])
        &&& self.fab@ == stock('f', seq![self.a@, self.b@])
        &&& self.fxy@ == stock('f', seq![self.x@, self.y@])
        &&& self.fxx@ == stock('f', seq![self.x@, self.x@])
        &&& self.fxa@ == stock('f', seq![self.x@, self.a@])
        &&& self.ga@ == stock('g', seq![self.a@])
    }

    /// A new stock: no bindings, and the counter at 5.
    pub fn new() -> (t: TermBuilder)
        ensures
            t.stocked(),
            t.entries() == Seq::<Binding>::empty(),
            t.marks() == Seq::<nat>::empty(),
            t.counter() == 5,
    {
        let mut bindings = Bindings::new();
        proof {
            reveal_strlit("a");
            reveal_strlit("b");
            reveal_strlit("f");
            reveal_strlit("g");
            reveal_strlit("X");
            reveal_strlit("Y");
            reveal_strlit("Z");
            reveal_strlit("U");
            reveal_strlit("V");
            assert("a"@ =~= letter('a'));
            assert("b"@ =~= letter('b'));
            assert("f"@ =~= letter('f'));
            assert("g"@ =~= letter('g'));
            assert("X"@ =~= letter('X'));
            assert("Y"@ =~= letter('Y'));
            assert("Z"@ =~= letter('Z'));
            assert("U"@ =~= letter('U'));
            assert("V"@ =~= letter('V'));
        }
        let a = Term::atom("a");
        let b = Term::atom("b");
        let one = Term::integer(1);
        let two = Term::integer(2);
        let x = Term::var("X", &mut bindings);
        let y = Term::var("Y", &mut bindings);
        let z = Term::var("Z", &mut bindings);
        let u = Term::var("U", &mut bindings);
        let v = Term::var("V", &mut bindings);
        let fa = Term::compound1("f", a.clone());
        let fb = Term::compound1("f", b.clone());
        let faa = pair("f", a.clone(), a.clone());
        let fab = pair("f", a.clone(), b.clone());
        let fxy = pair("f", x.clone(), y.clone());
        let fxx = pair("f", x.clone(), x.clone());
        let fxa = pair("f", x.clone(), a.clone());
        let ga = Term::compound1("g", a.clone());
        TermBuilder { bindings, a, b, one, two, x, y, z, u, v, fa, fb, faa, fab, fxy, fxx, fxa, ga }
    }

    /// A new variable named `name`, from the bindings of the stock.
    pub fn _var(&mut self, name: &str) -> (t: Term)
        requires
            old(self).counter() < isize::MAX,
        ensures
            t@ == TermView::Var(old(self).counter() + 1, Some(name@)),
            final(self).counter() == old(self).counter() + 1,
            final(self).entries() == old(self).entries(),
            final(self).marks() == old(self).marks(),
            final(self).stocked() == old(self).stocked(),
    {
        Term::var(name, &mut self.bindings)
    }

    /// The bindings of the stock, to read.
    pub fn bindings_ref(&self) -> (bindings: &Bindings)
        ensures
            bindings.entries() == self.entries(),
            bindings.marks() == self.marks(),
            bindings.counter() == self.counter(),
    {
        &self.bindings
    }

    /// The bindings of the stock, to change.
    pub fn bindings(&mut self) -> (bindings: &mut Bindings)
        ensures
            bindings.entries() == old(self).entries(),
            bindings.marks() == old(self).marks(),
            bindings.counter() == old(self).counter(),
            final(self).entries() == final(bindings).entries(),
            final(self).marks() == final(bindings).marks(),
            final(self).counter() == final(bindings).counter(),
            final(self).stocked() == old(self).stocked(),
    {
        &mut self.bindings
    }

    /// Whether the instantiation of `term` under the bindings of the stock
    /// is the term `bound_to`.
    pub fn bound_to(&self, term: &Term, bound_to: &Term) -> (r: bool)
        ensures
            r == (instantiation(self.entries(), term@) is Some && alike(
                instantiation(self.entries(), term@)->0,
                bound_to@,
            )),
    {
        match self.bindings.instantiate(term) {
            Some(t) => t.same(bound_to),
            None => false,
        }
    }

    /// The database of the given clauses.
    pub fn database(&self, clauses: Vec<Clause>) -> (db: Database)
        ensures
            db@ == clause_views(clauses@),
    {
        Database::new(clauses)
    }

    /// Whether the stock has no bindings.
    pub fn no_bindings(&self) -> (r: bool)
        ensures
            r == (self.entries().len() == 0),
    {
        self.bindings.len() == 0
    }

    /// The atom `a`.
    pub fn a(&self) -> (t: Term)
        requires
            self.stocked(),
        ensures
            t@ == TermView::Atom(letter('a')),
    {
        self.a.clone()
    }

    /// The atom `b`.
    pub fn b(&self) -> (t: Term)
        requires
            self.stocked(),
        ensures
            t@ == TermView::Atom(letter('b')),
    {
        self.b.clone()
    }

    /// The integer 1.
    pub fn one(&self) -> (t: Term)
        requires
            self.stocked(),
        ensures
            t@ == TermView::Int(1),
    {
        self.one.clone()
    }

    /// The integer 2.
    pub fn two(&self) -> (t: Term)
        requires
            self.stocked(),
        ensures
            t@ == TermView::Int(2),
    {
        self.two.clone()
    }

    /// The variable `X`.
    pub fn x(&self) -> (t: Term)
        requires
            self.stocked(),
        ensures
            t@ == stock_var(1, 'X'),
    {
        self.x.clone()
    }

    /// The variable `Y`.
    pub fn y(&self) -> (t: Term)
        requires
            self.stocked(),
        ensures
            t@ == stock_var(2, 'Y'),
    {
        self.y.clone()
    }

    /// The variable `Z`.
    pub fn z(&self) -> (t: Term)
        requires
            self.stocked(),
        ensures
            t@ == stock_var(3, 'Z'),
    {
        self.z.clone()
    }

    /// The variable `U`.
    pub fn u(&self) -> (t: Term)
        requires
            self.stocked(),
        ensures
            t@ == stock_var(4, 'U'),
    {
        self.u.clone()
    }

    /// The variable `V`.
    pub fn v(&self) -> (t: Term)
        requires
            self.stocked(),
        ensures
            t@ == stock_var(5, 'V'),
    {
        self.v.clone()
    }

    /// The compound `f(a)`.
    pub fn fa(&self) -> (t: Term)
        requires
            self.stocked(),
        ensures
            t@ == stock('f', seq![TermView::Atom(letter('a'))]),
    {
        self.fa.clone()
    }

    /// The compound `f(b)`.
    pub fn fb(&self) -> (t: Term)
        requires
            self.stocked(),
        ensures
            t@ == stock('f', seq![TermView::Atom(letter('b'))]),
    {
        self.fb.clone()
    }

    /// The compound `f(a, a)`.
    pub fn faa(&self) -> (t: Term)
        requires
            self.stocked(),
        ensures
            t@ == stock('f', seq![TermView::Atom(letter('a')), TermView::Atom(letter('a'))]),
    {
        self.faa.clone()
    }

    /// The compound `f(a, b)`.
    pub fn fab(&self) -> (t: Term)
        requires
            self.stocked(),
        ensures
            t@ == stock('f', seq![TermView::Atom(letter('a')), TermView::Atom(letter('b'))]),
    {
        self.fab.clone()
    }

    /// The compound `f(X, Y)`.
    pub fn fxy(&self) -> (t: Term)
        requires
            self.stocked(),
        ensures
            t@ == stock('f', seq![stock_var(1, 'X'), stock_var(2, 'Y')]),
    {
        self.fxy.clone()
    }

    /// The compound `f(X, X)`.
    pub fn fxx(&self) -> (t: Term)
        requires
            self.stocked(),
        ensures
            t@ == stock('f', seq![stock_var(1, 'X'), stock_var(1, 'X')]),
    {
        self.fxx.clone()
    }

    /// The compound `f(X, a)`.
    pub fn fxa(&self) -> (t: Term)
        requires
            self.stocked(),
        ensures
            t@ == stock('f', seq![stock_var(1, 'X'), TermView::Atom(letter('a'))]),
    {
        self.fxa.clone()
    }

    /// The compound `g(a)`.
    pub fn ga(&self) -> (t: Term)
        requires
            self.stocked(),
        ensures
            t@ == stock('g', seq![TermView::Atom(letter('a'))]),
    {
        self.ga.clone()
    }
}

/// The compound of `functor` with two arguments.
fn pair(functor: &str, first: Term, second: Term) -> (t: Term)
    ensures
        t@ == TermView::Compound(functor@, seq![first@, second@]),
{
    let mut arguments: Vec<Term> = Vec::new();
    arguments.push(first);
    arguments.push(second);
    let t = Term::compound(functor, arguments);
    assert(crate::term::views(arguments@) =~= seq![first@, second@]);
    t
}

} // verus!
