//! The names of the variables of one source text.

use vstd::prelude::*;
use vstd::string::StringExecFns;
use crate::bindings::{Binding, Bindings};
use crate::term::{Term, TermView};

verus! {

/// The variables that have a name so far: name and variable, in the order
/// in which the names first came up.
pub type Names = Seq<(Seq<char>, TermView)>;

/// The variable that `name` stands for, if it has come up.
pub open spec fn known(names: Names, name: Seq<char>) -> Option<TermView>
    decreases names.len(),
{
    if names.len() == 0 {
        None
    } else if names.last().0 == name {
        Some(names.last().1)
    } else {
        known(names.drop_last(), name)
    }
}

/// The names of one source text, with the bindings whose counter gives new
/// variables their identity.
#[derive(Debug)]
pub struct StaticContext {
    bindings: Bindings,
    variables: Vec<(String, Term)>,
}

impl StaticContext {
    /// The names that have come up, each with its variable.
    pub closed spec fn names(&self) -> Names {
        Seq::new(self.variables@.len(), |i: int| (self.variables@[i].0@, self.variables@[i].1@))
    }

    /// The bindings made so far.
    pub closed spec fn entries(&self) -> Seq<Binding> {
        self.bindings.entries()
    }

    /// The marks of the frames of the bindings.
    pub closed spec fn marks(&self) -> Seq<nat> {
        self.bindings.marks()
    }

    /// The identity that was handed out last.
    pub closed spec fn counter(&self) -> int {
        self.bindings.counter()
    }

    /// The counter is a machine integer.
    pub proof fn lemma_counter_bounded(&self)
        ensures
            isize::MIN <= self.counter() <= isize::MAX,
    {
        self.bindings.lemma_counter_bounded();
    }

    /// The bindings of the context.
    pub fn into_bindings(self) -> (bindings: Bindings)
        ensures
            bindings.entries() == self.entries(),
            bindings.marks() == self.marks(),
            bindings.counter() == self.counter(),
    {
        self.bindings
    }

    /// A context without names, over the given bindings.
    pub fn new(bindings: Bindings) -> (context: StaticContext)
        ensures
            context.names() == Seq::<(Seq<char>, TermView)>::empty(),
            context.entries() == bindings.entries(),
            context.marks() == bindings.marks(),
            context.counter() == bindings.counter(),
    {
        let context = StaticContext { bindings, variables: Vec::new() };
        assert(context.names() =~= Seq::<(Seq<char>, TermView)>::empty());
        context
    }

    /// A context without names, over new bindings.
    pub fn new_all() -> (context: StaticContext)
        ensures
            context.names() == Seq::<(Seq<char>, TermView)>::empty(),
            context.entries() == Seq::<Binding>::empty(),
            context.marks() == Seq::<nat>::empty(),
            context.counter() == 0,
    {
        StaticContext::new(Bindings::new())
    }

    /// The place of `name` among the variables.
    fn find(&self, name: &str) -> (r: Option<usize>)
        ensures
            match r {
                Some(i) => i < self.variables@.len() && known(self.names(), name@) == Some(
                    self.variables@[i as int].1@,
                ),
                None => known(self.names(), name@) is None,
            },
    {
        let wanted = String::from_str(name);
        let mut i: usize = self.variables.len();
        assert(self.names().take(i as int) =~= self.names());
        while i > 0
            invariant
                i <= self.variables.len(),
                wanted@ == name@,
                known(self.names(), name@) == known(self.names().take(i as int), name@),
            decreases i,
        {
            i -= 1;
            proof {
                let front = self.names().take(i + 1);
                assert(front.last() == self.names()[i as int]);
                assert(front.drop_last() =~= self.names().take(i as int));
            }
            if self.variables[i].0 == wanted {
                return Some(i);
            }
        }
        None
    }

    /// The variable that `name` stands for: the one it stood for before,
    /// or a new one where the name comes up for the first time. `None`
    /// where a new one is needed and the counter is at its end.
    pub fn var(&mut self, name: &str) -> (r: Option<Term>)
        ensures
            final(self).entries() == old(self).entries(),
            final(self).marks() == old(self).marks(),
            match known(old(self).names(), name@) {
                Some(t) => r is Some && r->0@ == t && final(self).names() == old(self).names()
                    && final(self).counter() == old(self).counter(),
                None => if old(self).counter() < isize::MAX {
                    &&& r is Some
                    &&& r->0@ == TermView::Var(old(self).counter() + 1, Some(name@))
                    &&& final(self).names() == old(self).names().push((name@, r->0@))
                    &&& final(self).counter() == old(self).counter() + 1
                } else {
                    &&& r is None
                    &&& final(self).names() == old(self).names()
                    &&& final(self).counter() == old(self).counter()
                },
            },
    {
        match self.find(name) {
            Some(i) => Some(self.variables[i].1.clone()),
            None => {
                if self.bindings.last_variable() == isize::MAX {
                    return None;
                }
                let term = Term::var(name, &mut self.bindings);
                self.variables.push((String::from_str(name), term.clone()));
                assert(self.names() =~= old(self).names().push((name@, term@)));
                Some(term)
            },
        }
    }
}

} // verus!
