//! Logic variables: an integer identity and an optional display name.

use vstd::prelude::*;
use vstd::string::StringExecFns;
use crate::bindings::Bindings;
use crate::text::{decimal, push_decimal};

verus! {

/// A logic variable. The first field is its identity, the second the name it
/// is shown under, if it has one.
#[derive(Debug, Clone, PartialEq, Eq, Hash)]
pub struct Variable(pub isize, pub Option<String>);

/// The name a variable is shown under, as characters.
pub open spec fn name_view(name: Option<String>) -> Option<Seq<char>> {
    match name {
        Some(s) => Some(s@),
        None => None,
    }
}

/// What a variable is printed as: its display name, or `X` and its number.
pub open spec fn variable_text(id: int, name: Option<Seq<char>>) -> Seq<char> {
    match name {
        Some(s) => s,
        None => seq!['X'] + decimal(id),
    }
}

impl Variable {
    /// The variable's identity.
    pub open spec fn id(&self) -> int {
        self.0 as int
    }

    /// The variable's display name.
    pub open spec fn name(&self) -> Option<Seq<char>> {
        name_view(self.1)
    }

    /// A new variable named `name`, with the next identity of `bindings`.
    pub fn new_named(bindings: &mut Bindings, name: &str) -> (v: Variable)
        requires
            old(bindings).counter() < isize::MAX,
        ensures
            v.id() == old(bindings).counter() + 1,
            v.name() == Some(name@),
            final(bindings).counter() == old(bindings).counter() + 1,
            final(bindings).entries() == old(bindings).entries(),
            final(bindings).marks() == old(bindings).marks(),
    {
        Variable(bindings.next(), Some(String::from_str(name)))
    }

    /// A new variable without a name, with the next identity of `bindings`.
    pub fn new(bindings: &mut Bindings) -> (v: Variable)
        requires
            old(bindings).counter() < isize::MAX,
        ensures
            v.id() == old(bindings).counter() + 1,
            v.name() == None::<Seq<char>>,
            final(bindings).counter() == old(bindings).counter() + 1,
            final(bindings).entries() == old(bindings).entries(),
            final(bindings).marks() == old(bindings).marks(),
    {
        Variable(bindings.next(), None)
    }

    /// Whether the two are the same variable: whether they have the same
    /// identity. The display name does not count.
    pub fn same(&self, other: &Variable) -> (r: bool)
        ensures
            r == (self.id() == other.id()),
    {
        self.0 == other.0
    }

    /// A copy of the variable.
    pub fn duplicate(&self) -> (v: Variable)
        ensures
            v.id() == self.id(),
            v.name() == self.name(),
    {
        match &self.1 {
            Some(s) => Variable(self.0, Some(s.clone())),
            None => Variable(self.0, None),
        }
    }

    /// The printed form of the variable.
    pub fn to_string(&self) -> (s: String)
        ensures
            s@ == variable_text(self.id(), self.name()),
    {
        match &self.1 {
            Some(name) => name.clone(),
            None => {
                let mut s = String::from_str("X");
                proof {
                    reveal_strlit("X");
                    assert(s@ =~= seq!['X']);
                }
                push_decimal(&mut s, self.0);
                s
            }
        }
    }
}

} // verus!
