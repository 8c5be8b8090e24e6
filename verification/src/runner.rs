//! A program and its queries, from source text.

use vstd::prelude::*;
use crate::bindings::{Binding, Bindings};
use crate::clause::ClauseView;
use crate::database::Database;
use crate::parse_clauses::{clauses_of, clauses_parser, query_of, query_parser};
use crate::parse_term::{ParseError, Parsed};
use crate::run::{Solver, run, start};
use crate::static_context::StaticContext;
use crate::term::TermView;

verus! {

/// A program that was read, and the bindings that its variables came from.
#[derive(Debug)]
pub struct Runner {
    bindings: Bindings,
    database: Database,
}

impl Runner {
    /// The clauses of the program, in their order.
    pub closed spec fn program(&self) -> Seq<ClauseView> {
        self.database@
    }

    /// The identity that was handed out last when the program was read.
    pub closed spec fn counter(&self) -> int {
        self.bindings.counter()
    }

    /// The bindings that every query starts under.
    pub closed spec fn entries(&self) -> Seq<Binding> {
        self.bindings.entries()
    }

    /// The marks of the frames that every query starts under.
    pub closed spec fn marks(&self) -> Seq<nat> {
        self.bindings.marks()
    }

    /// Reads a program. The variables of all its clauses share one space
    /// of names, and their identities count from 1. A text that is no
    /// program gives the error that says why.
    pub fn new(src: &str) -> (r: Result<Runner, ParseError>)
        ensures
            match r {
                Ok(runner) => clauses_of(src@, Seq::empty(), 0) is Ok && runner.program()
                    == clauses_of(src@, Seq::empty(), 0)->Ok_0.value && runner.counter()
                    == clauses_of(src@, Seq::empty(), 0)->Ok_0.counter && runner.entries()
                    == Seq::<Binding>::empty() && runner.marks() == Seq::<nat>::empty(),
                Err(e) => clauses_of(src@, Seq::empty(), 0) == Err::<
                    Parsed<Seq<ClauseView>>,
                    ParseError,
                >(e),
            },
    {
        let mut static_context = StaticContext::new(Bindings::new());
        match clauses_parser(src, &mut static_context) {
            Ok(clauses) => Ok(
                Runner { bindings: static_context.into_bindings(), database: Database::new(clauses) },
            ),
            Err(e) => Err(e),
        }
    }

    /// The database of the program.
    pub fn database(&self) -> (database: &Database)
        ensures
            database@ == self.program(),
    {
        &self.database
    }

    /// Reads a query and starts the search for its answers. The variables
    /// of the query get names of their own, and identities that follow
    /// those that were handed out before; the counter stays where the
    /// query left it, so that a later query gets identities of its own. A
    /// text that is no query gives the error that says why, and changes
    /// nothing.
    pub fn query<'a>(&'a mut self, query_src: &str) -> (r: Result<Solver<'a>, ParseError>)
        ensures
            final(self).program() == old(self).program(),
            final(self).entries() == old(self).entries(),
            final(self).marks() == old(self).marks(),
            match r {
                Ok(solver) => query_of(query_src@, Seq::empty(), old(self).counter()) is Ok
                    && final(self).counter() == query_of(
                    query_src@,
                    Seq::empty(),
                    old(self).counter(),
                )->Ok_0.counter && solver@ == start(
                    old(self).program(),
                    query_of(query_src@, Seq::empty(), old(self).counter())->Ok_0.value,
                    old(self).entries(),
                    old(self).marks(),
                    final(self).counter(),
                ),
                Err(e) => query_of(query_src@, Seq::empty(), old(self).counter()) == Err::<
                    Parsed<Seq<TermView>>,
                    ParseError,
                >(e) && final(self).counter() == old(self).counter(),
            },
    {
        let mut static_context = StaticContext::new(self.bindings.duplicate());
        match query_parser(query_src, &mut static_context) {
            Ok(query) => {
                self.bindings = static_context.into_bindings();
                let bindings = self.bindings.duplicate();
                Ok(run(query, &self.database, bindings))
            },
            Err(e) => Err(e),
        }
    }
}

} // verus!
