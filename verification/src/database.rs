//! The program: its clauses in the order in which they were given.

use vstd::prelude::*;
use crate::bindings::{Binding, Bindings};
use crate::clause::{Clause, ClauseView};
use crate::substitution::{
    Substitution,
    lemma_rename_all_counter,
    lemma_rename_clause_fresh,
    lemma_rename_counter,
    rename,
    rename_clause,
};
use crate::term::{TermView, ids_within};

verus! {

/// The views of a sequence of clauses, one for one.
pub open spec fn clause_views(clauses: Seq<Clause>) -> Seq<ClauseView> {
    Seq::new(clauses.len(), |i: int| clauses[i]@)
}

/// The clauses renamed one after the other, each from scratch: no new
/// variable of one clause stands in another. With them the counter
/// afterwards.
pub open spec fn rename_clauses(clauses: Seq<ClauseView>, counter: int) -> (Seq<ClauseView>, int)
    decreases clauses.len(),
{
    if clauses.len() == 0 {
        (Seq::empty(), counter)
    } else {
        let front = rename_clauses(clauses.drop_last(), counter);
        let last = rename_clause(clauses.last(), Seq::empty(), front.1);
        (front.0.push(last.0), last.2)
    }
}

/// An ordered collection of clauses. The order is the order in which
/// alternatives are tried.
#[derive(Debug)]
pub struct Database {
    clauses: Vec<Clause>,
}

impl View for Database {
    type V = Seq<ClauseView>;

    closed spec fn view(&self) -> Seq<ClauseView> {
        clause_views(self.clauses@)
    }
}

impl Database {
    /// The database of the given clauses, in their order.
    pub fn new(clauses: Vec<Clause>) -> (db: Database)
        ensures
            db@ == clause_views(clauses@),
    {
        Database { clauses }
    }

    /// The clauses, in their order.
    pub fn matches(&self) -> (clauses: &Vec<Clause>)
        ensures
            clause_views(clauses@) == self@,
    {
        &self.clauses
    }

    /// The number of clauses.
    pub fn len(&self) -> (n: usize)
        ensures
            n == self@.len(),
    {
        self.clauses.len()
    }

    /// The `i`-th clause.
    pub fn clause(&self, i: usize) -> (c: &Clause)
        requires
            i < self@.len(),
        ensures
            c@ == self@[i as int],
    {
        &self.clauses[i]
    }

    /// The clauses with their variables renamed, in their order, each
    /// clause by a renaming of its own; new identities come from `source`.
    /// `None` where `source` cannot count as far as the renamings need.
    pub fn matches_substituted(&self, source: &mut Bindings) -> (r: Option<Vec<Clause>>)
        ensures
            final(source).entries() == old(source).entries(),
            final(source).marks() == old(source).marks(),
            match r {
                Some(clauses) => {
                    &&& clause_views(clauses@) == rename_clauses(self@, old(source).counter()).0
                    &&& final(source).counter() == rename_clauses(self@, old(source).counter()).1
                    &&& clauses@.len() == self@.len()
                    &&& forall|i: int|
                        0 <= i < self@.len() ==> (#[trigger] clauses@[i])@ == rename_clause(
                            self@[i],
                            Seq::empty(),
                            rename_clauses(self@.take(i), old(source).counter()).1,
                        ).0
                },
                None => rename_clauses(self@, old(source).counter()).1 > isize::MAX
                    && final(source).counter() == isize::MAX,
            },
    {
        let mut renamed: Vec<Clause> = Vec::new();
        let mut i: usize = 0;
        assert(self@.take(0) =~= Seq::<ClauseView>::empty());
        assert(clause_views(renamed@) =~= Seq::<ClauseView>::empty());
        while i < self.clauses.len()
            invariant
                i <= self.clauses.len(),
                source.entries() == old(source).entries(),
                source.marks() == old(source).marks(),
                rename_clauses(self@.take(i as int), old(source).counter()) == (
                    clause_views(renamed@),
                    source.counter(),
                ),
            decreases self.clauses.len() - i,
        {
            let ghost before = clause_views(renamed@);
            proof {
                let next = self@.take(i + 1);
                assert(next.drop_last() =~= self@.take(i as int));
                assert(next.last() == self.clauses@[i as int]@);
            }
            let mut substitution = Substitution::new();
            match substitution.map_clause(&self.clauses[i], source) {
                Some(c) => {
                    renamed.push(c);
                    assert(clause_views(renamed@) =~= before.push(c@));
                },
                None => {
                    proof {
                        lemma_rename_clauses_counter(self@, old(source).counter(), i + 1);
                    }
                    return None;
                },
            }
            i += 1;
        }
        proof {
            assert(self@.take(i as int) =~= self@);
            lemma_rename_clauses_index(self@, old(source).counter());
            assert forall|k: int| 0 <= k < self@.len() implies (#[trigger] renamed@[k])@
                == rename_clause(
                self@[k],
                Seq::empty(),
                rename_clauses(self@.take(k), old(source).counter()).1,
            ).0 by {
                assert(clause_views(renamed@)[k] == renamed@[k]@);
            }
        }
        Some(renamed)
    }
}

/// Renaming a clause never lowers the counter.
pub proof fn lemma_rename_clause_counter(c: ClauseView, scratch: Seq<Binding>, counter: int)
    ensures
        rename_clause(c, scratch, counter).2 >= counter,
{
    let head = rename(c.head, scratch, counter);
    lemma_rename_counter(c.head, scratch, counter);
    lemma_rename_all_counter(c.body, head.1, head.2, 0);
    assert(c.body.take(0) =~= Seq::<TermView>::empty());
}

/// The counter after renaming all clauses is not under the counter after
/// renaming the first `n` of them.
pub proof fn lemma_rename_clauses_counter(clauses: Seq<ClauseView>, counter: int, n: int)
    requires
        0 <= n <= clauses.len(),
    ensures
        rename_clauses(clauses, counter).1 >= rename_clauses(clauses.take(n), counter).1,
    decreases clauses.len() - n,
{
    if n == clauses.len() {
        assert(clauses.take(n) =~= clauses);
    } else {
        let next = clauses.take(n + 1);
        assert(next.drop_last() =~= clauses.take(n));
        assert(next.last() == clauses[n]);
        let front = rename_clauses(clauses.take(n), counter);
        lemma_rename_clause_counter(clauses[n], Seq::empty(), front.1);
        lemma_rename_clauses_counter(clauses, counter, n + 1);
    }
}

/// What `rename_clauses` gives, clause by clause: each clause renamed from
/// scratch, with the counter as the clauses before it left it.
pub proof fn lemma_rename_clauses_index(clauses: Seq<ClauseView>, counter: int)
    ensures
        rename_clauses(clauses, counter).0.len() == clauses.len(),
        forall|i: int|
            0 <= i < clauses.len() ==> #[trigger] rename_clauses(clauses, counter).0[i]
                == rename_clause(
                clauses[i],
                Seq::empty(),
                rename_clauses(clauses.take(i), counter).1,
            ).0,
    decreases clauses.len(),
{
    if clauses.len() > 0 {
        lemma_rename_clauses_index(clauses.drop_last(), counter);
        assert forall|i: int| 0 <= i < clauses.len() implies #[trigger] rename_clauses(
            clauses,
            counter,
        ).0[i] == rename_clause(
            clauses[i],
            Seq::empty(),
            rename_clauses(clauses.take(i), counter).1,
        ).0 by {
            if i < clauses.len() - 1 {
                assert(clauses.drop_last()[i] == clauses[i]);
                assert(clauses.drop_last().take(i) =~= clauses.take(i));
            } else {
                assert(clauses.take(i) =~= clauses.drop_last());
            }
        }
    }
}

/// No new variable of one clause stands in another: the clauses of a
/// renamed database hold variables from ranges of identities that follow
/// one another.
pub proof fn lemma_rename_clauses_apart(clauses: Seq<ClauseView>, counter: int, i: int)
    requires
        0 <= i < clauses.len(),
    ensures
        counter <= rename_clauses(clauses.take(i), counter).1 <= rename_clauses(
            clauses.take(i + 1),
            counter,
        ).1,
        ids_within(
            rename_clauses(clauses, counter).0[i].head,
            rename_clauses(clauses.take(i), counter).1,
            rename_clauses(clauses.take(i + 1), counter).1,
        ),
        forall|j: int|
            0 <= j < rename_clauses(clauses, counter).0[i].body.len() ==> ids_within(
                #[trigger] rename_clauses(clauses, counter).0[i].body[j],
                rename_clauses(clauses.take(i), counter).1,
                rename_clauses(clauses.take(i + 1), counter).1,
            ),
{
    lemma_rename_clauses_index(clauses, counter);
    let before = rename_clauses(clauses.take(i), counter).1;
    lemma_rename_clause_fresh(clauses[i], before);
    assert(clauses.take(i + 1).drop_last() =~= clauses.take(i));
    assert(clauses.take(i + 1).last() == clauses[i]);
    lemma_rename_clauses_counter(clauses.take(i), counter, 0);
    assert(clauses.take(i).take(0) =~= Seq::<ClauseView>::empty());
}

} // verus!
