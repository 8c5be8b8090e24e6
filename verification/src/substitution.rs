//! Renaming: every variable of a clause is replaced by a variable that was
//! never handed out before, the same one wherever the old one stood.

use vstd::prelude::*;
use crate::bindings::{Binding, Bindings, keeps, lemma_lookup_member, lemma_push_keeps, lookup};
use crate::clause::{Clause, ClauseView};
use crate::term::{Term, TermView, has_vars, ids_within, lemma_compound_view, views};

verus! {

/// The renamed term, the scratch bindings after it and the counter after it.
///
/// A variable that the scratch bindings know is replaced by what they give.
/// Any other is replaced by a new unnamed variable, whose identity is the
/// counter plus one, and the scratch bindings remember the pair.
pub open spec fn rename(t: TermView, scratch: Seq<Binding>, counter: int) -> (
    TermView,
    Seq<Binding>,
    int,
)
    decreases t,
{
    match t {
        TermView::Var(v, _) => match lookup(scratch, v) {
            Some(fresh) => (fresh, scratch, counter),
            None => {
                let fresh = TermView::Var(counter + 1, None);
                (fresh, scratch.push((v, fresh)), counter + 1)
            },
        },
        TermView::Compound(f, args) => {
            let r = rename_all(args, scratch, counter);
            (TermView::Compound(f, r.0), r.1, r.2)
        },
        _ => (t, scratch, counter),
    }
}

/// `rename` over a sequence of terms, from left to right.
pub open spec fn rename_all(terms: Seq<TermView>, scratch: Seq<Binding>, counter: int) -> (
    Seq<TermView>,
    Seq<Binding>,
    int,
)
    decreases terms,
{
    if terms.len() == 0 {
        (Seq::empty(), scratch, counter)
    } else {
        let front = rename_all(terms.drop_last(), scratch, counter);
        let last = rename(terms.last(), front.1, front.2);
        (front.0.push(last.0), last.1, last.2)
    }
}

/// The renamed clause, head first and then the body, with the scratch
/// bindings and the counter after it.
pub open spec fn rename_clause(c: ClauseView, scratch: Seq<Binding>, counter: int) -> (
    ClauseView,
    Seq<Binding>,
    int,
) {
    let head = rename(c.head, scratch, counter);
    let body = rename_all(c.body, head.1, head.2);
    (ClauseView { head: head.0, body: body.0 }, body.1, body.2)
}

/// Whether every scratch binding gives a variable whose identity lies above
/// `lo` and not above `hi`.
pub open spec fn scratch_within(scratch: Seq<Binding>, lo: int, hi: int) -> bool {
    forall|i: int| 0 <= i < scratch.len() ==> ids_within((#[trigger] scratch[i]).1, lo, hi)
}

/// The scratch memory of one renaming.
#[derive(Debug)]
pub struct Substitution {
    substitutions: Bindings,
}

impl Substitution {
    /// What the renaming has replaced so far: old identity and new variable.
    pub closed spec fn scratch(&self) -> Seq<Binding> {
        self.substitutions.entries()
    }

    /// A renaming that has replaced nothing yet.
    pub fn new() -> (s: Substitution)
        ensures
            s.scratch() == Seq::<Binding>::empty(),
    {
        Substitution { substitutions: Bindings::new() }
    }

    /// The term with its variables renamed; new identities come from
    /// `source`. `None` where `source` cannot count as far as the renaming
    /// needs.
    #[verifier::loop_isolation(false)]
    pub fn substitute_new_vars(&mut self, term: &Term, source: &mut Bindings) -> (r: Option<Term>)
        ensures
            final(source).entries() == old(source).entries(),
            final(source).marks() == old(source).marks(),
            old(source).counter() <= final(source).counter(),
            match r {
                Some(t) => rename(term@, old(self).scratch(), old(source).counter()) == (
                    t@,
                    final(self).scratch(),
                    final(source).counter(),
                ),
                None => rename(term@, old(self).scratch(), old(source).counter()).2
                    > isize::MAX && final(source).counter() == isize::MAX,
            },
        decreases term,
    {
        match term {
            Term::Variable(variable) => {
                match self.substitutions.bound_directly_to(variable) {
                    Some(t) => Some(t),
                    None => {
                        if source.last_variable() == isize::MAX {
                            return None;
                        }
                        let new_variable = Term::var_unnamed(source);
                        self.substitutions.add_variable(term, new_variable.clone());
                        Some(new_variable)
                    },
                }
            },
            Term::CompoundTerm(functor, args) => {
                let mut renamed: Vec<Term> = Vec::new();
                let mut i: usize = 0;
                proof {
                    lemma_compound_view(*term);
                    assert(views(args@).take(0) =~= Seq::<TermView>::empty());
                    assert(views(renamed@) =~= Seq::<TermView>::empty());
                }
                while i < args.len()
                    invariant
                        i <= args.len(),
                        source.entries() == old(source).entries(),
                        source.marks() == old(source).marks(),
                        old(source).counter() <= source.counter(),
                        rename_all(
                            views(args@).take(i as int),
                            old(self).scratch(),
                            old(source).counter(),
                        ) == (views(renamed@), self.scratch(), source.counter()),
                    decreases args.len() - i,
                {
                    let ghost before = views(renamed@);
                    proof {
                        let next = views(args@).take(i + 1);
                        assert(next.drop_last() =~= views(args@).take(i as int));
                        assert(next.last() == args@[i as int]@);
                    }
                    match self.substitute_new_vars(&args[i], source) {
                        Some(t) => {
                            renamed.push(t);
                            assert(views(renamed@) =~= before.push(t@));
                        },
                        None => {
                            proof {
                                lemma_rename_all_counter(
                                    views(args@),
                                    old(self).scratch(),
                                    old(source).counter(),
                                    i + 1,
                                );
                            }
                            return None;
                        },
                    }
                    i += 1;
                }
                assert(views(args@).take(i as int) =~= views(args@));
                let t = Term::CompoundTerm(functor.clone(), renamed);
                proof {
                    lemma_compound_view(t);
                }
                Some(t)
            },
            _ => Some(term.clone()),
        }
    }

    /// As `substitute_new_vars`.
    pub fn map(&mut self, term: &Term, source: &mut Bindings) -> (r: Option<Term>)
        ensures
            final(source).entries() == old(source).entries(),
            final(source).marks() == old(source).marks(),
            old(source).counter() <= final(source).counter(),
            match r {
                Some(t) => rename(term@, old(self).scratch(), old(source).counter()) == (
                    t@,
                    final(self).scratch(),
                    final(source).counter(),
                ),
                None => rename(term@, old(self).scratch(), old(source).counter()).2
                    > isize::MAX && final(source).counter() == isize::MAX,
            },
    {
        self.substitute_new_vars(term, source)
    }

    /// The clause with its variables renamed, head first and then the body
    /// from left to right. `None` where `source` cannot count as far as the
    /// renaming needs.
    pub fn map_clause(&mut self, clause: &Clause, source: &mut Bindings) -> (r: Option<Clause>)
        ensures
            final(source).entries() == old(source).entries(),
            final(source).marks() == old(source).marks(),
            old(source).counter() <= final(source).counter(),
            match r {
                Some(c) => rename_clause(clause@, old(self).scratch(), old(source).counter())
                    == (c@, final(self).scratch(), final(source).counter()),
                None => rename_clause(clause@, old(self).scratch(), old(source).counter()).2
                    > isize::MAX && final(source).counter() == isize::MAX,
            },
    {
        let ghost start = rename(clause.head@, old(self).scratch(), old(source).counter());
        let head = match self.map(&clause.head, source) {
            Some(t) => t,
            None => {
                proof {
                    lemma_rename_all_counter(views(clause.body@), start.1, start.2, 0);
                    assert(views(clause.body@).take(0) =~= Seq::<TermView>::empty());
                }
                return None;
            },
        };
        let mut body: Vec<Term> = Vec::new();
        let mut i: usize = 0;
        proof {
            assert(views(clause.body@).take(0) =~= Seq::<TermView>::empty());
            assert(views(body@) =~= Seq::<TermView>::empty());
        }
        while i < clause.body.len()
            invariant
                i <= clause.body.len(),
                source.entries() == old(source).entries(),
                source.marks() == old(source).marks(),
                old(source).counter() <= source.counter(),
                start == rename(clause.head@, old(self).scratch(), old(source).counter()),
                start.0 == head@,
                rename_all(views(clause.body@).take(i as int), start.1, start.2) == (
                    views(body@),
                    self.scratch(),
                    source.counter(),
                ),
            decreases clause.body.len() - i,
        {
            let ghost before = views(body@);
            proof {
                let next = views(clause.body@).take(i + 1);
                assert(next.drop_last() =~= views(clause.body@).take(i as int));
                assert(next.last() == clause.body@[i as int]@);
            }
            match self.map(&clause.body[i], source) {
                Some(t) => {
                    body.push(t);
                    assert(views(body@) =~= before.push(t@));
                },
                None => {
                    proof {
                        lemma_rename_all_counter(views(clause.body@), start.1, start.2, i + 1);
                    }
                    return None;
                },
            }
            i += 1;
        }
        assert(views(clause.body@).take(i as int) =~= views(clause.body@));
        Some(Clause::rule(head, body))
    }
}

/// A term without variables is not changed by renaming, and neither are
/// the scratch bindings and the counter.
pub proof fn lemma_rename_ground(t: TermView, scratch: Seq<Binding>, counter: int)
    requires
        !has_vars(t),
    ensures
        rename(t, scratch, counter) == (t, scratch, counter),
    decreases t,
{
    match t {
        TermView::Compound(f, args) => {
            lemma_rename_all_ground(args, scratch, counter);
        },
        _ => {},
    }
}

/// As `lemma_rename_ground`, for a sequence of terms.
pub proof fn lemma_rename_all_ground(terms: Seq<TermView>, scratch: Seq<Binding>, counter: int)
    requires
        forall|i: int| 0 <= i < terms.len() ==> !has_vars(#[trigger] terms[i]),
    ensures
        rename_all(terms, scratch, counter) == (terms, scratch, counter),
    decreases terms,
{
    if terms.len() > 0 {
        assert forall|i: int| 0 <= i < terms.drop_last().len() implies !has_vars(
            #[trigger] terms.drop_last()[i],
        ) by {
            assert(terms.drop_last()[i] == terms[i]);
        }
        lemma_rename_all_ground(terms.drop_last(), scratch, counter);
        lemma_rename_ground(terms.last(), scratch, counter);
        assert(terms.drop_last().push(terms.last()) =~= terms);
    } else {
        assert(terms =~= Seq::<TermView>::empty());
    }
}

/// Renaming never lowers the counter.
pub proof fn lemma_rename_counter(t: TermView, scratch: Seq<Binding>, counter: int)
    ensures
        rename(t, scratch, counter).2 >= counter,
    decreases t,
{
    match t {
        TermView::Compound(f, args) => {
            lemma_rename_all_counter(args, scratch, counter, 0);
            assert(args.take(0) =~= Seq::<TermView>::empty());
        },
        _ => {},
    }
}

/// The counter after renaming a sequence is not under the counter after
/// renaming its first `n` terms.
pub proof fn lemma_rename_all_counter(
    terms: Seq<TermView>,
    scratch: Seq<Binding>,
    counter: int,
    n: int,
)
    requires
        0 <= n <= terms.len(),
    ensures
        rename_all(terms, scratch, counter).2 >= rename_all(terms.take(n), scratch, counter).2,
    decreases terms, terms.len() - n,
{
    if n == terms.len() {
        assert(terms.take(n) =~= terms);
    } else {
        let next = terms.take(n + 1);
        assert(next.drop_last() =~= terms.take(n));
        assert(next.last() == terms[n]);
        let front = rename_all(terms.take(n), scratch, counter);
        lemma_rename_counter(terms[n], front.1, front.2);
        lemma_rename_all_counter(terms, scratch, counter, n + 1);
    }
}

/// Identities that lie in a range lie in every range with a higher end.
pub proof fn lemma_ids_within_widen(t: TermView, lo: int, hi: int, higher: int)
    requires
        ids_within(t, lo, hi),
        hi <= higher,
    ensures
        ids_within(t, lo, higher),
    decreases t,
{
    match t {
        TermView::Compound(f, args) => {
            assert forall|i: int| 0 <= i < args.len() implies ids_within(
                #[trigger] args[i],
                lo,
                higher,
            ) by {
                lemma_ids_within_widen(args[i], lo, hi, higher);
            }
        },
        _ => {},
    }
}

/// As `lemma_ids_within_widen`, for scratch bindings.
pub proof fn lemma_scratch_within_widen(scratch: Seq<Binding>, lo: int, hi: int, higher: int)
    requires
        scratch_within(scratch, lo, hi),
        hi <= higher,
    ensures
        scratch_within(scratch, lo, higher),
{
    assert forall|i: int| 0 <= i < scratch.len() implies ids_within(
        (#[trigger] scratch[i]).1,
        lo,
        higher,
    ) by {
        lemma_ids_within_widen(scratch[i].1, lo, hi, higher);
    }
}

/// Where the scratch bindings give only variables handed out after `lo`,
/// the renamed term holds only such variables, and the scratch bindings
/// after it still give only such.
pub proof fn lemma_rename_fresh(t: TermView, scratch: Seq<Binding>, lo: int, counter: int)
    requires
        lo <= counter,
        scratch_within(scratch, lo, counter),
    ensures
        counter <= rename(t, scratch, counter).2,
        ids_within(rename(t, scratch, counter).0, lo, rename(t, scratch, counter).2),
        scratch_within(rename(t, scratch, counter).1, lo, rename(t, scratch, counter).2),
    decreases t,
{
    match t {
        TermView::Var(v, _) => {
            match lookup(scratch, v) {
                Some(fresh) => {
                    lemma_lookup_member(scratch, v);
                },
                None => {
                    lemma_scratch_within_widen(scratch, lo, counter, counter + 1);
                },
            }
        },
        TermView::Compound(f, args) => {
            lemma_rename_all_fresh(args, scratch, lo, counter);
        },
        _ => {},
    }
}

/// As `lemma_rename_fresh`, for a sequence of terms.
pub proof fn lemma_rename_all_fresh(
    terms: Seq<TermView>,
    scratch: Seq<Binding>,
    lo: int,
    counter: int,
)
    requires
        lo <= counter,
        scratch_within(scratch, lo, counter),
    ensures
        counter <= rename_all(terms, scratch, counter).2,
        rename_all(terms, scratch, counter).0.len() == terms.len(),
        forall|i: int|
            0 <= i < terms.len() ==> ids_within(
                #[trigger] rename_all(terms, scratch, counter).0[i],
                lo,
                rename_all(terms, scratch, counter).2,
            ),
        scratch_within(rename_all(terms, scratch, counter).1, lo, rename_all(terms, scratch, counter).2),
    decreases terms,
{
    if terms.len() > 0 {
        let front = rename_all(terms.drop_last(), scratch, counter);
        lemma_rename_all_fresh(terms.drop_last(), scratch, lo, counter);
        let last = rename(terms.last(), front.1, front.2);
        lemma_rename_fresh(terms.last(), front.1, lo, front.2);
        let all = rename_all(terms, scratch, counter);
        assert forall|i: int| 0 <= i < terms.len() implies ids_within(
            #[trigger] all.0[i],
            lo,
            all.2,
        ) by {
            if i < terms.len() - 1 {
                assert(all.0[i] == front.0[i]);
                lemma_ids_within_widen(front.0[i], lo, front.2, all.2);
            }
        }
    }
}

/// Freshness: a clause renamed from scratch holds only variables that were
/// handed out by the renaming itself. Their identities lie above the
/// counter as it stood before, so none of them was in use before.
pub proof fn lemma_rename_clause_fresh(c: ClauseView, counter: int)
    ensures
        counter <= rename_clause(c, Seq::empty(), counter).2,
        ids_within(
            rename_clause(c, Seq::empty(), counter).0.head,
            counter,
            rename_clause(c, Seq::empty(), counter).2,
        ),
        rename_clause(c, Seq::empty(), counter).0.body.len() == c.body.len(),
        forall|i: int|
            0 <= i < c.body.len() ==> ids_within(
                #[trigger] rename_clause(c, Seq::empty(), counter).0.body[i],
                counter,
                rename_clause(c, Seq::empty(), counter).2,
            ),
{
    let head = rename(c.head, Seq::empty(), counter);
    lemma_rename_fresh(c.head, Seq::empty(), counter, counter);
    lemma_rename_all_fresh(c.body, head.1, counter, head.2);
    lemma_ids_within_widen(head.0, counter, head.2, rename_all(c.body, head.1, head.2).2);
}

/// The term with every variable that `scratch` knows replaced by what
/// `scratch` gives for it: one step, no chain is followed.
pub open spec fn replaced(t: TermView, scratch: Seq<Binding>) -> TermView
    decreases t,
{
    match t {
        TermView::Var(v, _) => match lookup(scratch, v) {
            Some(fresh) => fresh,
            None => t,
        },
        TermView::Compound(f, args) => TermView::Compound(f, replaced_all(args, scratch)),
        _ => t,
    }
}

/// `replaced` of each term of a sequence.
pub open spec fn replaced_all(terms: Seq<TermView>, scratch: Seq<Binding>) -> Seq<TermView>
    decreases terms,
{
    if terms.len() == 0 {
        Seq::empty()
    } else {
        replaced_all(terms.drop_last(), scratch).push(replaced(terms.last(), scratch))
    }
}

/// Whether `scratch` knows every variable of the term.
pub open spec fn covered(t: TermView, scratch: Seq<Binding>) -> bool
    decreases t,
{
    match t {
        TermView::Var(v, _) => lookup(scratch, v) is Some,
        TermView::Compound(_, args) => forall|i: int|
            0 <= i < args.len() ==> covered(#[trigger] args[i], scratch),
        _ => true,
    }
}

/// What `replaced_all` gives, term by term.
pub proof fn lemma_replaced_all_index(terms: Seq<TermView>, scratch: Seq<Binding>)
    ensures
        replaced_all(terms, scratch).len() == terms.len(),
        forall|i: int|
            0 <= i < terms.len() ==> #[trigger] replaced_all(terms, scratch)[i] == replaced(
                terms[i],
                scratch,
            ),
    decreases terms.len(),
{
    if terms.len() > 0 {
        lemma_replaced_all_index(terms.drop_last(), scratch);
        assert forall|i: int| 0 <= i < terms.len() implies #[trigger] replaced_all(
            terms,
            scratch,
        )[i] == replaced(terms[i], scratch) by {
            if i < terms.len() - 1 {
                assert(terms[i] == terms.drop_last()[i]);
            }
        }
    }
}

/// A term whose variables are all known is replaced in the same way under
/// more scratch bindings.
pub proof fn lemma_replaced_stable(t: TermView, before: Seq<Binding>, after: Seq<Binding>)
    requires
        covered(t, before),
        keeps(before, after),
    ensures
        covered(t, after),
        replaced(t, after) == replaced(t, before),
    decreases t,
{
    match t {
        TermView::Compound(f, args) => {
            lemma_replaced_all_index(args, before);
            lemma_replaced_all_index(args, after);
            assert forall|i: int| 0 <= i < args.len() implies covered(#[trigger] args[i], after)
                && replaced(args[i], after) == replaced(args[i], before) by {
                lemma_replaced_stable(args[i], before, after);
            }
            assert(replaced_all(args, after) =~= replaced_all(args, before));
        },
        _ => {},
    }
}

/// Renaming is a replacement: the renamed term is the term with each
/// variable replaced by what the scratch bindings give for it afterwards.
/// So a variable is replaced by the same new variable wherever it stands.
/// The scratch bindings know every variable of the term afterwards, and
/// what they knew before they still know.
pub proof fn lemma_rename_replaces(t: TermView, scratch: Seq<Binding>, counter: int)
    ensures
        rename(t, scratch, counter).0 == replaced(t, rename(t, scratch, counter).1),
        covered(t, rename(t, scratch, counter).1),
        keeps(scratch, rename(t, scratch, counter).1),
    decreases t,
{
    match t {
        TermView::Var(v, _) => {
            if lookup(scratch, v) is None {
                lemma_push_keeps(scratch, v, TermView::Var(counter + 1, None));
            }
        },
        TermView::Compound(f, args) => {
            lemma_rename_all_replaces(args, scratch, counter);
            let r = rename_all(args, scratch, counter);
            lemma_replaced_all_index(args, r.1);
            assert(r.0 =~= replaced_all(args, r.1));
        },
        _ => {},
    }
}

/// As `lemma_rename_replaces`, for a sequence of terms.
pub proof fn lemma_rename_all_replaces(terms: Seq<TermView>, scratch: Seq<Binding>, counter: int)
    ensures
        rename_all(terms, scratch, counter).0.len() == terms.len(),
        forall|i: int|
            0 <= i < terms.len() ==> #[trigger] rename_all(terms, scratch, counter).0[i]
                == replaced(terms[i], rename_all(terms, scratch, counter).1),
        forall|i: int|
            0 <= i < terms.len() ==> covered(
                #[trigger] terms[i],
                rename_all(terms, scratch, counter).1,
            ),
        keeps(scratch, rename_all(terms, scratch, counter).1),
    decreases terms,
{
    if terms.len() > 0 {
        let front = rename_all(terms.drop_last(), scratch, counter);
        lemma_rename_all_replaces(terms.drop_last(), scratch, counter);
        let last = rename(terms.last(), front.1, front.2);
        lemma_rename_replaces(terms.last(), front.1, front.2);
        let all = rename_all(terms, scratch, counter);
        assert forall|i: int| 0 <= i < terms.len() implies #[trigger] all.0[i] == replaced(
            terms[i],
            all.1,
        ) && covered(terms[i], all.1) by {
            if i < terms.len() - 1 {
                assert(terms[i] == terms.drop_last()[i]);
                assert(all.0[i] == front.0[i]);
                lemma_replaced_stable(terms[i], front.1, last.1);
            }
        }
        assert forall|i: int| 0 <= i < terms.len() implies covered(
            #[trigger] terms[i],
            all.1,
        ) by {
            if i < terms.len() - 1 {
                assert(terms[i] == terms.drop_last()[i]);
                lemma_replaced_stable(terms[i], front.1, last.1);
            }
        }
        assert forall|v: int| (#[trigger] lookup(scratch, v)) is Some implies lookup(all.1, v)
            == lookup(scratch, v) by {
            assert(lookup(front.1, v) == lookup(scratch, v));
        }
    }
}

/// A renamed clause is the clause with each variable replaced by one new
/// variable, the same in the head and in every goal of the body.
pub proof fn lemma_rename_clause_replaces(c: ClauseView, scratch: Seq<Binding>, counter: int)
    ensures
        rename_clause(c, scratch, counter).0.head == replaced(
            c.head,
            rename_clause(c, scratch, counter).1,
        ),
        rename_clause(c, scratch, counter).0.body.len() == c.body.len(),
        forall|i: int|
            0 <= i < c.body.len() ==> #[trigger] rename_clause(c, scratch, counter).0.body[i]
                == replaced(c.body[i], rename_clause(c, scratch, counter).1),
{
    let head = rename(c.head, scratch, counter);
    lemma_rename_replaces(c.head, scratch, counter);
    lemma_rename_all_replaces(c.body, head.1, head.2);
    lemma_replaced_stable(c.head, head.1, rename_all(c.body, head.1, head.2).1);
}

} // verus!
