//! The identities in a search stay under its counter, so what a renaming
//! makes is new to the whole search.

use vstd::prelude::*;
use crate::bindings::{
    Binding,
    instantiation,
    lemma_lookup_member,
    lemma_walk_all_index,
    lookup,
    walk,
    walk_all,
};
use crate::clause::ClauseView;
use crate::run::{SolverView, backtracked, start, step_outcome};
use crate::substitution::{
    lemma_ids_within_widen,
    lemma_rename_clause_fresh,
    rename_clause,
};
use crate::term::{
    TermView,
    collect_vars_all,
    ids_within,
    lemma_distinct_variables,
    occurs,
    occurs_in,
};
use crate::unify::{
    enough,
    unify_all_outcome,
    unify_outcome,
    unify_variable_outcome,
};

verus! {

/// Whether the bindings bind only variables whose identity lies above `lo`
/// and not above `hi`, to terms of such variables.
pub open spec fn bindings_within(entries: Seq<Binding>, lo: int, hi: int) -> bool {
    forall|i: int|
        0 <= i < entries.len() ==> lo < (#[trigger] entries[i]).0 <= hi && ids_within(
            entries[i].1,
            lo,
            hi,
        )
}

/// Whether every term of the sequence holds only variables whose identity
/// lies above `lo` and not above `hi`.
pub open spec fn all_within(terms: Seq<TermView>, lo: int, hi: int) -> bool {
    forall|i: int| 0 <= i < terms.len() ==> ids_within(#[trigger] terms[i], lo, hi)
}

/// Whether every identity in the state of a search lies above `lo` and not
/// above the counter of the search.
pub open spec fn search_within(s: SolverView, lo: int) -> bool {
    &&& lo <= s.counter <= isize::MAX
    &&& bindings_within(s.entries, lo, s.counter)
    &&& all_within(s.vars, lo, s.counter)
    &&& forall|i: int|
        0 <= i < s.stack.len() ==> all_within((#[trigger] s.stack[i]).goals, lo, s.counter)
}

/// A variable that is bound is the variable of one of the bindings.
pub proof fn lemma_lookup_key(entries: Seq<Binding>, v: int)
    requires
        lookup(entries, v) is Some,
    ensures
        exists|i: int| 0 <= i < entries.len() && (#[trigger] entries[i]).0 == v,
    decreases entries.len(),
{
    if entries.last().0 == v {
        assert(entries[entries.len() - 1].0 == v);
    } else {
        lemma_lookup_key(entries.drop_last(), v);
        let i = choose|i: int|
            0 <= i < entries.drop_last().len() && (#[trigger] entries.drop_last()[i]).0 == v;
        assert(entries[i] == entries.drop_last()[i]);
    }
}

/// Bindings within a range are within every range with a higher end.
pub proof fn lemma_bindings_within_widen(entries: Seq<Binding>, lo: int, hi: int, higher: int)
    requires
        bindings_within(entries, lo, hi),
        hi <= higher,
    ensures
        bindings_within(entries, lo, higher),
{
    assert forall|i: int| 0 <= i < entries.len() implies lo < (#[trigger] entries[i]).0 <= higher
        && ids_within(entries[i].1, lo, higher) by {
        lemma_ids_within_widen(entries[i].1, lo, hi, higher);
    }
}

/// Terms within a range are within every range with a higher end.
pub proof fn lemma_all_within_widen(terms: Seq<TermView>, lo: int, hi: int, higher: int)
    requires
        all_within(terms, lo, hi),
        hi <= higher,
    ensures
        all_within(terms, lo, higher),
{
    assert forall|i: int| 0 <= i < terms.len() implies ids_within(
        #[trigger] terms[i],
        lo,
        higher,
    ) by {
        lemma_ids_within_widen(terms[i], lo, hi, higher);
    }
}

/// The walk of a term brings in no identity from outside.
pub proof fn lemma_walk_within(entries: Seq<Binding>, t: TermView, depth: nat, lo: int, hi: int)
    requires
        ids_within(t, lo, hi),
        bindings_within(entries, lo, hi),
        walk(entries, t, depth) is Some,
    ensures
        ids_within(walk(entries, t, depth)->0, lo, hi),
    decreases depth, t,
{
    match t {
        TermView::Var(v, _) => {
            match lookup(entries, v) {
                None => {},
                Some(bound) => {
                    lemma_lookup_member(entries, v);
                    lemma_walk_within(entries, bound, (depth - 1) as nat, lo, hi);
                },
            }
        },
        TermView::Compound(f, args) => {
            let walked = walk_all(entries, args, depth)->0;
            lemma_walk_all_index(entries, args, depth);
            assert forall|i: int| 0 <= i < walked.len() implies ids_within(
                #[trigger] walked[i],
                lo,
                hi,
            ) by {
                assert(walk(entries, args[i], depth) == Some(walked[i]));
                lemma_walk_within(entries, args[i], depth, lo, hi);
            }
        },
        _ => {},
    }
}

/// Unification brings in no identity from outside, whether it succeeds or
/// not.
pub proof fn lemma_unify_within(
    entries: Seq<Binding>,
    t1: TermView,
    t2: TermView,
    fuel: nat,
    lo: int,
    hi: int,
)
    requires
        ids_within(t1, lo, hi),
        ids_within(t2, lo, hi),
        bindings_within(entries, lo, hi),
    ensures
        bindings_within(unify_outcome(entries, t1, t2, fuel).1, lo, hi),
    decreases fuel, 1nat, 0nat,
{
    match (t1, t2) {
        (TermView::Compound(f, xs), TermView::Compound(g, ys)) => {
            if f == g && xs.len() == ys.len() {
                lemma_unify_all_within(entries, xs, ys, 0, fuel, lo, hi);
            }
        },
        (TermView::Var(_, _), _) => {
            lemma_unify_variable_within(entries, t1, t2, fuel, lo, hi);
        },
        (_, TermView::Var(_, _)) => {
            lemma_unify_variable_within(entries, t2, t1, fuel, lo, hi);
        },
        _ => {},
    }
}

/// As `lemma_unify_within`, for the arguments from the `i`-th on.
pub proof fn lemma_unify_all_within(
    entries: Seq<Binding>,
    xs: Seq<TermView>,
    ys: Seq<TermView>,
    i: nat,
    fuel: nat,
    lo: int,
    hi: int,
)
    requires
        all_within(xs, lo, hi),
        all_within(ys, lo, hi),
        bindings_within(entries, lo, hi),
    ensures
        bindings_within(unify_all_outcome(entries, xs, ys, i, fuel).1, lo, hi),
    decreases fuel, 0nat, xs.len() - i,
{
    if i >= xs.len() || i >= ys.len() {
    } else if fuel == 0 {
    } else {
        let first = unify_outcome(entries, xs[i as int], ys[i as int], (fuel - 1) as nat);
        lemma_unify_within(entries, xs[i as int], ys[i as int], (fuel - 1) as nat, lo, hi);
        if first.0 {
            lemma_unify_all_within(first.1, xs, ys, i + 1, fuel, lo, hi);
        }
    }
}

/// As `lemma_unify_within`, where a variable is involved.
pub proof fn lemma_unify_variable_within(
    entries: Seq<Binding>,
    t1: TermView,
    t2: TermView,
    fuel: nat,
    lo: int,
    hi: int,
)
    requires
        ids_within(t1, lo, hi),
        ids_within(t2, lo, hi),
        bindings_within(entries, lo, hi),
    ensures
        bindings_within(unify_variable_outcome(entries, t1, t2, fuel).1, lo, hi),
    decreases fuel, 0nat, 0nat,
{
    match (instantiation(entries, t1), instantiation(entries, t2)) {
        (Some(a), Some(b)) => {
            lemma_walk_within(entries, t1, entries.len(), lo, hi);
            lemma_walk_within(entries, t2, entries.len(), lo, hi);
            match a {
                TermView::Var(v1, _) => {},
                _ => {
                    if fuel > 0 {
                        lemma_unify_within(entries, a, b, (fuel - 1) as nat, lo, hi);
                    }
                },
            }
        },
        _ => {},
    }
}

/// A variable that stands in a term within a range is within the range.
pub proof fn lemma_occurs_within(x: TermView, t: TermView, lo: int, hi: int)
    requires
        occurs(x, t),
        ids_within(t, lo, hi),
    ensures
        ids_within(x, lo, hi),
    decreases t,
{
    match t {
        TermView::Compound(_, args) => {
            let i = choose|i: int| 0 <= i < args.len() && occurs(x, #[trigger] args[i]);
            lemma_occurs_within(x, args[i], lo, hi);
        },
        _ => {},
    }
}

/// A search starts with its identities under its counter, where those of
/// the query and of the bindings are.
pub proof fn lemma_start_within(
    database: Seq<ClauseView>,
    query: Seq<TermView>,
    entries: Seq<Binding>,
    marks: Seq<nat>,
    counter: int,
    lo: int,
)
    requires
        lo <= counter <= isize::MAX,
        all_within(query, lo, counter),
        bindings_within(entries, lo, counter),
    ensures
        search_within(start(database, query, entries, marks, counter), lo),
{
    let s = start(database, query, entries, marks, counter);
    lemma_distinct_variables(query);
    assert forall|i: int| 0 <= i < s.vars.len() implies ids_within(
        #[trigger] s.vars[i],
        lo,
        counter,
    ) by {
        let x = s.vars[i];
        assert(occurs_in(collect_vars_all(query, Seq::empty())[i], query));
        let j = choose|j: int| 0 <= j < query.len() && occurs(x, #[trigger] query[j]);
        lemma_occurs_within(x, query[j], lo, counter);
    }
    assert forall|i: int| 0 <= i < s.stack.len() implies all_within(
        (#[trigger] s.stack[i]).goals,
        lo,
        counter,
    ) by {}
}

/// Every step of a search keeps its identities under its counter.
pub proof fn lemma_step_within(s: SolverView, lo: int)
    requires
        search_within(s, lo),
    ensures
        search_within(step_outcome(s).0, lo),
{
    let next = step_outcome(s).0;
    if s.stack.len() > 0 {
        let top = s.stack.last();
        if top.goals.len() == 0 || top.next >= s.database.len() {
            assert(next == backtracked(s));
            assert forall|i: int| 0 <= i < next.stack.len() implies all_within(
                (#[trigger] next.stack[i]).goals,
                lo,
                next.counter,
            ) by {
                assert(next.stack[i] == s.stack[i]);
            }
        } else {
            let clause = s.database[top.next as int];
            let renamed = rename_clause(clause, Seq::empty(), s.counter);
            lemma_rename_clause_fresh(clause, s.counter);
            let hi = next.counter;
            lemma_bindings_within_widen(s.entries, lo, s.counter, hi);
            lemma_all_within_widen(s.vars, lo, s.counter, hi);
            lemma_all_within_widen(top.goals, lo, s.counter, hi);
            if renamed.2 <= isize::MAX {
                lemma_ids_within_widen(renamed.0.head, s.counter, hi, hi);
                lemma_within_lower(renamed.0.head, s.counter, lo, hi);
                lemma_unify_within(
                    s.entries,
                    top.goals[0],
                    renamed.0.head,
                    enough(s.entries, top.goals[0], renamed.0.head),
                    lo,
                    hi,
                );
                let goals = renamed.0.body + top.goals.skip(1);
                assert forall|j: int| 0 <= j < goals.len() implies ids_within(
                    #[trigger] goals[j],
                    lo,
                    hi,
                ) by {
                    if j < renamed.0.body.len() {
                        lemma_within_lower(renamed.0.body[j], s.counter, lo, hi);
                    } else {
                        assert(goals[j] == top.goals[j - renamed.0.body.len() + 1]);
                    }
                }
            }
            assert forall|i: int| 0 <= i < next.stack.len() implies all_within(
                (#[trigger] next.stack[i]).goals,
                lo,
                hi,
            ) by {
                if i < s.stack.len() - 1 {
                    assert(next.stack[i] == s.stack[i]);
                    lemma_all_within_widen(s.stack[i].goals, lo, s.counter, hi);
                }
            }
        }
    }
}

/// Identities that lie in a range lie in every range with a lower start.
pub proof fn lemma_within_lower(t: TermView, lo: int, lower: int, hi: int)
    requires
        ids_within(t, lo, hi),
        lower <= lo,
    ensures
        ids_within(t, lower, hi),
    decreases t,
{
    match t {
        TermView::Compound(f, args) => {
            assert forall|i: int| 0 <= i < args.len() implies ids_within(
                #[trigger] args[i],
                lower,
                hi,
            ) by {
                lemma_within_lower(args[i], lo, lower, hi);
            }
        },
        _ => {},
    }
}

/// What a renaming makes is new to the search: in a search whose
/// identities lie under its counter, no variable of a renamed clause is
/// bound, and none has the identity of a variable that the search holds.
pub proof fn lemma_renamed_is_new(s: SolverView, lo: int, c: ClauseView, v: int)
    requires
        search_within(s, lo),
        s.counter < v,
    ensures
        lookup(s.entries, v) is None,
        ids_within(rename_clause(c, Seq::empty(), s.counter).0.head, s.counter, rename_clause(
            c,
            Seq::empty(),
            s.counter,
        ).2),
        all_within(
            rename_clause(c, Seq::empty(), s.counter).0.body,
            s.counter,
            rename_clause(c, Seq::empty(), s.counter).2,
        ),
{
    lemma_rename_clause_fresh(c, s.counter);
    if lookup(s.entries, v) is Some {
        lemma_lookup_key(s.entries, v);
    }
}

} // verus!
