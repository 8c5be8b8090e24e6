//! Unification of two terms under a binding environment, without occurs
//! check.

use vstd::prelude::*;
use crate::bindings::{
    Binding,
    Bindings,
    instantiation,
    lemma_settled_walk,
    lemma_walk_settled,
    lookup,
    settled,
};
use crate::term::{Term, TermView, lemma_compound_view, views};
use crate::variable::Variable;

verus! {

/// Whether the two terms unify within `fuel` nested steps, and the bindings
/// afterwards. Bindings made before a failure stay.
///
/// Two atoms unify where their names are equal, two integers where their
/// values are. Two compounds unify where functor and arity agree and the
/// arguments unify pairwise from left to right, each under the bindings that
/// the one before left. A variable on either side is handed to
/// `unify_variable_outcome`, the variable first. Anything else fails.
pub open spec fn unify_outcome(entries: Seq<Binding>, t1: TermView, t2: TermView, fuel: nat) -> (
    bool,
    Seq<Binding>,
)
    decreases fuel, 1nat, 0nat,
{
    match (t1, t2) {
        (TermView::Atom(a), TermView::Atom(b)) => (a == b, entries),
        (TermView::Int(i), TermView::Int(j)) => (i == j, entries),
        (TermView::Compound(f, xs), TermView::Compound(g, ys)) => if f == g && xs.len()
            == ys.len() {
            unify_all_outcome(entries, xs, ys, 0, fuel)
        } else {
            (false, entries)
        },
        (TermView::Var(_, _), _) => unify_variable_outcome(entries, t1, t2, fuel),
        (_, TermView::Var(_, _)) => unify_variable_outcome(entries, t2, t1, fuel),
        _ => (false, entries),
    }
}

/// `unify_outcome` of the pairs of arguments from the `i`-th on.
pub open spec fn unify_all_outcome(
    entries: Seq<Binding>,
    xs: Seq<TermView>,
    ys: Seq<TermView>,
    i: nat,
    fuel: nat,
) -> (bool, Seq<Binding>)
    decreases fuel, 0nat, xs.len() - i,
{
    if i >= xs.len() || i >= ys.len() {
        (true, entries)
    } else if fuel == 0 {
        (false, entries)
    } else {
        let first = unify_outcome(entries, xs[i as int], ys[i as int], (fuel - 1) as nat);
        if first.0 {
            unify_all_outcome(first.1, xs, ys, i + 1, fuel)
        } else {
            first
        }
    }
}

/// Unification where a variable is involved. Both terms are instantiated.
/// Where the first is then still a variable, it is bound to the second,
/// unless the second is that same variable. Otherwise the two
/// instantiations are unified. Fails where one of the terms has no finite
/// instantiation.
pub open spec fn unify_variable_outcome(
    entries: Seq<Binding>,
    t1: TermView,
    t2: TermView,
    fuel: nat,
) -> (bool, Seq<Binding>)
    decreases fuel, 0nat, 0nat,
{
    match (instantiation(entries, t1), instantiation(entries, t2)) {
        (Some(a), Some(b)) => match a {
            TermView::Var(v1, _) => if b is Var && b->Var_0 == v1 {
                (true, entries)
            } else {
                (true, entries.push((v1, b)))
            },
            _ => if fuel == 0 {
                (false, entries)
            } else {
                unify_outcome(entries, a, b, (fuel - 1) as nat)
            },
        },
        _ => (false, entries),
    }
}

/// A fuel within which unification comes to its end, where there is one.
pub open spec fn enough(entries: Seq<Binding>, t1: TermView, t2: TermView) -> nat {
    choose|fuel: nat| !unify_spent(entries, t1, t2, fuel)
}

/// Whether the two terms unify, and the bindings afterwards: the outcome
/// within a fuel that lets unification come to its end.
pub open spec fn unified(entries: Seq<Binding>, t1: TermView, t2: TermView) -> (
    bool,
    Seq<Binding>,
) {
    unify_outcome(entries, t1, t2, enough(entries, t1, t2))
}

/// As `enough`, where a variable is involved.
pub open spec fn enough_for_variable(entries: Seq<Binding>, t1: TermView, t2: TermView) -> nat {
    choose|fuel: nat| !unify_variable_spent(entries, t1, t2, fuel)
}

/// As `unified`, where a variable is involved.
pub open spec fn unified_variable(entries: Seq<Binding>, t1: TermView, t2: TermView) -> (
    bool,
    Seq<Binding>,
) {
    unify_variable_outcome(entries, t1, t2, enough_for_variable(entries, t1, t2))
}

/// The size of a term: the number of its atoms, integers, variables and
/// compounds, and one more for each argument.
pub open spec fn size(t: TermView) -> nat
    decreases t,
{
    match t {
        TermView::Compound(_, args) => 1 + sizes(args),
        _ => 1,
    }
}

/// The sizes of the terms together, and one more for each.
pub open spec fn sizes(terms: Seq<TermView>) -> nat
    decreases terms,
{
    if terms.len() == 0 {
        0
    } else {
        sizes(terms.drop_last()) + size(terms.last()) + 1
    }
}

/// How many of the identities from the least one up to `upto`, which is
/// left out, are unbound.
pub open spec fn unbound(entries: Seq<Binding>, upto: int) -> nat
    decreases upto - isize::MIN,
{
    if upto <= isize::MIN {
        0
    } else {
        unbound(entries, upto - 1) + if lookup(entries, upto - 1) is None {
            1nat
        } else {
            0nat
        }
    }
}

/// How many of the identities that a machine has are unbound.
pub open spec fn free(entries: Seq<Binding>) -> nat {
    unbound(entries, isize::MAX + 1)
}

/// 0 where neither term holds a bound variable, else 1.
pub open spec fn unsettled(entries: Seq<Binding>, t1: TermView, t2: TermView) -> nat {
    if settled(entries, t1) && settled(entries, t2) {
        0
    } else {
        1
    }
}

/// 0 where none of the terms holds a bound variable, else 1.
pub open spec fn unsettled_all(entries: Seq<Binding>, xs: Seq<TermView>, ys: Seq<TermView>) -> nat {
    if (forall|i: int| 0 <= i < xs.len() ==> settled(entries, #[trigger] xs[i])) && (forall|
        i: int,
    | 0 <= i < ys.len() ==> settled(entries, #[trigger] ys[i])) {
        0
    } else {
        1
    }
}

/// One term of a sequence is smaller than the sequence.
pub proof fn lemma_sizes_index(terms: Seq<TermView>, i: int)
    requires
        0 <= i < terms.len(),
    ensures
        size(terms[i]) < sizes(terms),
    decreases terms.len(),
{
    if i < terms.len() - 1 {
        lemma_sizes_index(terms.drop_last(), i);
    }
}

/// A new binding of an unbound variable leaves one identity less unbound.
pub proof fn lemma_bind_unbound(entries: Seq<Binding>, v: int, t: TermView, upto: int)
    requires
        lookup(entries, v) is None,
        isize::MIN <= v,
    ensures
        unbound(entries.push((v, t)), upto) + (if v < upto {
            1nat
        } else {
            0nat
        }) == unbound(entries, upto),
    decreases upto - isize::MIN,
{
    assert(entries.push((v, t)).drop_last() =~= entries);
    if upto > isize::MIN {
        lemma_bind_unbound(entries, v, t, upto - 1);
    }
}

/// Unifies the two terms and says whether they unify. New bindings go to
/// the innermost frame, and those made before a failure stay: the caller
/// drops the frame.
pub fn unify(term1: &Term, term2: &Term, bindings: &mut Bindings) -> (ok: bool)
    ensures
        (ok, final(bindings).entries()) == unified(old(bindings).entries(), term1@, term2@),
        !unify_spent(
            old(bindings).entries(),
            term1@,
            term2@,
            enough(old(bindings).entries(), term1@, term2@),
        ),
        final(bindings).marks() == old(bindings).marks(),
        final(bindings).counter() == old(bindings).counter(),
{
    let r = unify_terms(term1, term2, bindings);
    proof {
        let entries = old(bindings).entries();
        let fuel = enough(entries, term1@, term2@);
        if fuel <= r.1@ {
            lemma_unify_fuel(entries, term1@, term2@, fuel, r.1@);
        } else {
            lemma_unify_fuel(entries, term1@, term2@, r.1@, fuel);
        }
    }
    r.0
}

/// Unifies a term that stands for a variable with another.
pub fn unify_variable(term1: &Term, term2: &Term, bindings: &mut Bindings) -> (ok: bool)
    ensures
        (ok, final(bindings).entries()) == unified_variable(
            old(bindings).entries(),
            term1@,
            term2@,
        ),
        !unify_variable_spent(
            old(bindings).entries(),
            term1@,
            term2@,
            enough_for_variable(old(bindings).entries(), term1@, term2@),
        ),
        final(bindings).marks() == old(bindings).marks(),
        final(bindings).counter() == old(bindings).counter(),
{
    let r = unify_with_variable(term1, term2, bindings);
    proof {
        let entries = old(bindings).entries();
        let fuel = enough_for_variable(entries, term1@, term2@);
        if fuel <= r.1@ {
            lemma_unify_variable_fuel(entries, term1@, term2@, fuel, r.1@);
        } else {
            lemma_unify_variable_fuel(entries, term1@, term2@, r.1@, fuel);
        }
    }
    r.0
}

/// `unify`, with a fuel within which it came to its end.
fn unify_terms(term1: &Term, term2: &Term, bindings: &mut Bindings) -> (r: (bool, Ghost<nat>))
    ensures
        !unify_spent(old(bindings).entries(), term1@, term2@, r.1@),
        (r.0, final(bindings).entries()) == unify_outcome(
            old(bindings).entries(),
            term1@,
            term2@,
            r.1@,
        ),
        final(bindings).marks() == old(bindings).marks(),
        final(bindings).counter() == old(bindings).counter(),
        final(bindings).entries() == old(bindings).entries() || free(final(bindings).entries())
            < free(old(bindings).entries()),
    decreases
            free(old(bindings).entries()),
            unsettled(old(bindings).entries(), term1@, term2@),
            size(term1@) + size(term2@),
            1nat,
{
    match (term1, term2) {
        (Term::Atom(s1), Term::Atom(s2)) => (*s1 == *s2, Ghost(0)),
        (Term::Int(i1), Term::Int(i2)) => (*i1 == *i2, Ghost(0)),
        (Term::CompoundTerm(f1, args1), Term::CompoundTerm(f2, args2)) => {
            proof {
                lemma_compound_view(*term1);
                lemma_compound_view(*term2);
            }
            if *f1 == *f2 && args1.len() == args2.len() {
                unify_arguments(args1, args2, 0, bindings)
            } else {
                (false, Ghost(0))
            }
        },
        (Term::Variable(_), _) => unify_with_variable(term1, term2, bindings),
        (_, Term::Variable(_)) => unify_with_variable(term2, term1, bindings),
        _ => (false, Ghost(0)),
    }
}

/// `unify` of the pairs of arguments from the `i`-th on, with a fuel
/// within which it came to its end.
fn unify_arguments(args1: &Vec<Term>, args2: &Vec<Term>, i: usize, bindings: &mut Bindings) -> (r: (
    bool,
    Ghost<nat>,
))
    requires
        args1.len() == args2.len(),
        i <= args1.len(),
    ensures
        !unify_all_spent(old(bindings).entries(), views(args1@), views(args2@), i as nat, r.1@),
        (r.0, final(bindings).entries()) == unify_all_outcome(
            old(bindings).entries(),
            views(args1@),
            views(args2@),
            i as nat,
            r.1@,
        ),
        final(bindings).marks() == old(bindings).marks(),
        final(bindings).counter() == old(bindings).counter(),
        final(bindings).entries() == old(bindings).entries() || free(final(bindings).entries())
            < free(old(bindings).entries()),
    decreases
            free(old(bindings).entries()),
            unsettled_all(old(bindings).entries(), views(args1@), views(args2@)),
            sizes(views(args1@)) + sizes(views(args2@)),
            args1.len() - i,
{
    if i >= args1.len() {
        return (true, Ghost(0));
    }
    let ghost entries = bindings.entries();
    let ghost xs = views(args1@);
    let ghost ys = views(args2@);
    proof {
        lemma_sizes_index(xs, i as int);
        lemma_sizes_index(ys, i as int);
        assert(xs[i as int] == args1@[i as int]@);
        assert(ys[i as int] == args2@[i as int]@);
    }
    let first = unify_terms(&args1[i], &args2[i], bindings);
    if !first.0 {
        return (false, Ghost((first.1@ + 1) as nat));
    }
    let ghost between = bindings.entries();
    let rest = unify_arguments(args1, args2, i + 1, bindings);
    let ghost fuel: nat = if first.1@ + 1 <= rest.1@ {
        rest.1@
    } else {
        (first.1@ + 1) as nat
    };
    proof {
        lemma_unify_fuel(entries, xs[i as int], ys[i as int], first.1@, (fuel - 1) as nat);
        lemma_unify_all_fuel(between, xs, ys, (i + 1) as nat, rest.1@, fuel);
    }
    (rest.0, Ghost(fuel))
}

/// `unify_variable`, with a fuel within which it came to its end.
fn unify_with_variable(term1: &Term, term2: &Term, bindings: &mut Bindings) -> (r: (
    bool,
    Ghost<nat>,
))
    ensures
        !unify_variable_spent(old(bindings).entries(), term1@, term2@, r.1@),
        (r.0, final(bindings).entries()) == unify_variable_outcome(
            old(bindings).entries(),
            term1@,
            term2@,
            r.1@,
        ),
        final(bindings).marks() == old(bindings).marks(),
        final(bindings).counter() == old(bindings).counter(),
        final(bindings).entries() == old(bindings).entries() || free(final(bindings).entries())
            < free(old(bindings).entries()),
    decreases
            free(old(bindings).entries()),
            unsettled(old(bindings).entries(), term1@, term2@),
            size(term1@) + size(term2@),
            (if term1@ is Var {
                0nat
            } else {
                2nat
            }),
{
    let ghost entries = bindings.entries();
    let t1 = match bindings.instantiate(term1) {
        Some(t) => t,
        None => {
            return (false, Ghost(0));
        },
    };
    let t2 = match bindings.instantiate(term2) {
        Some(t) => t,
        None => {
            return (false, Ghost(0));
        },
    };
    proof {
        lemma_walk_settled(entries, term1@, entries.len());
        lemma_walk_settled(entries, term2@, entries.len());
        if unsettled(entries, term1@, term2@) == 0 {
            lemma_settled_walk(entries, term1@, entries.len());
            lemma_settled_walk(entries, term2@, entries.len());
        }
    }
    match &t1 {
        Term::Variable(Variable(v1, _)) => {
            match &t2 {
                Term::Variable(Variable(v2, _)) => {
                    if *v1 == *v2 {
                        return (true, Ghost(0));
                    }
                },
                _ => {},
            }
            proof {
                lemma_bind_unbound(entries, *v1 as int, t2@, isize::MAX + 1);
            }
            bindings.add(*v1, t2);
            (true, Ghost(0))
        },
        _ => {
            let r = unify_terms(&t1, &t2, bindings);
            (r.0, Ghost((r.1@ + 1) as nat))
        },
    }
}

/// A variable on the right is treated as a variable on the left: where the
/// first term is no variable and the second is one, the two may change
/// places.
pub proof fn lemma_unify_variable_second(
    entries: Seq<Binding>,
    t1: TermView,
    t2: TermView,
    fuel: nat,
)
    requires
        !(t1 is Var),
        t2 is Var,
    ensures
        unify_outcome(entries, t1, t2, fuel) == unify_outcome(entries, t2, t1, fuel),
{
}

/// Unification only adds bindings: those that were there are still there,
/// in their places, whether it succeeds or not.
pub proof fn lemma_unify_extends(entries: Seq<Binding>, t1: TermView, t2: TermView, fuel: nat)
    ensures
        entries.len() <= unify_outcome(entries, t1, t2, fuel).1.len(),
        unify_outcome(entries, t1, t2, fuel).1.take(entries.len() as int) == entries,
    decreases fuel, 1nat, 0nat,
{
    match (t1, t2) {
        (TermView::Compound(f, xs), TermView::Compound(g, ys)) => {
            if f == g && xs.len() == ys.len() {
                lemma_unify_all_extends(entries, xs, ys, 0, fuel);
            }
        },
        (TermView::Var(_, _), _) => {
            lemma_unify_variable_extends(entries, t1, t2, fuel);
        },
        (_, TermView::Var(_, _)) => {
            lemma_unify_variable_extends(entries, t2, t1, fuel);
        },
        _ => {},
    }
    assert(entries.take(entries.len() as int) =~= entries);
}

/// As `lemma_unify_extends`, for the arguments from the `i`-th on.
pub proof fn lemma_unify_all_extends(
    entries: Seq<Binding>,
    xs: Seq<TermView>,
    ys: Seq<TermView>,
    i: nat,
    fuel: nat,
)
    ensures
        entries.len() <= unify_all_outcome(entries, xs, ys, i, fuel).1.len(),
        unify_all_outcome(entries, xs, ys, i, fuel).1.take(entries.len() as int) == entries,
    decreases fuel, 0nat, xs.len() - i,
{
    assert(entries.take(entries.len() as int) =~= entries);
    if i >= xs.len() || i >= ys.len() {
    } else if fuel == 0 {
    } else {
        let first = unify_outcome(entries, xs[i as int], ys[i as int], (fuel - 1) as nat);
        lemma_unify_extends(entries, xs[i as int], ys[i as int], (fuel - 1) as nat);
        if first.0 {
            lemma_unify_all_extends(first.1, xs, ys, i + 1, fuel);
            let last = unify_all_outcome(first.1, xs, ys, i + 1, fuel).1;
            assert(last.take(entries.len() as int) =~= last.take(first.1.len() as int).take(
                entries.len() as int,
            ));
        }
    }
}

/// As `lemma_unify_extends`, where a variable is involved.
pub proof fn lemma_unify_variable_extends(
    entries: Seq<Binding>,
    t1: TermView,
    t2: TermView,
    fuel: nat,
)
    ensures
        entries.len() <= unify_variable_outcome(entries, t1, t2, fuel).1.len(),
        unify_variable_outcome(entries, t1, t2, fuel).1.take(entries.len() as int) == entries,
    decreases fuel, 0nat, 0nat,
{
    assert(entries.take(entries.len() as int) =~= entries);
    match (instantiation(entries, t1), instantiation(entries, t2)) {
        (Some(a), Some(b)) => {
            match a {
                TermView::Var(v1, _) => {
                    assert(entries.push((v1, b)).take(entries.len() as int) =~= entries);
                },
                _ => {
                    if fuel > 0 {
                        lemma_unify_extends(entries, a, b, (fuel - 1) as nat);
                    }
                },
            }
        },
        _ => {},
    }
}

/// Whether `unify_outcome` gives up somewhere for want of fuel.
pub open spec fn unify_spent(entries: Seq<Binding>, t1: TermView, t2: TermView, fuel: nat) -> bool
    decreases fuel, 1nat, 0nat,
{
    match (t1, t2) {
        (TermView::Atom(a), TermView::Atom(b)) => false,
        (TermView::Int(i), TermView::Int(j)) => false,
        (TermView::Compound(f, xs), TermView::Compound(g, ys)) => f == g && xs.len() == ys.len()
            && unify_all_spent(entries, xs, ys, 0, fuel),
        (TermView::Var(_, _), _) => unify_variable_spent(entries, t1, t2, fuel),
        (_, TermView::Var(_, _)) => unify_variable_spent(entries, t2, t1, fuel),
        _ => false,
    }
}

/// As `unify_spent`, for the arguments from the `i`-th on.
pub open spec fn unify_all_spent(
    entries: Seq<Binding>,
    xs: Seq<TermView>,
    ys: Seq<TermView>,
    i: nat,
    fuel: nat,
) -> bool
    decreases fuel, 0nat, xs.len() - i,
{
    if i >= xs.len() || i >= ys.len() {
        false
    } else if fuel == 0 {
        true
    } else {
        let first = unify_outcome(entries, xs[i as int], ys[i as int], (fuel - 1) as nat);
        unify_spent(entries, xs[i as int], ys[i as int], (fuel - 1) as nat) || (first.0
            && unify_all_spent(first.1, xs, ys, i + 1, fuel))
    }
}

/// As `unify_spent`, where a variable is involved.
pub open spec fn unify_variable_spent(
    entries: Seq<Binding>,
    t1: TermView,
    t2: TermView,
    fuel: nat,
) -> bool
    decreases fuel, 0nat, 0nat,
{
    match (instantiation(entries, t1), instantiation(entries, t2)) {
        (Some(a), Some(b)) => match a {
            TermView::Var(v1, _) => false,
            _ => fuel == 0 || unify_spent(entries, a, b, (fuel - 1) as nat),
        },
        _ => false,
    }
}

/// The fuel is a bound and no rule: where unification comes to its end
/// within some fuel, it comes to the same end within any greater fuel.
pub proof fn lemma_unify_fuel(
    entries: Seq<Binding>,
    t1: TermView,
    t2: TermView,
    fuel: nat,
    more: nat,
)
    requires
        !unify_spent(entries, t1, t2, fuel),
        fuel <= more,
    ensures
        !unify_spent(entries, t1, t2, more),
        unify_outcome(entries, t1, t2, more) == unify_outcome(entries, t1, t2, fuel),
    decreases fuel, 1nat, 0nat,
{
    match (t1, t2) {
        (TermView::Compound(f, xs), TermView::Compound(g, ys)) => {
            if f == g && xs.len() == ys.len() {
                lemma_unify_all_fuel(entries, xs, ys, 0, fuel, more);
            }
        },
        (TermView::Var(_, _), _) => {
            lemma_unify_variable_fuel(entries, t1, t2, fuel, more);
        },
        (_, TermView::Var(_, _)) => {
            lemma_unify_variable_fuel(entries, t2, t1, fuel, more);
        },
        _ => {},
    }
}

/// As `lemma_unify_fuel`, for the arguments from the `i`-th on.
pub proof fn lemma_unify_all_fuel(
    entries: Seq<Binding>,
    xs: Seq<TermView>,
    ys: Seq<TermView>,
    i: nat,
    fuel: nat,
    more: nat,
)
    requires
        !unify_all_spent(entries, xs, ys, i, fuel),
        fuel <= more,
    ensures
        !unify_all_spent(entries, xs, ys, i, more),
        unify_all_outcome(entries, xs, ys, i, more) == unify_all_outcome(entries, xs, ys, i, fuel),
    decreases fuel, 0nat, xs.len() - i,
{
    if i >= xs.len() || i >= ys.len() {
    } else {
        let first = unify_outcome(entries, xs[i as int], ys[i as int], (fuel - 1) as nat);
        lemma_unify_fuel(
            entries,
            xs[i as int],
            ys[i as int],
            (fuel - 1) as nat,
            (more - 1) as nat,
        );
        if first.0 {
            lemma_unify_all_fuel(first.1, xs, ys, i + 1, fuel, more);
        }
    }
}

/// As `lemma_unify_fuel`, where a variable is involved.
pub proof fn lemma_unify_variable_fuel(
    entries: Seq<Binding>,
    t1: TermView,
    t2: TermView,
    fuel: nat,
    more: nat,
)
    requires
        !unify_variable_spent(entries, t1, t2, fuel),
        fuel <= more,
    ensures
        !unify_variable_spent(entries, t1, t2, more),
        unify_variable_outcome(entries, t1, t2, more) == unify_variable_outcome(
            entries,
            t1,
            t2,
            fuel,
        ),
    decreases fuel, 0nat, 0nat,
{
    match (instantiation(entries, t1), instantiation(entries, t2)) {
        (Some(a), Some(b)) => {
            match a {
                TermView::Var(v1, _) => {},
                _ => {
                    lemma_unify_fuel(entries, a, b, (fuel - 1) as nat, (more - 1) as nat);
                },
            }
        },
        _ => {},
    }
}

} // verus!
