//! Unification is complete: where some instantiation makes two terms the
//! same, they unify. With soundness this makes success independent of the
//! order of the two terms, as long as no binding runs in a circle.

use vstd::prelude::*;
use crate::bindings::{
    Binding,
    instantiation,
    lemma_lookup_member,
    lemma_push_keeps,
    lemma_settled_walk,
    lemma_walk_all_each,
    lemma_walk_all_index,
    lemma_walk_settled,
    lookup,
    settled,
    walk,
    walk_all,
};
use crate::finite::lemma_instantiation_complete;
use crate::soundness::{
    all_named,
    lemma_plain_bindings_named,
    lemma_plain_named,
    lemma_unify_agrees,
    lemma_unify_keeps,
    lemma_unify_plain,
    lemma_walk_compose,
    lemma_walk_deeper,
    lemma_walk_named,
    lemma_walk_plain,
    lemma_walk_shrinks,
    named,
    nameless,
    plain_bindings,
};
use crate::term::{TermView, plain};
use crate::unify::{
    enough,
    lemma_sizes_index,
    lemma_unify_all_fuel,
    lemma_unify_extends,
    lemma_unify_fuel,
    size,
    sizes,
    unified,
    unify_all_outcome,
    unify_all_spent,
    unify_outcome,
    unify_spent,
    unify_variable_outcome,
    unify_variable_spent,
};

verus! {

/// A way to instantiate terms: what each term stands for.
pub type Meaning = spec_fn(TermView) -> TermView;

/// The meanings of the terms of a sequence.
pub open spec fn meanings(w: Meaning, terms: Seq<TermView>) -> Seq<TermView> {
    Seq::new(terms.len(), |i: int| w(terms[i]))
}

/// Whether the meaning leaves atoms and integers as they are and gives a
/// compound the meanings of its arguments.
pub open spec fn structural(w: Meaning) -> bool {
    &&& forall|s: Seq<char>| #[trigger] w(TermView::Atom(s)) == TermView::Atom(s)
    &&& forall|i: int| #[trigger] w(TermView::Int(i)) == TermView::Int(i)
    &&& forall|f: Seq<char>, args: Seq<TermView>| #[trigger]
        w(TermView::Compound(f, args)) == TermView::Compound(f, meanings(w, args))
}

/// Whether the meaning agrees with the bindings: a bound variable means
/// what the term means that it is bound to.
pub open spec fn models(w: Meaning, entries: Seq<Binding>) -> bool {
    forall|v: int| (#[trigger] lookup(entries, v)) is Some ==> w(TermView::Var(v, None)) == w(
        lookup(entries, v)->0,
    )
}

/// Whether no binding runs in a circle: every bound term has a finite
/// instantiation.
pub open spec fn acyclic(entries: Seq<Binding>) -> bool {
    forall|i: int| 0 <= i < entries.len() ==> instantiation(entries, (#[trigger] entries[i]).1) is Some
}

/// Whether the variable with the identity `v` stands in the term.
pub open spec fn var_in(v: int, t: TermView) -> bool
    decreases t,
{
    match t {
        TermView::Var(u, _) => u == v,
        TermView::Compound(_, args) => exists|i: int|
            0 <= i < args.len() && var_in(v, #[trigger] args[i]),
        _ => false,
    }
}

/// A term means what its walk means.
pub proof fn lemma_models_walk(w: Meaning, entries: Seq<Binding>, t: TermView, depth: nat)
    requires
        structural(w),
        models(w, entries),
        named(t, nameless()),
        all_named(entries, nameless()),
        walk(entries, t, depth) is Some,
    ensures
        w(t) == w(walk(entries, t, depth)->0),
    decreases depth, t,
{
    match t {
        TermView::Var(v, _) => {
            match lookup(entries, v) {
                None => {},
                Some(bound) => {
                    lemma_lookup_member(entries, v);
                    lemma_models_walk(w, entries, bound, (depth - 1) as nat);
                },
            }
        },
        TermView::Compound(f, args) => {
            let walked = walk_all(entries, args, depth)->0;
            lemma_walk_all_index(entries, args, depth);
            assert forall|i: int| 0 <= i < args.len() implies w(args[i]) == w(walked[i]) by {
                assert(walk(entries, args[i], depth) == Some(walked[i]));
                lemma_models_walk(w, entries, args[i], depth);
            }
            assert(meanings(w, args) =~= meanings(w, walked));
        },
        _ => {},
    }
}

/// What a variable means is not larger than what a term means in which it
/// stands, and smaller where that term is a compound.
pub proof fn lemma_var_in_size(w: Meaning, v: int, t: TermView)
    requires
        structural(w),
        named(t, nameless()),
        var_in(v, t),
    ensures
        size(w(TermView::Var(v, None))) <= size(w(t)),
        t is Compound ==> size(w(TermView::Var(v, None))) < size(w(t)),
    decreases t,
{
    match t {
        TermView::Compound(f, args) => {
            let i = choose|i: int| 0 <= i < args.len() && var_in(v, #[trigger] args[i]);
            lemma_var_in_size(w, v, args[i]);
            lemma_sizes_index(meanings(w, args), i);
            assert(meanings(w, args)[i] == w(args[i]));
            assert(w(t) == TermView::Compound(f, meanings(w, args)));
            assert(size(w(t)) == 1 + sizes(meanings(w, args)));
        },
        _ => {},
    }
}

/// A term in which a newly bound variable does not stand, and which held
/// no bound variable before, holds none afterwards.
pub proof fn lemma_settled_after(entries: Seq<Binding>, v: int, b: TermView, t: TermView)
    requires
        lookup(entries, v) is None,
        settled(entries, t),
        !var_in(v, t),
    ensures
        settled(entries.push((v, b)), t),
    decreases t,
{
    lemma_push_keeps(entries, v, b);
    assert(entries.push((v, b)).drop_last() =~= entries);
    match t {
        TermView::Compound(f, args) => {
            assert forall|i: int| 0 <= i < args.len() implies settled(
                entries.push((v, b)),
                #[trigger] args[i],
            ) by {
                lemma_settled_after(entries, v, b, args[i]);
            }
        },
        _ => {},
    }
}

/// After a variable is bound to a term that holds no bound variable, a
/// term that held no bound variable before has a walk of one step.
pub proof fn lemma_one_step(entries: Seq<Binding>, v: int, b: TermView, t: TermView)
    requires
        lookup(entries, v) is None,
        settled(entries.push((v, b)), b),
        settled(entries, t),
    ensures
        walk(entries.push((v, b)), t, 1) is Some,
    decreases t,
{
    let after = entries.push((v, b));
    assert(after.drop_last() =~= entries);
    match t {
        TermView::Var(u, _) => {
            if u == v {
                lemma_settled_walk(after, b, 0);
            }
        },
        TermView::Compound(f, args) => {
            let walked = Seq::new(args.len(), |i: int| walk(after, args[i], 1)->0);
            assert forall|i: int| 0 <= i < args.len() implies walk(after, #[trigger] args[i], 1)
                == Some(walked[i]) by {
                lemma_one_step(entries, v, b, args[i]);
            }
            lemma_walk_all_each(after, args, 1, walked);
        },
        _ => {},
    }
}

/// Binding an unbound variable to a term in which it does not stand, and
/// which holds no bound variable, makes no circle.
pub proof fn lemma_push_acyclic(entries: Seq<Binding>, v: int, b: TermView)
    requires
        acyclic(entries),
        lookup(entries, v) is None,
        settled(entries, b),
        !var_in(v, b),
    ensures
        acyclic(entries.push((v, b))),
{
    let after = entries.push((v, b));
    lemma_settled_after(entries, v, b, b);
    lemma_push_keeps(entries, v, b);
    assert forall|i: int| 0 <= i < after.len() implies instantiation(
        after,
        (#[trigger] after[i]).1,
    ) is Some by {
        if i < entries.len() {
            let t = entries[i].1;
            assert(after[i] == entries[i]);
            let n = entries.len();
            lemma_walk_settled(entries, t, n);
            lemma_one_step(entries, v, b, walk(entries, t, n)->0);
            lemma_walk_compose(entries, after, t, n, 1);
            lemma_instantiation_complete(after, t, n + 1);
        } else {
            lemma_settled_walk(after, b, after.len());
        }
    }
}

/// Where no binding runs in a circle, every term has a finite
/// instantiation.
pub proof fn lemma_acyclic_total(entries: Seq<Binding>, t: TermView)
    requires
        acyclic(entries),
    ensures
        instantiation(entries, t) is Some,
    decreases t,
{
    let n = entries.len();
    match t {
        TermView::Var(v, _) => {
            match lookup(entries, v) {
                None => {},
                Some(bound) => {
                    lemma_lookup_member(entries, v);
                    assert(walk(entries, t, n + 1) == walk(entries, bound, n));
                    lemma_instantiation_complete(entries, t, n + 1);
                },
            }
        },
        TermView::Compound(f, args) => {
            let walked = Seq::new(args.len(), |i: int| walk(entries, args[i], n)->0);
            assert forall|i: int| 0 <= i < args.len() implies walk(entries, #[trigger] args[i], n)
                == Some(walked[i]) by {
                lemma_acyclic_total(entries, args[i]);
            }
            lemma_walk_all_each(entries, args, n, walked);
        },
        _ => {},
    }
}

/// What a term that is no variable means has the shape of the term.
pub proof fn lemma_meaning_shape(w: Meaning, t: TermView)
    requires
        structural(w),
    ensures
        t is Atom ==> w(t) == t,
        t is Int ==> w(t) == t,
        t is Compound ==> w(t) == TermView::Compound(
            t->Compound_0,
            meanings(w, t->Compound_1),
        ),
{
    match t {
        TermView::Atom(s) => {
            assert(w(TermView::Atom(s)) == TermView::Atom(s));
        },
        TermView::Int(i) => {
            assert(w(TermView::Int(i)) == TermView::Int(i));
        },
        TermView::Compound(f, args) => {
            assert(w(TermView::Compound(f, args)) == TermView::Compound(f, meanings(w, args)));
        },
        _ => {},
    }
}

/// 0 where neither term is a variable, 1 where one is and neither holds a
/// bound variable, else 2.
pub open spec fn phase(entries: Seq<Binding>, x: TermView, y: TermView) -> nat {
    if !(x is Var) && !(y is Var) {
        0
    } else if settled(entries, x) && settled(entries, y) {
        1
    } else {
        2
    }
}

/// Two terms that mean the same unify: unification comes to its end and
/// succeeds, and the bindings that it leaves agree with the meaning and
/// run in no circle. The fuel that it needs is handed back.
pub proof fn lemma_unify_complete(w: Meaning, entries: Seq<Binding>, x: TermView, y: TermView) -> (fuel:
    nat)
    requires
        structural(w),
        models(w, entries),
        acyclic(entries),
        all_named(entries, nameless()),
        named(x, nameless()),
        named(y, nameless()),
        w(x) == w(y),
    ensures
        !unify_spent(entries, x, y, fuel),
        unify_outcome(entries, x, y, fuel).0,
        models(w, unify_outcome(entries, x, y, fuel).1),
        acyclic(unify_outcome(entries, x, y, fuel).1),
        all_named(unify_outcome(entries, x, y, fuel).1, nameless()),
    decreases size(w(x)), 2 * phase(entries, x, y) + 1, 0nat,
{
    lemma_meaning_shape(w, x);
    lemma_meaning_shape(w, y);
    match (x, y) {
        (TermView::Atom(a), TermView::Atom(b)) => 0,
        (TermView::Int(i), TermView::Int(j)) => 0,
        (TermView::Compound(f, xs), TermView::Compound(g, ys)) => {
            assert(w(x) == TermView::Compound(f, meanings(w, xs)));
            assert(w(y) == TermView::Compound(g, meanings(w, ys)));
            assert(meanings(w, xs).len() == xs.len());
            assert(meanings(w, ys).len() == ys.len());
            assert forall|j: int| 0 <= j < xs.len() implies w(#[trigger] xs[j]) == w(ys[j])
                && size(w(xs[j])) < size(w(x)) by {
                assert(meanings(w, xs)[j] == w(xs[j]));
                assert(meanings(w, ys)[j] == w(ys[j]));
                lemma_sizes_index(meanings(w, xs), j);
            }
            lemma_unify_all_complete(w, entries, xs, ys, 0, size(w(x)))
        },
        (TermView::Var(_, _), _) => lemma_unify_variable_complete(w, entries, x, y),
        (_, TermView::Var(_, _)) => lemma_unify_variable_complete(w, entries, y, x),
        _ => {
            assert(false);
            0
        },
    }
}

/// As `lemma_unify_complete`, for the arguments from the `i`-th on, whose
/// meanings are all smaller than `bound`.
pub proof fn lemma_unify_all_complete(
    w: Meaning,
    entries: Seq<Binding>,
    xs: Seq<TermView>,
    ys: Seq<TermView>,
    i: nat,
    bound: nat,
) -> (fuel: nat)
    requires
        structural(w),
        models(w, entries),
        acyclic(entries),
        all_named(entries, nameless()),
        xs.len() == ys.len(),
        i <= xs.len(),
        forall|j: int| 0 <= j < xs.len() ==> named(#[trigger] xs[j], nameless()),
        forall|j: int| 0 <= j < ys.len() ==> named(#[trigger] ys[j], nameless()),
        forall|j: int| 0 <= j < xs.len() ==> w(#[trigger] xs[j]) == w(ys[j]) && size(w(xs[j])) < bound,
    ensures
        !unify_all_spent(entries, xs, ys, i, fuel),
        unify_all_outcome(entries, xs, ys, i, fuel).0,
        models(w, unify_all_outcome(entries, xs, ys, i, fuel).1),
        acyclic(unify_all_outcome(entries, xs, ys, i, fuel).1),
        all_named(unify_all_outcome(entries, xs, ys, i, fuel).1, nameless()),
    decreases bound, 0nat, xs.len() - i,
{
    if i >= xs.len() {
        0
    } else {
        let first = lemma_unify_complete(w, entries, xs[i as int], ys[i as int]);
        let between = unify_outcome(entries, xs[i as int], ys[i as int], first).1;
        let rest = lemma_unify_all_complete(w, between, xs, ys, i + 1, bound);
        let fuel: nat = if first + 1 <= rest {
            rest
        } else {
            first + 1
        };
        lemma_unify_fuel(entries, xs[i as int], ys[i as int], first, (fuel - 1) as nat);
        lemma_unify_all_fuel(between, xs, ys, i + 1, rest, fuel);
        fuel
    }
}

/// As `lemma_unify_complete`, where the first term is a variable.
pub proof fn lemma_unify_variable_complete(
    w: Meaning,
    entries: Seq<Binding>,
    t1: TermView,
    t2: TermView,
) -> (fuel: nat)
    requires
        structural(w),
        models(w, entries),
        acyclic(entries),
        all_named(entries, nameless()),
        named(t1, nameless()),
        named(t2, nameless()),
        w(t1) == w(t2),
        t1 is Var,
    ensures
        !unify_variable_spent(entries, t1, t2, fuel),
        unify_variable_outcome(entries, t1, t2, fuel).0,
        models(w, unify_variable_outcome(entries, t1, t2, fuel).1),
        acyclic(unify_variable_outcome(entries, t1, t2, fuel).1),
        all_named(unify_variable_outcome(entries, t1, t2, fuel).1, nameless()),
    decreases size(w(t1)), 2 * phase(entries, t1, t2), 0nat,
{
    let n = entries.len();
    lemma_acyclic_total(entries, t1);
    lemma_acyclic_total(entries, t2);
    let a = instantiation(entries, t1)->0;
    let b = instantiation(entries, t2)->0;
    lemma_walk_settled(entries, t1, n);
    lemma_walk_settled(entries, t2, n);
    lemma_walk_named(entries, t1, n, nameless());
    lemma_walk_named(entries, t2, n, nameless());
    lemma_models_walk(w, entries, t1, n);
    lemma_models_walk(w, entries, t2, n);
    match a {
        TermView::Var(v1, _) => {
            if b is Var && b->Var_0 == v1 {
                0
            } else {
                if var_in(v1, b) {
                    lemma_var_in_size(w, v1, b);
                    assert(false);
                }
                lemma_push_acyclic(entries, v1, b);
                lemma_push_keeps(entries, v1, b);
                let after = entries.push((v1, b));
                assert(after.drop_last() =~= entries);
                assert forall|u: int| (#[trigger] lookup(after, u)) is Some implies w(
                    TermView::Var(u, None),
                ) == w(lookup(after, u)->0) by {
                    if u != v1 {
                        assert(lookup(after, u) == lookup(entries, u));
                    }
                }
                0
            }
        },
        _ => {
            if settled(entries, t1) {
                lemma_settled_walk(entries, t1, n);
                assert(false);
            }
            let f = lemma_unify_complete(w, entries, a, b);
            f + 1
        },
    }
}

/// The meaning that bindings without circle give: each term means its
/// instantiation.
pub open spec fn meaning_of(entries: Seq<Binding>) -> Meaning {
    |t: TermView| instantiation(entries, t)->0
}

/// Where two terms without display names unify and no binding runs in a
/// circle afterwards, they unify in the other order too. The fuel that
/// this needs is handed back.
pub proof fn lemma_unify_other_order(
    entries: Seq<Binding>,
    t1: TermView,
    t2: TermView,
    fuel: nat,
) -> (other: nat)
    requires
        named(t1, nameless()),
        named(t2, nameless()),
        all_named(entries, nameless()),
        unify_outcome(entries, t1, t2, fuel).0,
        acyclic(unify_outcome(entries, t1, t2, fuel).1),
    ensures
        !unify_spent(entries, t2, t1, other),
        unify_outcome(entries, t2, t1, other).0,
        structural(meaning_of(unify_outcome(entries, t1, t2, fuel).1)),
        models(
            meaning_of(unify_outcome(entries, t1, t2, fuel).1),
            unify_outcome(entries, t2, t1, other).1,
        ),
        acyclic(unify_outcome(entries, t2, t1, other).1),
        all_named(unify_outcome(entries, t2, t1, other).1, nameless()),
{
    let after = unify_outcome(entries, t1, t2, fuel).1;
    let n = after.len();
    let w = meaning_of(after);
    lemma_unify_keeps(entries, t1, t2, fuel, nameless());
    lemma_unify_extends(entries, t1, t2, fuel);
    lemma_unify_agrees(entries, t1, t2, fuel, nameless());
    assert forall|s: Seq<char>| #[trigger] w(TermView::Atom(s)) == TermView::Atom(s) by {}
    assert forall|i: int| #[trigger] w(TermView::Int(i)) == TermView::Int(i) by {}
    assert forall|f: Seq<char>, args: Seq<TermView>| #[trigger]
        w(TermView::Compound(f, args)) == TermView::Compound(f, meanings(w, args)) by {
        lemma_acyclic_total(after, TermView::Compound(f, args));
        lemma_walk_all_index(after, args, n);
        let walked = walk_all(after, args, n)->0;
        assert forall|i: int| 0 <= i < args.len() implies walked[i] == meanings(w, args)[i] by {
            assert(walk(after, args[i], n) == Some(walked[i]));
        }
        assert(walked =~= meanings(w, args));
    }
    assert forall|v: int| (#[trigger] lookup(entries, v)) is Some implies w(
        TermView::Var(v, None),
    ) == w(lookup(entries, v)->0) by {
        let bound = lookup(entries, v)->0;
        assert(lookup(after, v) == Some(bound));
        lemma_acyclic_total(after, TermView::Var(v, None));
        lemma_walk_deeper(after, bound, (n - 1) as nat, n);
    }
    assert forall|i: int| 0 <= i < entries.len() implies instantiation(
        entries,
        (#[trigger] entries[i]).1,
    ) is Some by {
        assert(after.take(entries.len() as int)[i] == after[i]);
        assert(instantiation(after, after[i].1) is Some);
        lemma_walk_shrinks(entries, after, entries[i].1, n);
        lemma_instantiation_complete(entries, entries[i].1, n);
    }
    lemma_acyclic_total(after, t1);
    lemma_acyclic_total(after, t2);
    assert(walk(after, t1, n) == walk(after, t2, n));
    lemma_unify_complete(w, entries, t2, t1)
}

/// The order of the two terms does not decide success: where two terms
/// unify and no binding runs in a circle afterwards, they unify in the
/// other order too.
pub proof fn lemma_unify_symmetric(entries: Seq<Binding>, t1: TermView, t2: TermView)
    requires
        unified(entries, t1, t2).0,
        acyclic(unified(entries, t1, t2).1),
    ensures
        unified(entries, t2, t1).0,
        !unify_spent(entries, t2, t1, enough(entries, t2, t1)),
{
    let fuel = enough(entries, t1, t2);
    let after = unified(entries, t1, t2).1;
    lemma_unify_plain(entries, t1, t2, fuel);
    lemma_plain_named(t1);
    lemma_plain_named(t2);
    lemma_plain_bindings_named(entries);
    assert forall|i: int| 0 <= i < plain_bindings(after).len() implies instantiation(
        plain_bindings(after),
        (#[trigger] plain_bindings(after)[i]).1,
    ) is Some by {
        assert(instantiation(after, after[i].1) is Some);
        lemma_walk_plain(after, after[i].1, after.len());
    }
    let other = lemma_unify_other_order(plain_bindings(entries), plain(t1), plain(t2), fuel);
    lemma_unify_plain(entries, t2, t1, other);
    let chosen = enough(entries, t2, t1);
    if other <= chosen {
        lemma_unify_fuel(entries, t2, t1, other, chosen);
    } else {
        lemma_unify_fuel(entries, t2, t1, chosen, other);
    }
}

/// The two orders give answers that refine each other: where two terms
/// unify and no binding runs in a circle afterwards, every term has a
/// finite instantiation under the bindings that the other order leaves,
/// and instantiating that once more under the bindings of this order
/// gives what instantiating the term under them gives. Display names do
/// not count. The instantiations themselves may differ: `X` against `Y`
/// binds `X`, `Y` against `X` binds `Y`.
pub proof fn lemma_orders_refine(entries: Seq<Binding>, t1: TermView, t2: TermView, t: TermView)
    requires
        unified(entries, t1, t2).0,
        acyclic(unified(entries, t1, t2).1),
    ensures
        instantiation(unified(entries, t2, t1).1, t) is Some,
        instantiation(unified(entries, t1, t2).1, t) is Some,
        instantiation(
            unified(entries, t1, t2).1,
            instantiation(unified(entries, t2, t1).1, t)->0,
        ) is Some,
        plain(
            instantiation(
                unified(entries, t1, t2).1,
                instantiation(unified(entries, t2, t1).1, t)->0,
            )->0,
        ) == plain(instantiation(unified(entries, t1, t2).1, t)->0),
{
    let fuel = enough(entries, t1, t2);
    let first = unified(entries, t1, t2).1;
    let second = unified(entries, t2, t1).1;
    lemma_unify_plain(entries, t1, t2, fuel);
    lemma_plain_named(t1);
    lemma_plain_named(t2);
    lemma_plain_named(t);
    lemma_plain_bindings_named(entries);
    assert forall|i: int| 0 <= i < plain_bindings(first).len() implies instantiation(
        plain_bindings(first),
        (#[trigger] plain_bindings(first)[i]).1,
    ) is Some by {
        assert(instantiation(first, first[i].1) is Some);
        lemma_walk_plain(first, first[i].1, first.len());
    }
    let other = lemma_unify_other_order(plain_bindings(entries), plain(t1), plain(t2), fuel);
    lemma_unify_plain(entries, t2, t1, other);
    let chosen = enough(entries, t2, t1);
    if other <= chosen {
        lemma_unify_fuel(entries, t2, t1, other, chosen);
    } else {
        lemma_unify_fuel(entries, t2, t1, chosen, other);
    }
    let w = meaning_of(plain_bindings(first));
    lemma_acyclic_total(plain_bindings(second), plain(t));
    lemma_walk_plain(second, t, second.len());
    let r = instantiation(second, t)->0;
    lemma_models_walk(w, plain_bindings(second), plain(t), second.len());
    lemma_acyclic_total(plain_bindings(first), plain(t));
    lemma_acyclic_total(plain_bindings(first), plain(r));
    lemma_walk_plain(first, t, first.len());
    lemma_walk_plain(first, r, first.len());
}

} // verus!
