//! Unification is sound: where two terms unify, they have the same
//! instantiation afterwards.

use vstd::prelude::*;
use crate::bindings::{
    Binding,
    instantiation,
    keeps,
    lemma_lookup_member,
    lemma_push_keeps,
    lemma_walk_all_each,
    lemma_walk_all_index,
    lemma_walk_settled,
    lookup,
    walk,
    walk_all,
};
use crate::finite::lemma_instantiation_complete;
use crate::term::{TermView, alike, lemma_plain_all_index, plain, plain_all};
use crate::unify::{
    enough,
    unified,
    unify_all_outcome,
    unify_all_spent,
    unify_outcome,
    unify_spent,
    unify_variable_outcome,
    unify_variable_spent,
};

verus! {

/// Whether every variable of the term is shown under the name that `names`
/// gives for its identity.
pub open spec fn named(t: TermView, names: spec_fn(int) -> Option<Seq<char>>) -> bool
    decreases t,
{
    match t {
        TermView::Var(v, name) => names(v) == name,
        TermView::Compound(_, args) => forall|i: int|
            0 <= i < args.len() ==> named(#[trigger] args[i], names),
        _ => true,
    }
}

/// `named` of every bound term.
pub open spec fn all_named(entries: Seq<Binding>, names: spec_fn(int) -> Option<Seq<char>>) -> bool {
    forall|i: int| 0 <= i < entries.len() ==> named((#[trigger] entries[i]).1, names)
}

/// Whether the two terms walk to the same term, at whatever depths they
/// have a walk.
pub open spec fn agree(entries: Seq<Binding>, x: TermView, y: TermView) -> bool {
    forall|d1: nat, d2: nat|
        (#[trigger] walk(entries, x, d1)) is Some && (#[trigger] walk(entries, y, d2)) is Some
            ==> walk(entries, x, d1) == walk(entries, y, d2)
}

/// A walk that exists at one depth is the same at every greater depth.
pub proof fn lemma_walk_deeper(entries: Seq<Binding>, t: TermView, depth: nat, deeper: nat)
    requires
        walk(entries, t, depth) is Some,
        depth <= deeper,
    ensures
        walk(entries, t, deeper) == walk(entries, t, depth),
    decreases depth, t,
{
    match t {
        TermView::Var(v, _) => {
            match lookup(entries, v) {
                None => {},
                Some(bound) => {
                    lemma_walk_deeper(entries, bound, (depth - 1) as nat, (deeper - 1) as nat);
                },
            }
        },
        TermView::Compound(f, args) => {
            let walked = walk_all(entries, args, depth)->0;
            lemma_walk_all_index(entries, args, depth);
            assert forall|i: int| 0 <= i < args.len() implies walk(
                entries,
                #[trigger] args[i],
                deeper,
            ) == Some(walked[i]) by {
                lemma_walk_deeper(entries, args[i], depth, deeper);
            }
            lemma_walk_all_each(entries, args, deeper, walked);
        },
        _ => {},
    }
}

/// The walk of a term does not depend on the depth at which it exists.
pub proof fn lemma_walk_one(entries: Seq<Binding>, t: TermView, d1: nat, d2: nat)
    requires
        walk(entries, t, d1) is Some,
        walk(entries, t, d2) is Some,
    ensures
        walk(entries, t, d1) == walk(entries, t, d2),
{
    if d1 <= d2 {
        lemma_walk_deeper(entries, t, d1, d2);
    } else {
        lemma_walk_deeper(entries, t, d2, d1);
    }
}

/// A term that has a walk under more bindings has one under fewer, at the
/// same depth.
pub proof fn lemma_walk_shrinks(before: Seq<Binding>, after: Seq<Binding>, t: TermView, depth: nat)
    requires
        keeps(before, after),
        walk(after, t, depth) is Some,
    ensures
        walk(before, t, depth) is Some,
    decreases depth, t,
{
    match t {
        TermView::Var(v, _) => {
            match lookup(before, v) {
                None => {},
                Some(bound) => {
                    lemma_walk_shrinks(before, after, bound, (depth - 1) as nat);
                },
            }
        },
        TermView::Compound(f, args) => {
            lemma_walk_all_index(after, args, depth);
            let walked = Seq::new(args.len(), |i: int| walk(before, args[i], depth)->0);
            assert forall|i: int| 0 <= i < args.len() implies walk(
                before,
                #[trigger] args[i],
                depth,
            ) == Some(walked[i]) by {
                lemma_walk_shrinks(before, after, args[i], depth);
            }
            lemma_walk_all_each(before, args, depth, walked);
        },
        _ => {},
    }
}

/// Under more bindings, a term and its walk under fewer bindings walk to
/// the same term.
pub proof fn lemma_walk_extend(
    before: Seq<Binding>,
    after: Seq<Binding>,
    t: TermView,
    depth: nat,
    later: nat,
)
    requires
        keeps(before, after),
        walk(before, t, depth) is Some,
        walk(after, t, later) is Some,
    ensures
        walk(after, walk(before, t, depth)->0, later) == walk(after, t, later),
    decreases depth, t,
{
    match t {
        TermView::Var(v, _) => {
            match lookup(before, v) {
                None => {},
                Some(bound) => {
                    lemma_walk_extend(
                        before,
                        after,
                        bound,
                        (depth - 1) as nat,
                        (later - 1) as nat,
                    );
                    lemma_walk_deeper(
                        after,
                        walk(before, bound, (depth - 1) as nat)->0,
                        (later - 1) as nat,
                        later,
                    );
                },
            }
        },
        TermView::Compound(f, args) => {
            let first = walk_all(before, args, depth)->0;
            let second = walk_all(after, args, later)->0;
            lemma_walk_all_index(before, args, depth);
            lemma_walk_all_index(after, args, later);
            assert forall|i: int| 0 <= i < first.len() implies walk(
                after,
                #[trigger] first[i],
                later,
            ) == Some(second[i]) by {
                assert(walk(before, args[i], depth) == Some(first[i]));
                assert(walk(after, args[i], later) == Some(second[i]));
                lemma_walk_extend(before, after, args[i], depth, later);
            }
            lemma_walk_all_each(after, first, later, second);
        },
        _ => {},
    }
}

/// The walk of a term keeps the names of the variables.
pub proof fn lemma_walk_named(
    entries: Seq<Binding>,
    t: TermView,
    depth: nat,
    names: spec_fn(int) -> Option<Seq<char>>,
)
    requires
        named(t, names),
        all_named(entries, names),
        walk(entries, t, depth) is Some,
    ensures
        named(walk(entries, t, depth)->0, names),
    decreases depth, t,
{
    match t {
        TermView::Var(v, _) => {
            match lookup(entries, v) {
                None => {},
                Some(bound) => {
                    lemma_lookup_member(entries, v);
                    lemma_walk_named(entries, bound, (depth - 1) as nat, names);
                },
            }
        },
        TermView::Compound(f, args) => {
            let walked = walk_all(entries, args, depth)->0;
            lemma_walk_all_index(entries, args, depth);
            assert forall|i: int| 0 <= i < walked.len() implies named(
                #[trigger] walked[i],
                names,
            ) by {
                assert(walk(entries, args[i], depth) == Some(walked[i]));
                lemma_walk_named(entries, args[i], depth, names);
            }
        },
        _ => {},
    }
}

/// Terms that agree go on agreeing under more bindings.
pub proof fn lemma_agree_stable(
    before: Seq<Binding>,
    after: Seq<Binding>,
    x: TermView,
    y: TermView,
)
    requires
        keeps(before, after),
        agree(before, x, y),
    ensures
        agree(after, x, y),
{
    assert forall|d1: nat, d2: nat|
        (#[trigger] walk(after, x, d1)) is Some && (#[trigger] walk(after, y, d2)) is Some implies walk(
        after,
        x,
        d1,
    ) == walk(after, y, d2) by {
        lemma_walk_shrinks(before, after, x, d1);
        lemma_walk_shrinks(before, after, y, d2);
        assert(walk(before, x, d1) == walk(before, y, d2));
        let r = walk(before, x, d1)->0;
        lemma_walk_extend(before, after, x, d1, d1);
        lemma_walk_extend(before, after, y, d2, d2);
        lemma_walk_one(after, r, d1, d2);
    }
}

/// Unification keeps what was bound and the names of the variables,
/// whether it succeeds or not.
pub proof fn lemma_unify_keeps(
    entries: Seq<Binding>,
    t1: TermView,
    t2: TermView,
    fuel: nat,
    names: spec_fn(int) -> Option<Seq<char>>,
)
    requires
        named(t1, names),
        named(t2, names),
        all_named(entries, names),
    ensures
        keeps(entries, unify_outcome(entries, t1, t2, fuel).1),
        all_named(unify_outcome(entries, t1, t2, fuel).1, names),
    decreases fuel, 1nat, 0nat,
{
    match (t1, t2) {
        (TermView::Atom(a), TermView::Atom(b)) => {},
        (TermView::Int(i), TermView::Int(j)) => {},
        (TermView::Compound(f, xs), TermView::Compound(g, ys)) => {
            if f == g && xs.len() == ys.len() {
                lemma_unify_all_keeps(entries, xs, ys, 0, fuel, names);
            }
        },
        (TermView::Var(_, _), _) => {
            lemma_unify_variable_keeps(entries, t1, t2, fuel, names);
        },
        (_, TermView::Var(_, _)) => {
            lemma_unify_variable_keeps(entries, t2, t1, fuel, names);
        },
        _ => {},
    }
}

/// As `lemma_unify_keeps`, for the arguments from the `i`-th on.
pub proof fn lemma_unify_all_keeps(
    entries: Seq<Binding>,
    xs: Seq<TermView>,
    ys: Seq<TermView>,
    i: nat,
    fuel: nat,
    names: spec_fn(int) -> Option<Seq<char>>,
)
    requires
        forall|j: int| 0 <= j < xs.len() ==> named(#[trigger] xs[j], names),
        forall|j: int| 0 <= j < ys.len() ==> named(#[trigger] ys[j], names),
        all_named(entries, names),
    ensures
        keeps(entries, unify_all_outcome(entries, xs, ys, i, fuel).1),
        all_named(unify_all_outcome(entries, xs, ys, i, fuel).1, names),
    decreases fuel, 0nat, xs.len() - i,
{
    if i >= xs.len() || i >= ys.len() {
    } else if fuel == 0 {
    } else {
        let first = unify_outcome(entries, xs[i as int], ys[i as int], (fuel - 1) as nat);
        lemma_unify_keeps(entries, xs[i as int], ys[i as int], (fuel - 1) as nat, names);
        if first.0 {
            lemma_unify_all_keeps(first.1, xs, ys, i + 1, fuel, names);
            let last = unify_all_outcome(first.1, xs, ys, i + 1, fuel).1;
            assert forall|v: int| (#[trigger] lookup(entries, v)) is Some implies lookup(last, v)
                == lookup(entries, v) by {
                assert(lookup(first.1, v) == lookup(entries, v));
            }
        }
    }
}

/// As `lemma_unify_keeps`, where a variable is involved.
pub proof fn lemma_unify_variable_keeps(
    entries: Seq<Binding>,
    t1: TermView,
    t2: TermView,
    fuel: nat,
    names: spec_fn(int) -> Option<Seq<char>>,
)
    requires
        named(t1, names),
        named(t2, names),
        all_named(entries, names),
    ensures
        keeps(entries, unify_variable_outcome(entries, t1, t2, fuel).1),
        all_named(unify_variable_outcome(entries, t1, t2, fuel).1, names),
    decreases fuel, 0nat, 0nat,
{
    match (instantiation(entries, t1), instantiation(entries, t2)) {
        (Some(a), Some(b)) => {
            lemma_walk_named(entries, t1, entries.len(), names);
            lemma_walk_named(entries, t2, entries.len(), names);
            match a {
                TermView::Var(v1, _) => {
                    if !(b is Var && b->Var_0 == v1) {
                        lemma_walk_settled(entries, t1, entries.len());
                        lemma_push_keeps(entries, v1, b);
                    }
                },
                _ => {
                    if fuel > 0 {
                        lemma_unify_keeps(entries, a, b, (fuel - 1) as nat, names);
                    }
                },
            }
        },
        _ => {},
    }
}

/// Where two terms unify, they agree under the bindings that unification
/// leaves.
pub proof fn lemma_unify_agrees(
    entries: Seq<Binding>,
    t1: TermView,
    t2: TermView,
    fuel: nat,
    names: spec_fn(int) -> Option<Seq<char>>,
)
    requires
        named(t1, names),
        named(t2, names),
        all_named(entries, names),
        unify_outcome(entries, t1, t2, fuel).0,
    ensures
        agree(unify_outcome(entries, t1, t2, fuel).1, t1, t2),
    decreases fuel, 1nat, 0nat,
{
    let after = unify_outcome(entries, t1, t2, fuel).1;
    match (t1, t2) {
        (TermView::Atom(a), TermView::Atom(b)) => {},
        (TermView::Int(i), TermView::Int(j)) => {},
        (TermView::Compound(f, xs), TermView::Compound(g, ys)) => {
            lemma_unify_all_agrees(entries, xs, ys, 0, fuel, names);
            assert forall|d1: nat, d2: nat|
                (#[trigger] walk(after, t1, d1)) is Some && (#[trigger] walk(after, t2, d2))
                    is Some implies walk(after, t1, d1) == walk(after, t2, d2) by {
                let first = walk_all(after, xs, d1)->0;
                let second = walk_all(after, ys, d2)->0;
                lemma_walk_all_index(after, xs, d1);
                lemma_walk_all_index(after, ys, d2);
                assert forall|i: int| 0 <= i < xs.len() implies first[i] == second[i] by {
                    assert(agree(after, xs[i], ys[i]));
                    assert(walk(after, xs[i], d1) == Some(first[i]));
                    assert(walk(after, ys[i], d2) == Some(second[i]));
                }
                assert(first =~= second);
            }
        },
        (TermView::Var(_, _), _) => {
            lemma_unify_variable_agrees(entries, t1, t2, fuel, names);
        },
        (_, TermView::Var(_, _)) => {
            lemma_unify_variable_agrees(entries, t2, t1, fuel, names);
            assert forall|d1: nat, d2: nat|
                (#[trigger] walk(after, t1, d1)) is Some && (#[trigger] walk(after, t2, d2))
                    is Some implies walk(after, t1, d1) == walk(after, t2, d2) by {
                assert(walk(after, t2, d2) == walk(after, t1, d1));
            }
        },
        _ => {},
    }
}

/// As `lemma_unify_agrees`, for the arguments from the `i`-th on.
pub proof fn lemma_unify_all_agrees(
    entries: Seq<Binding>,
    xs: Seq<TermView>,
    ys: Seq<TermView>,
    i: nat,
    fuel: nat,
    names: spec_fn(int) -> Option<Seq<char>>,
)
    requires
        xs.len() == ys.len(),
        forall|j: int| 0 <= j < xs.len() ==> named(#[trigger] xs[j], names),
        forall|j: int| 0 <= j < ys.len() ==> named(#[trigger] ys[j], names),
        all_named(entries, names),
        unify_all_outcome(entries, xs, ys, i, fuel).0,
    ensures
        forall|j: int|
            i <= j < xs.len() ==> agree(
                unify_all_outcome(entries, xs, ys, i, fuel).1,
                #[trigger] xs[j],
                ys[j],
            ),
    decreases fuel, 0nat, xs.len() - i,
{
    if i < xs.len() {
        let first = unify_outcome(entries, xs[i as int], ys[i as int], (fuel - 1) as nat);
        lemma_unify_agrees(entries, xs[i as int], ys[i as int], (fuel - 1) as nat, names);
        lemma_unify_keeps(entries, xs[i as int], ys[i as int], (fuel - 1) as nat, names);
        lemma_unify_all_agrees(first.1, xs, ys, i + 1, fuel, names);
        lemma_unify_all_keeps(first.1, xs, ys, i + 1, fuel, names);
        let last = unify_all_outcome(first.1, xs, ys, i + 1, fuel).1;
        lemma_agree_stable(first.1, last, xs[i as int], ys[i as int]);
    }
}

/// As `lemma_unify_agrees`, where a variable is involved.
pub proof fn lemma_unify_variable_agrees(
    entries: Seq<Binding>,
    t1: TermView,
    t2: TermView,
    fuel: nat,
    names: spec_fn(int) -> Option<Seq<char>>,
)
    requires
        named(t1, names),
        named(t2, names),
        all_named(entries, names),
        unify_variable_outcome(entries, t1, t2, fuel).0,
    ensures
        agree(unify_variable_outcome(entries, t1, t2, fuel).1, t1, t2),
    decreases fuel, 0nat, 0nat,
{
    let after = unify_variable_outcome(entries, t1, t2, fuel).1;
    let a = instantiation(entries, t1)->0;
    let b = instantiation(entries, t2)->0;
    let n = entries.len();
    lemma_walk_named(entries, t1, n, names);
    lemma_walk_named(entries, t2, n, names);
    lemma_unify_variable_keeps(entries, t1, t2, fuel, names);
    match a {
        TermView::Var(v1, _) => {
            lemma_walk_settled(entries, t1, n);
            if b is Var && b->Var_0 == v1 {
                assert(a == b);
                assert forall|d1: nat, d2: nat|
                    (#[trigger] walk(after, t1, d1)) is Some && (#[trigger] walk(after, t2, d2))
                        is Some implies walk(after, t1, d1) == walk(after, t2, d2) by {
                    lemma_walk_one(entries, t1, d1, n);
                    lemma_walk_one(entries, t2, d2, n);
                }
            } else {
                lemma_push_keeps(entries, v1, b);
                assert forall|d1: nat, d2: nat|
                    (#[trigger] walk(after, t1, d1)) is Some && (#[trigger] walk(after, t2, d2))
                        is Some implies walk(after, t1, d1) == walk(after, t2, d2) by {
                    lemma_walk_extend(entries, after, t1, n, d1);
                    lemma_walk_extend(entries, after, t2, n, d2);
                    assert(walk(after, a, d1) == walk(after, t1, d1));
                    assert(walk(after, b, d2) == walk(after, t2, d2));
                    assert(d1 > 0);
                    assert(walk(after, a, d1) == walk(after, b, (d1 - 1) as nat));
                    lemma_walk_one(after, b, (d1 - 1) as nat, d2);
                }
            }
        },
        _ => {
            lemma_unify_agrees(entries, a, b, (fuel - 1) as nat, names);
            lemma_unify_keeps(entries, a, b, (fuel - 1) as nat, names);
            assert forall|d1: nat, d2: nat|
                (#[trigger] walk(after, t1, d1)) is Some && (#[trigger] walk(after, t2, d2))
                    is Some implies walk(after, t1, d1) == walk(after, t2, d2) by {
                lemma_walk_extend(entries, after, t1, n, d1);
                lemma_walk_extend(entries, after, t2, n, d2);
                assert(walk(after, a, d1) == walk(after, t1, d1));
                assert(walk(after, b, d2) == walk(after, t2, d2));
            }
        },
    }
}

/// Under more bindings, a term walks to what its walk under fewer
/// bindings walks to, at the depth of both walks together.
pub proof fn lemma_walk_compose(
    before: Seq<Binding>,
    after: Seq<Binding>,
    t: TermView,
    depth: nat,
    later: nat,
)
    requires
        keeps(before, after),
        walk(before, t, depth) is Some,
        walk(after, walk(before, t, depth)->0, later) is Some,
    ensures
        walk(after, t, depth + later) == walk(after, walk(before, t, depth)->0, later),
    decreases depth, t,
{
    let r = walk(before, t, depth)->0;
    match t {
        TermView::Var(v, _) => {
            match lookup(before, v) {
                None => {
                    lemma_walk_deeper(after, t, later, depth + later);
                },
                Some(bound) => {
                    lemma_walk_compose(before, after, bound, (depth - 1) as nat, later);
                },
            }
        },
        TermView::Compound(f, args) => {
            let first = walk_all(before, args, depth)->0;
            let second = walk_all(after, first, later)->0;
            lemma_walk_all_index(before, args, depth);
            lemma_walk_all_index(after, first, later);
            assert forall|i: int| 0 <= i < args.len() implies walk(
                after,
                #[trigger] args[i],
                depth + later,
            ) == Some(second[i]) by {
                assert(walk(before, args[i], depth) == Some(first[i]));
                assert(walk(after, first[i], later) == Some(second[i]));
                lemma_walk_compose(before, after, args[i], depth, later);
            }
            lemma_walk_all_each(after, args, depth + later, second);
        },
        _ => {
            lemma_walk_deeper(after, t, later, depth + later);
        },
    }
}

/// Whether both terms have a finite instantiation or neither has.
pub open spec fn together(entries: Seq<Binding>, x: TermView, y: TermView) -> bool {
    instantiation(entries, x) is Some <==> instantiation(entries, y) is Some
}

/// Where a term and another walk to the same term under fewer bindings,
/// and the first has a finite instantiation under more, so has the other.
pub proof fn lemma_finite_follows(
    before: Seq<Binding>,
    after: Seq<Binding>,
    x: TermView,
    y: TermView,
)
    requires
        keeps(before, after),
        instantiation(before, x) is Some,
        instantiation(before, y) == instantiation(before, x),
        instantiation(after, x) is Some,
    ensures
        instantiation(after, y) is Some,
{
    let r = instantiation(before, x)->0;
    lemma_walk_extend(before, after, x, before.len(), after.len());
    lemma_walk_compose(before, after, y, before.len(), after.len());
    lemma_instantiation_complete(after, y, before.len() + after.len());
}

/// Terms that agree and are finite together stay so under more bindings.
pub proof fn lemma_together_stable(
    before: Seq<Binding>,
    after: Seq<Binding>,
    x: TermView,
    y: TermView,
)
    requires
        keeps(before, after),
        agree(before, x, y),
        together(before, x, y),
    ensures
        together(after, x, y),
{
    if instantiation(after, x) is Some {
        lemma_walk_shrinks(before, after, x, after.len());
        lemma_instantiation_complete(before, x, after.len());
        assert(instantiation(before, y) is Some);
        assert(walk(before, x, before.len()) == walk(before, y, before.len()));
        lemma_finite_follows(before, after, x, y);
    }
    if instantiation(after, y) is Some {
        lemma_walk_shrinks(before, after, y, after.len());
        lemma_instantiation_complete(before, y, after.len());
        assert(instantiation(before, x) is Some);
        assert(walk(before, x, before.len()) == walk(before, y, before.len()));
        lemma_finite_follows(before, after, y, x);
    }
}

/// Where two terms unify, both have a finite instantiation afterwards or
/// neither has.
pub proof fn lemma_unify_together(
    entries: Seq<Binding>,
    t1: TermView,
    t2: TermView,
    fuel: nat,
    names: spec_fn(int) -> Option<Seq<char>>,
)
    requires
        named(t1, names),
        named(t2, names),
        all_named(entries, names),
        unify_outcome(entries, t1, t2, fuel).0,
    ensures
        together(unify_outcome(entries, t1, t2, fuel).1, t1, t2),
    decreases fuel, 1nat, 0nat,
{
    let after = unify_outcome(entries, t1, t2, fuel).1;
    match (t1, t2) {
        (TermView::Atom(a), TermView::Atom(b)) => {},
        (TermView::Int(i), TermView::Int(j)) => {},
        (TermView::Compound(f, xs), TermView::Compound(g, ys)) => {
            lemma_unify_all_together(entries, xs, ys, 0, fuel, names);
            let n = after.len();
            if instantiation(after, t1) is Some {
                lemma_walk_all_index(after, xs, n);
                let walked = Seq::new(ys.len(), |i: int| walk(after, ys[i], n)->0);
                assert forall|i: int| 0 <= i < ys.len() implies walk(after, #[trigger] ys[i], n)
                    == Some(walked[i]) by {
                    assert(together(after, xs[i], ys[i]));
                    assert(walk(after, xs[i], n) is Some);
                }
                lemma_walk_all_each(after, ys, n, walked);
            }
            if instantiation(after, t2) is Some {
                lemma_walk_all_index(after, ys, n);
                let walked = Seq::new(xs.len(), |i: int| walk(after, xs[i], n)->0);
                assert forall|i: int| 0 <= i < xs.len() implies walk(after, #[trigger] xs[i], n)
                    == Some(walked[i]) by {
                    assert(together(after, xs[i], ys[i]));
                    assert(walk(after, ys[i], n) is Some);
                }
                lemma_walk_all_each(after, xs, n, walked);
            }
        },
        (TermView::Var(_, _), _) => {
            lemma_unify_variable_together(entries, t1, t2, fuel, names);
        },
        (_, TermView::Var(_, _)) => {
            lemma_unify_variable_together(entries, t2, t1, fuel, names);
        },
        _ => {},
    }
}

/// As `lemma_unify_together`, for the arguments from the `i`-th on.
pub proof fn lemma_unify_all_together(
    entries: Seq<Binding>,
    xs: Seq<TermView>,
    ys: Seq<TermView>,
    i: nat,
    fuel: nat,
    names: spec_fn(int) -> Option<Seq<char>>,
)
    requires
        xs.len() == ys.len(),
        forall|j: int| 0 <= j < xs.len() ==> named(#[trigger] xs[j], names),
        forall|j: int| 0 <= j < ys.len() ==> named(#[trigger] ys[j], names),
        all_named(entries, names),
        unify_all_outcome(entries, xs, ys, i, fuel).0,
    ensures
        forall|j: int|
            i <= j < xs.len() ==> together(
                unify_all_outcome(entries, xs, ys, i, fuel).1,
                #[trigger] xs[j],
                ys[j],
            ),
    decreases fuel, 0nat, xs.len() - i,
{
    if i < xs.len() {
        let first = unify_outcome(entries, xs[i as int], ys[i as int], (fuel - 1) as nat);
        lemma_unify_together(entries, xs[i as int], ys[i as int], (fuel - 1) as nat, names);
        lemma_unify_agrees(entries, xs[i as int], ys[i as int], (fuel - 1) as nat, names);
        lemma_unify_keeps(entries, xs[i as int], ys[i as int], (fuel - 1) as nat, names);
        lemma_unify_all_together(first.1, xs, ys, i + 1, fuel, names);
        lemma_unify_all_keeps(first.1, xs, ys, i + 1, fuel, names);
        let last = unify_all_outcome(first.1, xs, ys, i + 1, fuel).1;
        lemma_together_stable(first.1, last, xs[i as int], ys[i as int]);
    }
}

/// As `lemma_unify_together`, where a variable is involved.
pub proof fn lemma_unify_variable_together(
    entries: Seq<Binding>,
    t1: TermView,
    t2: TermView,
    fuel: nat,
    names: spec_fn(int) -> Option<Seq<char>>,
)
    requires
        named(t1, names),
        named(t2, names),
        all_named(entries, names),
        unify_variable_outcome(entries, t1, t2, fuel).0,
    ensures
        together(unify_variable_outcome(entries, t1, t2, fuel).1, t1, t2),
    decreases fuel, 0nat, 0nat,
{
    let after = unify_variable_outcome(entries, t1, t2, fuel).1;
    let a = instantiation(entries, t1)->0;
    let b = instantiation(entries, t2)->0;
    let n = entries.len();
    let m = after.len();
    lemma_walk_named(entries, t1, n, names);
    lemma_walk_named(entries, t2, n, names);
    lemma_unify_variable_keeps(entries, t1, t2, fuel, names);
    match a {
        TermView::Var(v1, _) => {
            lemma_walk_settled(entries, t1, n);
            if !(b is Var && b->Var_0 == v1) {
                lemma_push_keeps(entries, v1, b);
                if instantiation(after, t1) is Some {
                    lemma_walk_extend(entries, after, t1, n, m);
                    assert(walk(after, a, m) == walk(after, b, (m - 1) as nat));
                    lemma_walk_compose(entries, after, t2, n, (m - 1) as nat);
                    lemma_instantiation_complete(after, t2, n + (m - 1) as nat);
                }
                if instantiation(after, t2) is Some {
                    lemma_walk_extend(entries, after, t2, n, m);
                    assert(walk(after, a, m + 1) == walk(after, b, m));
                    lemma_walk_compose(entries, after, t1, n, m + 1);
                    lemma_instantiation_complete(after, t1, n + m + 1);
                }
            }
        },
        _ => {
            lemma_unify_together(entries, a, b, (fuel - 1) as nat, names);
            lemma_unify_keeps(entries, a, b, (fuel - 1) as nat, names);
            if instantiation(after, t1) is Some {
                lemma_walk_extend(entries, after, t1, n, m);
                assert(instantiation(after, b) is Some);
                lemma_walk_compose(entries, after, t2, n, m);
                lemma_instantiation_complete(after, t2, n + m);
            }
            if instantiation(after, t2) is Some {
                lemma_walk_extend(entries, after, t2, n, m);
                assert(instantiation(after, a) is Some);
                lemma_walk_compose(entries, after, t1, n, m);
                lemma_instantiation_complete(after, t1, n + m);
            }
        },
    }
}

/// Once two terms are unified, they have the same instantiation: where
/// unification succeeds, the two terms have the same instantiation under
/// the bindings that it leaves, or neither has a finite one. The variables
/// are taken to be shown under one name each.
pub proof fn lemma_unified_terms_instantiate_alike(
    entries: Seq<Binding>,
    t1: TermView,
    t2: TermView,
    names: spec_fn(int) -> Option<Seq<char>>,
)
    requires
        named(t1, names),
        named(t2, names),
        all_named(entries, names),
        unified(entries, t1, t2).0,
    ensures
        instantiation(unified(entries, t1, t2).1, t1) == instantiation(
            unified(entries, t1, t2).1,
            t2,
        ),
{
    lemma_unify_agrees(entries, t1, t2, enough(entries, t1, t2), names);
    lemma_unify_together(entries, t1, t2, enough(entries, t1, t2), names);
}

/// The bindings with the display names of all variables left out.
pub open spec fn plain_bindings(entries: Seq<Binding>) -> Seq<Binding> {
    Seq::new(entries.len(), |i: int| (entries[i].0, plain(entries[i].1)))
}

/// `plain` of a term that may be missing.
pub open spec fn plain_option(t: Option<TermView>) -> Option<TermView> {
    match t {
        Some(t) => Some(plain(t)),
        None => None,
    }
}

/// `plain_all` of a sequence that may be missing.
pub open spec fn plain_all_option(terms: Option<Seq<TermView>>) -> Option<Seq<TermView>> {
    match terms {
        Some(terms) => Some(plain_all(terms)),
        None => None,
    }
}

/// No display name.
pub open spec fn nameless() -> spec_fn(int) -> Option<Seq<char>> {
    |v: int| None::<Seq<char>>
}

/// A term without display names shows every variable under one name: none.
pub proof fn lemma_plain_named(t: TermView)
    ensures
        named(plain(t), nameless()),
    decreases t,
{
    match t {
        TermView::Compound(f, args) => {
            lemma_plain_all_index(args);
            assert forall|i: int| 0 <= i < plain_all(args).len() implies named(
                #[trigger] plain_all(args)[i],
                nameless(),
            ) by {
                lemma_plain_named(args[i]);
            }
        },
        _ => {},
    }
}

/// As `lemma_plain_named`, for bindings.
pub proof fn lemma_plain_bindings_named(entries: Seq<Binding>)
    ensures
        all_named(plain_bindings(entries), nameless()),
{
    assert forall|i: int| 0 <= i < plain_bindings(entries).len() implies named(
        (#[trigger] plain_bindings(entries)[i]).1,
        nameless(),
    ) by {
        lemma_plain_named(entries[i].1);
    }
}

/// Display names do not count in a lookup.
pub proof fn lemma_lookup_plain(entries: Seq<Binding>, v: int)
    ensures
        lookup(plain_bindings(entries), v) == plain_option(lookup(entries, v)),
    decreases entries.len(),
{
    if entries.len() > 0 {
        lemma_lookup_plain(entries.drop_last(), v);
        assert(plain_bindings(entries).drop_last() =~= plain_bindings(entries.drop_last()));
    }
}

/// Display names do not count in a walk: the walk of a term without its
/// names, under bindings without theirs, is the walk of the term without
/// its names.
pub proof fn lemma_walk_plain(entries: Seq<Binding>, t: TermView, depth: nat)
    ensures
        walk(plain_bindings(entries), plain(t), depth) == plain_option(walk(entries, t, depth)),
    decreases depth, t,
{
    match t {
        TermView::Var(v, _) => {
            lemma_lookup_plain(entries, v);
            match lookup(entries, v) {
                None => {},
                Some(bound) => {
                    if depth > 0 {
                        lemma_walk_plain(entries, bound, (depth - 1) as nat);
                    }
                },
            }
        },
        TermView::Compound(f, args) => {
            lemma_walk_all_plain(entries, args, depth);
        },
        _ => {},
    }
}

/// As `lemma_walk_plain`, for a sequence of terms.
pub proof fn lemma_walk_all_plain(entries: Seq<Binding>, terms: Seq<TermView>, depth: nat)
    ensures
        walk_all(plain_bindings(entries), plain_all(terms), depth) == plain_all_option(
            walk_all(entries, terms, depth),
        ),
    decreases depth, terms,
{
    if terms.len() > 0 {
        lemma_walk_all_plain(entries, terms.drop_last(), depth);
        lemma_walk_plain(entries, terms.last(), depth);
        assert(plain_all(terms).drop_last() =~= plain_all(terms.drop_last()));
        match (walk_all(entries, terms.drop_last(), depth), walk(entries, terms.last(), depth)) {
            (Some(front), Some(last)) => {
                assert(front.push(last).drop_last() =~= front);
            },
            _ => {},
        }
    }
}

/// Display names do not count in unification: without them it comes to
/// the same end, and leaves the same bindings without theirs.
pub proof fn lemma_unify_plain(entries: Seq<Binding>, t1: TermView, t2: TermView, fuel: nat)
    ensures
        unify_outcome(plain_bindings(entries), plain(t1), plain(t2), fuel) == (
            unify_outcome(entries, t1, t2, fuel).0,
            plain_bindings(unify_outcome(entries, t1, t2, fuel).1),
        ),
        unify_spent(plain_bindings(entries), plain(t1), plain(t2), fuel) == unify_spent(
            entries,
            t1,
            t2,
            fuel,
        ),
    decreases fuel, 1nat, 0nat,
{
    match (t1, t2) {
        (TermView::Compound(f, xs), TermView::Compound(g, ys)) => {
            lemma_plain_all_index(xs);
            lemma_plain_all_index(ys);
            if f == g && xs.len() == ys.len() {
                lemma_unify_all_plain(entries, xs, ys, 0, fuel);
            }
        },
        (TermView::Var(_, _), _) => {
            lemma_unify_variable_plain(entries, t1, t2, fuel);
        },
        (_, TermView::Var(_, _)) => {
            lemma_unify_variable_plain(entries, t2, t1, fuel);
        },
        _ => {},
    }
}

/// As `lemma_unify_plain`, for the arguments from the `i`-th on.
pub proof fn lemma_unify_all_plain(
    entries: Seq<Binding>,
    xs: Seq<TermView>,
    ys: Seq<TermView>,
    i: nat,
    fuel: nat,
)
    ensures
        unify_all_outcome(plain_bindings(entries), plain_all(xs), plain_all(ys), i, fuel) == (
            unify_all_outcome(entries, xs, ys, i, fuel).0,
            plain_bindings(unify_all_outcome(entries, xs, ys, i, fuel).1),
        ),
        unify_all_spent(plain_bindings(entries), plain_all(xs), plain_all(ys), i, fuel)
            == unify_all_spent(entries, xs, ys, i, fuel),
    decreases fuel, 0nat, xs.len() - i,
{
    lemma_plain_all_index(xs);
    lemma_plain_all_index(ys);
    if i >= xs.len() || i >= ys.len() {
    } else if fuel == 0 {
    } else {
        let first = unify_outcome(entries, xs[i as int], ys[i as int], (fuel - 1) as nat);
        lemma_unify_plain(entries, xs[i as int], ys[i as int], (fuel - 1) as nat);
        if first.0 {
            lemma_unify_all_plain(first.1, xs, ys, i + 1, fuel);
        }
    }
}

/// As `lemma_unify_plain`, where a variable is involved.
pub proof fn lemma_unify_variable_plain(
    entries: Seq<Binding>,
    t1: TermView,
    t2: TermView,
    fuel: nat,
)
    ensures
        unify_variable_outcome(plain_bindings(entries), plain(t1), plain(t2), fuel) == (
            unify_variable_outcome(entries, t1, t2, fuel).0,
            plain_bindings(unify_variable_outcome(entries, t1, t2, fuel).1),
        ),
        unify_variable_spent(plain_bindings(entries), plain(t1), plain(t2), fuel)
            == unify_variable_spent(entries, t1, t2, fuel),
    decreases fuel, 0nat, 0nat,
{
    lemma_walk_plain(entries, t1, entries.len());
    lemma_walk_plain(entries, t2, entries.len());
    match (instantiation(entries, t1), instantiation(entries, t2)) {
        (Some(a), Some(b)) => {
            match a {
                TermView::Var(v1, _) => {
                    assert(plain_bindings(entries.push((v1, b))) =~= plain_bindings(entries).push(
                        (v1, plain(b)),
                    ));
                },
                _ => {
                    if fuel > 0 {
                        lemma_unify_plain(entries, a, b, (fuel - 1) as nat);
                    }
                },
            }
        },
        _ => {},
    }
}

/// Once two terms are unified, walking either gives the same term: where
/// unification succeeds, the two terms have instantiations that are alike
/// under the bindings that it leaves, or neither has a finite one. Two
/// terms are alike where they are equal but for the names that their
/// variables are shown under.
pub proof fn lemma_unified_terms_are_alike(entries: Seq<Binding>, t1: TermView, t2: TermView)
    requires
        unified(entries, t1, t2).0,
    ensures
        plain_option(instantiation(unified(entries, t1, t2).1, t1)) == plain_option(
            instantiation(unified(entries, t1, t2).1, t2),
        ),
        instantiation(unified(entries, t1, t2).1, t1) is Some ==> instantiation(
            unified(entries, t1, t2).1,
            t2,
        ) is Some && alike(
            instantiation(unified(entries, t1, t2).1, t1)->0,
            instantiation(unified(entries, t1, t2).1, t2)->0,
        ),
{
    let fuel = enough(entries, t1, t2);
    let after = unified(entries, t1, t2).1;
    lemma_unify_plain(entries, t1, t2, fuel);
    lemma_plain_named(t1);
    lemma_plain_named(t2);
    lemma_plain_bindings_named(entries);
    lemma_unify_agrees(plain_bindings(entries), plain(t1), plain(t2), fuel, nameless());
    lemma_unify_together(plain_bindings(entries), plain(t1), plain(t2), fuel, nameless());
    lemma_walk_plain(after, t1, after.len());
    lemma_walk_plain(after, t2, after.len());
}

} // verus!
