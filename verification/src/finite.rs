//! The depth that instantiation allows is enough: a term that has a walk
//! at any depth has one at the depth of the number of bindings.

use vstd::prelude::*;
use crate::bindings::{
    Binding,
    instantiation,
    lemma_walk_all_each,
    lemma_walk_all_index,
    lemma_walk_settled,
    lookup,
    settled,
    walk,
    walk_all,
};
use crate::soundness::{lemma_walk_deeper, lemma_walk_one};
use crate::term::TermView;

verus! {

/// The bindings without those of the variable `v`.
pub open spec fn without(entries: Seq<Binding>, v: int) -> Seq<Binding>
    decreases entries.len(),
{
    if entries.len() == 0 {
        entries
    } else if entries.last().0 == v {
        without(entries.drop_last(), v)
    } else {
        without(entries.drop_last(), v).push(entries.last())
    }
}

/// Without the bindings of `v`, `v` is unbound and every other variable is
/// bound as before; and there are fewer bindings where `v` was bound.
pub proof fn lemma_without(entries: Seq<Binding>, v: int)
    ensures
        lookup(without(entries, v), v) is None,
        forall|u: int| u != v ==> #[trigger] lookup(without(entries, v), u) == lookup(entries, u),
        without(entries, v).len() <= entries.len(),
        lookup(entries, v) is Some ==> without(entries, v).len() < entries.len(),
    decreases entries.len(),
{
    if entries.len() > 0 {
        lemma_without(entries.drop_last(), v);
        let rest = without(entries.drop_last(), v);
        if entries.last().0 != v {
            assert(rest.push(entries.last()).drop_last() =~= rest);
        }
        assert forall|u: int| u != v implies #[trigger] lookup(without(entries, v), u) == lookup(
            entries,
            u,
        ) by {
            assert(lookup(rest, u) == lookup(entries.drop_last(), u));
        }
    }
}

/// A walk that exists at a depth at which `v` has none does not pass
/// through `v`, so it is the same without the bindings of `v`.
pub proof fn lemma_walk_without(entries: Seq<Binding>, v: int, t: TermView, depth: nat)
    requires
        walk(entries, t, depth) is Some,
        walk(entries, TermView::Var(v, None), depth) is None,
    ensures
        walk(without(entries, v), t, depth) == walk(entries, t, depth),
    decreases depth, t,
{
    lemma_without(entries, v);
    match t {
        TermView::Var(u, _) => {
            match lookup(entries, u) {
                None => {},
                Some(bound) => {
                    assert(u != v);
                    let less = (depth - 1) as nat;
                    if walk(entries, TermView::Var(v, None), less) is Some {
                        lemma_walk_deeper(entries, TermView::Var(v, None), less, depth);
                    }
                    lemma_walk_without(entries, v, bound, less);
                },
            }
        },
        TermView::Compound(f, args) => {
            let walked = walk_all(entries, args, depth)->0;
            lemma_walk_all_index(entries, args, depth);
            assert forall|i: int| 0 <= i < args.len() implies walk(
                without(entries, v),
                #[trigger] args[i],
                depth,
            ) == Some(walked[i]) by {
                lemma_walk_without(entries, v, args[i], depth);
            }
            lemma_walk_all_each(without(entries, v), args, depth, walked);
        },
        _ => {},
    }
}

/// A walk without the bindings of `v` whose result holds no variable that
/// is bound is the walk with them too.
pub proof fn lemma_walk_with(entries: Seq<Binding>, v: int, t: TermView, depth: nat)
    requires
        walk(without(entries, v), t, depth) is Some,
        settled(entries, walk(without(entries, v), t, depth)->0),
    ensures
        walk(entries, t, depth) == walk(without(entries, v), t, depth),
    decreases depth, t,
{
    lemma_without(entries, v);
    let fewer = without(entries, v);
    match t {
        TermView::Var(u, _) => {
            match lookup(fewer, u) {
                None => {},
                Some(bound) => {
                    lemma_walk_with(entries, v, bound, (depth - 1) as nat);
                },
            }
        },
        TermView::Compound(f, args) => {
            let walked = walk_all(fewer, args, depth)->0;
            lemma_walk_all_index(fewer, args, depth);
            let whole = TermView::Compound(f, walked);
            assert(walk(fewer, t, depth)->0 == whole);
            assert(settled(entries, whole));
            assert(whole->Compound_1 == walked);
            assert(forall|j: int| 0 <= j < walked.len() ==> settled(entries, #[trigger] walked[j]));
            assert forall|i: int| 0 <= i < args.len() implies walk(
                entries,
                #[trigger] args[i],
                depth,
            ) == Some(walked[i]) by {
                assert(walk(fewer, args[i], depth) == Some(walked[i]));
                assert(settled(entries, walked[i]));
                lemma_walk_with(entries, v, args[i], depth);
            }
            lemma_walk_all_each(entries, args, depth, walked);
        },
        _ => {},
    }
}

/// A variable under `t` that needs the whole depth: where `t` has a walk
/// at a depth and none at one less, a bound variable has a walk at that
/// depth and none at one less.
pub open spec fn deepest(entries: Seq<Binding>, t: TermView, depth: nat) -> int
    decreases t,
{
    match t {
        TermView::Var(v, _) => v,
        TermView::Compound(_, args) => {
            let i = choose|i: int|
                0 <= i < args.len() && walk(entries, #[trigger] args[i], (depth - 1) as nat)
                    is None;
            if 0 <= i < args.len() {
                deepest(entries, args[i], depth)
            } else {
                0
            }
        },
        _ => 0,
    }
}

/// `deepest` is what it is meant to be.
pub proof fn lemma_deepest(entries: Seq<Binding>, t: TermView, depth: nat)
    requires
        depth >= 1,
        walk(entries, t, depth) is Some,
        walk(entries, t, (depth - 1) as nat) is None,
    ensures
        lookup(entries, deepest(entries, t, depth)) is Some,
        walk(entries, TermView::Var(deepest(entries, t, depth), None), depth) is Some,
        walk(entries, TermView::Var(deepest(entries, t, depth), None), (depth - 1) as nat)
            is None,
    decreases t,
{
    let less = (depth - 1) as nat;
    match t {
        TermView::Var(v, _) => {},
        TermView::Compound(f, args) => {
            lemma_walk_all_index(entries, args, depth);
            if forall|i: int| 0 <= i < args.len() ==> walk(entries, #[trigger] args[i], less)
                is Some {
                let walked = Seq::new(args.len(), |i: int| walk(entries, args[i], less)->0);
                assert forall|i: int| 0 <= i < args.len() implies walk(
                    entries,
                    #[trigger] args[i],
                    less,
                ) == Some(walked[i]) by {}
                lemma_walk_all_each(entries, args, less, walked);
                assert(false);
            }
            let i = choose|i: int|
                0 <= i < args.len() && walk(entries, #[trigger] args[i], less) is None;
            lemma_deepest(entries, args[i], depth);
        },
        _ => {},
    }
}

/// The least depth at which a term has a walk is not above the number of
/// bindings.
pub proof fn lemma_needed_depth(entries: Seq<Binding>, t: TermView, depth: nat)
    requires
        walk(entries, t, depth) is Some,
        depth >= 1 ==> walk(entries, t, (depth - 1) as nat) is None,
    ensures
        depth <= entries.len(),
    decreases depth,
{
    if depth >= 1 {
        let less = (depth - 1) as nat;
        lemma_deepest(entries, t, depth);
        let v = deepest(entries, t, depth);
        let bound = lookup(entries, v)->0;
        let fewer = without(entries, v);
        lemma_without(entries, v);
        assert(walk(entries, bound, less) is Some);
        if depth >= 2 {
            assert(walk(entries, bound, (depth - 2) as nat) is None);
        }
        lemma_walk_without(entries, v, bound, less);
        if depth >= 2 {
            let least = (depth - 2) as nat;
            if walk(fewer, bound, least) is Some {
                lemma_walk_deeper(fewer, bound, least, less);
                lemma_walk_settled(entries, bound, less);
                lemma_walk_with(entries, v, bound, least);
                assert(false);
            }
        }
        lemma_needed_depth(fewer, bound, less);
    }
}

/// The least depth at which `t` has a walk, given that it has one at
/// `depth`.
pub open spec fn least_depth(entries: Seq<Binding>, t: TermView, depth: nat) -> nat
    decreases depth,
{
    if depth >= 1 && walk(entries, t, (depth - 1) as nat) is Some {
        least_depth(entries, t, (depth - 1) as nat)
    } else {
        depth
    }
}

/// `least_depth` is a depth at which the term has a walk, and one less is
/// none.
pub proof fn lemma_least_depth(entries: Seq<Binding>, t: TermView, depth: nat)
    requires
        walk(entries, t, depth) is Some,
    ensures
        least_depth(entries, t, depth) <= depth,
        walk(entries, t, least_depth(entries, t, depth)) is Some,
        least_depth(entries, t, depth) >= 1 ==> walk(
            entries,
            t,
            (least_depth(entries, t, depth) - 1) as nat,
        ) is None,
    decreases depth,
{
    if depth >= 1 && walk(entries, t, (depth - 1) as nat) is Some {
        lemma_least_depth(entries, t, (depth - 1) as nat);
    }
}

/// Instantiation misses nothing: a term that has a walk at any depth has
/// that walk as its instantiation. So a term without instantiation has no
/// walk at all: its bindings run in a circle.
pub proof fn lemma_instantiation_complete(entries: Seq<Binding>, t: TermView, depth: nat)
    requires
        walk(entries, t, depth) is Some,
    ensures
        instantiation(entries, t) == walk(entries, t, depth),
{
    lemma_least_depth(entries, t, depth);
    let least = least_depth(entries, t, depth);
    lemma_needed_depth(entries, t, least);
    lemma_walk_deeper(entries, t, least, entries.len());
    lemma_walk_one(entries, t, least, depth);
}

} // verus!
