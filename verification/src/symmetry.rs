//! Unification with a term that holds no variable does not depend on the
//! order of the two terms.

use vstd::prelude::*;
use crate::bindings::Binding;
use crate::term::{TermView, has_vars};
use crate::unify::{
    enough,
    lemma_unify_fuel,
    unified,
    unify_all_outcome,
    unify_all_spent,
    unify_outcome,
    unify_spent,
};

verus! {

/// Where the second term holds no variable, the two terms may change
/// places: unification comes to the same end, with the same bindings,
/// within the same fuel.
pub proof fn lemma_unify_ground_swaps(
    entries: Seq<Binding>,
    t: TermView,
    ground: TermView,
    fuel: nat,
)
    requires
        !has_vars(ground),
    ensures
        unify_outcome(entries, t, ground, fuel) == unify_outcome(entries, ground, t, fuel),
        unify_spent(entries, t, ground, fuel) == unify_spent(entries, ground, t, fuel),
    decreases fuel,
{
    match (t, ground) {
        (TermView::Compound(f, xs), TermView::Compound(g, ys)) => {
            if f == g && xs.len() == ys.len() {
                lemma_unify_all_ground_swaps(entries, xs, ys, 0, fuel);
            }
        },
        _ => {},
    }
}

/// As `lemma_unify_ground_swaps`, for the arguments from the `i`-th on.
pub proof fn lemma_unify_all_ground_swaps(
    entries: Seq<Binding>,
    xs: Seq<TermView>,
    grounds: Seq<TermView>,
    i: nat,
    fuel: nat,
)
    requires
        xs.len() == grounds.len(),
        forall|j: int| 0 <= j < grounds.len() ==> !has_vars(#[trigger] grounds[j]),
    ensures
        unify_all_outcome(entries, xs, grounds, i, fuel) == unify_all_outcome(
            entries,
            grounds,
            xs,
            i,
            fuel,
        ),
        unify_all_spent(entries, xs, grounds, i, fuel) == unify_all_spent(
            entries,
            grounds,
            xs,
            i,
            fuel,
        ),
    decreases fuel, xs.len() - i,
{
    if i < xs.len() && fuel > 0 {
        let first = unify_outcome(entries, xs[i as int], grounds[i as int], (fuel - 1) as nat);
        lemma_unify_ground_swaps(entries, xs[i as int], grounds[i as int], (fuel - 1) as nat);
        if first.0 {
            lemma_unify_all_ground_swaps(first.1, xs, grounds, i + 1, fuel);
        }
    }
}

/// Unification is symmetric where one of the terms holds no variable: in
/// either order it succeeds or fails alike and leaves the same bindings.
pub proof fn lemma_unified_ground_symmetric(entries: Seq<Binding>, t: TermView, ground: TermView)
    requires
        !has_vars(ground),
        !unify_spent(entries, t, ground, enough(entries, t, ground)),
    ensures
        unified(entries, t, ground) == unified(entries, ground, t),
{
    let fuel = enough(entries, t, ground);
    lemma_unify_ground_swaps(entries, t, ground, fuel);
    let other = enough(entries, ground, t);
    if fuel <= other {
        lemma_unify_fuel(entries, ground, t, fuel, other);
    } else {
        lemma_unify_fuel(entries, ground, t, other, fuel);
    }
}

} // verus!
