//! Properties that relate several calls of the solvers.
use vstd::prelude::*;
use crate::item::{Item, selected_value, selected_weight, lemma_sel_permutation};

verus! {

/// Two results on the same items, in whatever order, that are each the value
/// of a selection within capacity which no other selection within capacity
/// beats, are equal: the exhaustive optimum. `dp::solve` always returns such a
/// result, and `solve_bb` does at zero tolerance when every weight is positive,
/// so there the two solvers agree.
pub proof fn law_optimal_values_agree(
    s1: Seq<Item>,
    sel1: Seq<usize>,
    v1: int,
    s2: Seq<Item>,
    sel2: Seq<usize>,
    v2: int,
    cap: int,
)
    requires
        s1.to_multiset() == s2.to_multiset(),
        selected_weight(s1, sel1) <= cap,
        selected_value(s1, sel1) == v1,
        forall|x: Seq<usize>| selected_weight(s1, x) <= cap ==> #[trigger] selected_value(s1, x) <= v1,
        selected_weight(s2, sel2) <= cap,
        selected_value(s2, sel2) == v2,
        forall|x: Seq<usize>| selected_weight(s2, x) <= cap ==> #[trigger] selected_value(s2, x) <= v2,
    ensures
        v1 == v2,
{
    lemma_sel_permutation(s1, s2, sel1);
    lemma_sel_permutation(s1, s2, sel2);
}

/// On the same items, in whatever order, the value of a selection within a
/// capacity `c1` is at most a result that no selection within a capacity
/// `c2 >= c1` beats. So the value that `dp::solve` returns, and that
/// `solve_bb` returns at zero tolerance with every weight positive, never
/// falls when the capacity grows.
pub proof fn law_capacity_monotone(
    s1: Seq<Item>,
    sel1: Seq<usize>,
    v1: int,
    c1: int,
    s2: Seq<Item>,
    v2: int,
    c2: int,
)
    requires
        s1.to_multiset() == s2.to_multiset(),
        c1 <= c2,
        selected_weight(s1, sel1) <= c1,
        selected_value(s1, sel1) == v1,
        forall|x: Seq<usize>| selected_weight(s2, x) <= c2 ==> #[trigger] selected_value(s2, x) <= v2,
    ensures
        v1 <= v2,
{
    lemma_sel_permutation(s1, s2, sel1);
}

} // verus!
