//! Branch-and-bound search pruned by the fractional-relaxation bound.
use vstd::prelude::*;
use crate::item::{
    Item, indices_ok, is_selected, is_selection, sel_value, sel_weight, selected_weight,
    selected_value, value_sum, by_density_desc, weights_positive, sort_by_density_desc,
    lemma_sel_mark, lemma_sel_unmark, lemma_sel_agree, lemma_sel_front,
};
use crate::greedy::{Tolerance, best_greedy, law_greedy_bound_sound, lemma_sel_split};
use crate::dp::{opt, lemma_opt_upper, lemma_sel_none, lemma_sel_weight_nonneg};

verus! {

/// The search state threaded through the recursion: the best selection found
/// so far, the partial selection on the current path, and the problem's
/// capacity and tolerance.
#[derive(Debug)]
pub struct Env {
    pub best_val: usize,
    pub best_indices: Vec<usize>,
    pub cur_indices: Vec<usize>,
    pub cur_weight: usize,
    pub cur_val: usize,
    pub cap: usize,
    pub error: Tolerance,
}

/// The state is consistent with the items, every item from position `depth`
/// on being still undecided on the current path.
pub open spec fn env_ok(env: Env, items: Seq<Item>, depth: int) -> bool {
    let n = items.len() as int;
    &&& env.error.wf()
    &&& is_selection(env.cur_indices@, n)
    &&& is_selection(env.best_indices@, n)
    &&& env.cur_val == selected_value(items, env.cur_indices@)
    &&& env.cur_weight == selected_weight(items, env.cur_indices@)
    &&& env.cur_weight <= env.cap
    &&& env.cur_val <= env.best_val
    &&& env.best_val == selected_value(items, env.best_indices@)
    &&& selected_weight(items, env.best_indices@) <= env.cap
    &&& forall|p: int| depth <= p < n ==> env.cur_indices@[(#[trigger] items[p]).index as int] == 0
}

/// The parts of the state that a search step leaves as it found them.
pub open spec fn same_path(a: Env, b: Env) -> bool {
    &&& a.cur_indices@ == b.cur_indices@
    &&& a.cur_weight == b.cur_weight
    &&& a.cur_val == b.cur_val
    &&& a.cap == b.cap
    &&& a.error == b.error
}

/// A marked selection is worth at most the total value of all items.
pub proof fn lemma_sel_value_le_sum(items: Seq<Item>, sel: Seq<usize>, k: int)
    requires
        0 <= k <= items.len(),
    ensures
        0 <= sel_value(items, sel, 0, k) <= value_sum(items, k),
    decreases k,
{
    if k > 0 {
        lemma_sel_value_le_sum(items, sel, k - 1);
    }
}

impl Env {
    /// A fresh state: nothing chosen, best value 0.
    pub fn new(items: &[Item], cap: usize, error: Tolerance) -> (r: Env)
        requires
            indices_ok(items@),
            error.wf(),
        ensures
            env_ok(r, items@, 0),
            r.best_val == 0,
            r.cur_weight == 0,
            r.cur_val == 0,
            r.cap == cap,
            r.error == error,
    {
        let n = items.len();
        let cur: Vec<usize> = vec![0; n];
        let best: Vec<usize> = vec![0; n];
        proof {
            lemma_sel_none(items@, cur@, 0, n as int);
            lemma_sel_none(items@, best@, 0, n as int);
        }
        Env {
            best_val: 0,
            best_indices: best,
            cur_indices: cur,
            cur_weight: 0,
            cur_val: 0,
            cap,
            error,
        }
    }
}

/// `x` marks no item that `mask` discards.
pub open spec fn avoids(items: Seq<Item>, x: Seq<usize>, mask: Seq<usize>) -> bool {
    forall|p: int| 0 <= p < items.len() && is_selected(items, x, p) ==> mask[p] != 1
}

/// `x` decides the items at positions `0 .. depth` as `cur` does.
pub open spec fn extends(items: Seq<Item>, x: Seq<usize>, cur: Seq<usize>, depth: int) -> bool {
    forall|p: int| 0 <= p < depth ==> is_selected(items, x, p) == is_selected(items, cur, p)
}

/// The conditions under which the bound never undershoots and the search is exact.
pub open spec fn exact_search(items: Seq<Item>, tol: Tolerance) -> bool {
    tol.num == 0 && by_density_desc(items) && weights_positive(items)
}

/// `est` is at least the value of every selection within `cap` that avoids `mask`.
pub open spec fn bounds_all(items: Seq<Item>, mask: Seq<usize>, cap: int, est: int) -> bool {
    forall|x: Seq<usize>|
        avoids(items, x, mask) && selected_weight(items, x) <= cap ==> #[trigger] selected_value(
            items,
            x,
        ) <= est
}

/// A selection that extends the current path and marks the item at `depth`
/// weighs at least the path plus that item.
proof fn lemma_extend_weight(items: Seq<Item>, x: Seq<usize>, cur: Seq<usize>, depth: int)
    requires
        0 <= depth < items.len(),
        extends(items, x, cur, depth),
        forall|p: int| depth <= p < items.len() ==> !is_selected(items, cur, p),
        is_selected(items, x, depth),
    ensures
        selected_weight(items, x) >= selected_weight(items, cur) + items[depth].weight,
{
    let n = items.len() as int;
    lemma_sel_split(items, x, 0, depth, n);
    lemma_sel_split(items, cur, 0, depth, n);
    lemma_sel_agree(items, x, cur, 0, depth);
    lemma_sel_front(items, x, depth, n);
    lemma_sel_weight_nonneg(items, x, depth + 1, n);
    lemma_sel_none(items, cur, depth, n);
}

/// One step of the search at position `item_idx`: first the branch that
/// leaves the item out (explored only while the bound of what remains beats
/// the best value), then the branch that takes it (explored only while
/// `prev_est` beats the best value and the item fits). Keeps the best
/// selection met, and hands back the path and the discard mask as it found
/// them. When the search is exact and `prev_est` bounds what the mask allows,
/// no selection within capacity that extends the path beats the result.
pub fn recur(
    items: &[Item],
    item_idx: usize,
    discard: &mut Vec<usize>,
    prev_est: usize,
    env: Env,
) -> (r: Env)
    requires
        indices_ok(items@),
        item_idx <= items@.len(),
        old(discard)@.len() == items@.len(),
        forall|p: int| item_idx <= p < items@.len() ==> old(discard)@[p] == 0,
        forall|p: int|
            0 <= p < item_idx ==> (old(discard)@[p] == 1 <==> !is_selected(
                items@,
                env.cur_indices@,
                p,
            )),
        value_sum(items@, items@.len() as int) <= usize::MAX,
        env_ok(env, items@, item_idx as int),
        exact_search(items@, env.error) ==> bounds_all(
            items@,
            old(discard)@,
            env.cap as int,
            prev_est as int,
        ),
    ensures
        final(discard)@ == old(discard)@,
        env_ok(r, items@, item_idx as int),
        same_path(r, env),
        r.best_val >= env.best_val,
        exact_search(items@, env.error) ==> forall|x: Seq<usize>|
            extends(items@, x, env.cur_indices@, item_idx as int) && selected_weight(items@, x)
                <= env.cap ==> #[trigger] selected_value(items@, x) <= r.best_val,
    decreases items@.len() - item_idx,
{
    let ghost n = items@.len() as int;
    let ghost start = env;
    let ghost mask = discard@;
    let mut env = env;
    if item_idx == items.len() {
        proof {
            assert forall|x: Seq<usize>|
                extends(items@, x, start.cur_indices@, item_idx as int) && selected_weight(items@, x)
                    <= start.cap implies #[trigger] selected_value(items@, x) <= start.best_val by {
                lemma_sel_agree(items@, x, start.cur_indices@, 0, n);
            }
        }
        return env;
    }
    let cur_item = items[item_idx];

    // leave the item out
    discard.set(item_idx, 1);
    let ghost mask1 = discard@;
    let est = best_greedy(items, discard.as_slice(), env.error, env.cap);
    proof {
        if exact_search(items@, env.error) {
            assert forall|x: Seq<usize>|
                avoids(items@, x, mask1) && selected_weight(items@, x) <= env.cap implies #[trigger] selected_value(
                items@,
                x,
            ) <= est by {
                law_greedy_bound_sound(items@, mask1, x, env.error, env.cap as int);
            }
        }
    }
    if est > env.best_val {
        env = recur(items, item_idx + 1, discard, est, env);
    }
    let ghost mid = env;
    proof {
        if exact_search(items@, start.error) {
            // every extension that leaves the item out is now covered
            assert forall|x: Seq<usize>|
                extends(items@, x, start.cur_indices@, item_idx as int) && !is_selected(
                    items@,
                    x,
                    item_idx as int,
                ) && selected_weight(items@, x) <= start.cap implies #[trigger] selected_value(
                items@,
                x,
            ) <= mid.best_val by {
                assert(avoids(items@, x, mask1));
                assert(extends(items@, x, start.cur_indices@, item_idx + 1));
            }
        }
    }
    // take the item
    discard.set(item_idx, 0);
    proof {
        assert(discard@ =~= mask);
    }
    if prev_est > env.best_val {
        if cur_item.weight > env.cap - env.cur_weight {
            proof {
                if exact_search(items@, start.error) {
                    assert forall|x: Seq<usize>|
                        extends(items@, x, start.cur_indices@, item_idx as int) && selected_weight(
                            items@,
                            x,
                        ) <= start.cap implies #[trigger] selected_value(items@, x) <= mid.best_val by {
                        if is_selected(items@, x, item_idx as int) {
                            lemma_extend_weight(items@, x, start.cur_indices@, item_idx as int);
                        } else {
                            assert(!is_selected(items@, x, item_idx as int));
                        }
                    }
                }
            }
            return env;
        }
        let ghost before = env.cur_indices@;
        proof {
            lemma_sel_mark(items@, before, item_idx as int, 0, items@.len() as int);
            lemma_sel_value_le_sum(
                items@,
                before.update(cur_item.index as int, 1),
                items@.len() as int,
            );
        }
        env.cur_indices.set(cur_item.index, 1);
        env.cur_weight = env.cur_weight + cur_item.weight;
        env.cur_val = env.cur_val + cur_item.value;
        if env.cur_val > env.best_val {
            env.best_val = env.cur_val;
            env.best_indices = env.cur_indices.clone();
        }
        let ghost taken = env;
        proof {
            assert(is_selection(env.cur_indices@, items@.len() as int));
            assert forall|p: int| item_idx + 1 <= p < items@.len() implies env.cur_indices@[(
            #[trigger] items@[p]).index as int] == 0 by {
                assert(items@[p].index != cur_item.index);
            }
            assert forall|p: int| 0 <= p < item_idx + 1 implies (discard@[p] == 1 <==> !is_selected(
                items@,
                env.cur_indices@,
                p,
            )) by {
                if p < item_idx {
                    assert(items@[p].index != cur_item.index);
                }
            }
        }
        env = recur(items, item_idx + 1, discard, prev_est, env);
        proof {
            if exact_search(items@, start.error) {
                assert forall|x: Seq<usize>|
                    extends(items@, x, start.cur_indices@, item_idx as int) && selected_weight(
                        items@,
                        x,
                    ) <= start.cap implies #[trigger] selected_value(items@, x) <= env.best_val by {
                    if is_selected(items@, x, item_idx as int) {
                        assert forall|p: int| 0 <= p < item_idx + 1 implies is_selected(items@, x, p)
                            == is_selected(items@, taken.cur_indices@, p) by {
                            if p < item_idx {
                                assert(items@[p].index != cur_item.index);
                            }
                        }
                        assert(extends(items@, x, taken.cur_indices@, item_idx + 1));
                    } else {
                        assert(!is_selected(items@, x, item_idx as int));
                    }
                }
            }
            lemma_sel_unmark(items@, env.cur_indices@, item_idx as int, 0, items@.len() as int);
            assert(env.cur_indices@.update(cur_item.index as int, 0) =~= before);
        }
        env.cur_indices.set(cur_item.index, 0);
        env.cur_val = env.cur_val - cur_item.value;
        env.cur_weight = env.cur_weight - cur_item.weight;
    } else {
        proof {
            if exact_search(items@, start.error) {
                assert forall|x: Seq<usize>|
                    extends(items@, x, start.cur_indices@, item_idx as int) && selected_weight(
                        items@,
                        x,
                    ) <= start.cap implies #[trigger] selected_value(items@, x) <= env.best_val by {
                    if is_selected(items@, x, item_idx as int) {
                        assert(avoids(items@, x, mask));
                    } else {
                        assert(!is_selected(items@, x, item_idx as int));
                    }
                }
            }
        }
    }
    env
}

/// Solves the instance by branch and bound with the tolerance `error`. The
/// items are reordered, densest first (a stable sort), and the selection is
/// laid out by each item's `index`. Returns the value found, the optimality flag
/// (1 when `error` is zero, else 0), and the selection. The value never
/// exceeds the optimum; at zero tolerance, with every weight positive, it is
/// the optimum.
pub fn solve_bb(items: &mut Vec<Item>, error: Tolerance, cap: usize) -> (r: (usize, usize, Vec<usize>))
    requires
        indices_ok(old(items)@),
        value_sum(old(items)@, old(items)@.len() as int) <= usize::MAX,
        error.wf(),
    ensures
        final(items)@.to_multiset() == old(items)@.to_multiset(),
        final(items)@.len() == old(items)@.len(),
        indices_ok(final(items)@),
        weights_positive(old(items)@) ==> weights_positive(final(items)@) && by_density_desc(
            final(items)@,
        ),
        r.1 == (if error.num == 0 {
            1usize
        } else {
            0usize
        }),
        is_selection(r.2@, final(items)@.len() as int),
        selected_value(final(items)@, r.2@) == r.0,
        selected_weight(final(items)@, r.2@) <= cap,
        r.0 <= opt(final(items)@, final(items)@.len() as int, cap as int),
        error.num == 0 && weights_positive(old(items)@) ==> forall|x: Seq<usize>|
            selected_weight(final(items)@, x) <= cap ==> #[trigger] selected_value(
                final(items)@,
                x,
            ) <= r.0,
{
    sort_by_density_desc(items);
    let n = items.len();
    let no_discard: Vec<usize> = vec![0; n];
    let est = best_greedy(items.as_slice(), no_discard.as_slice(), error, cap);
    let mut discard: Vec<usize> = vec![0; n];
    let env = Env::new(items.as_slice(), cap, error);
    proof {
        if exact_search(items@, error) {
            assert forall|x: Seq<usize>|
                avoids(items@, x, discard@) && selected_weight(items@, x) <= cap implies #[trigger] selected_value(
                items@,
                x,
            ) <= est by {
                law_greedy_bound_sound(items@, no_discard@, x, error, cap as int);
            }
        }
    }
    let res = recur(items.as_slice(), 0, &mut discard, est, env);
    proof {
        lemma_opt_upper(items@, res.best_indices@, n as int, cap as int);
        if exact_search(items@, error) {
            assert forall|x: Seq<usize>|
                selected_weight(items@, x) <= cap implies #[trigger] selected_value(items@, x)
                <= res.best_val by {
                assert(extends(items@, x, env.cur_indices@, 0));
            }
        }
    }
    let flag: usize = if error.is_zero() {
        1
    } else {
        0
    };
    (res.best_val, flag, res.best_indices)
}

} // verus!
