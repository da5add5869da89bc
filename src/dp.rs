//! Exact dynamic programming over a sparse table, with traceback.
use vstd::prelude::*;
use fxhash::FxHashMap;
use crate::item::{
    Item, indices_ok, is_selected, is_selection, sel_weight, sel_value, selected_weight,
    selected_value, value_sum, by_weight_desc, sort_by_weight_desc, lemma_value_sum_mono,
    lemma_sel_mark,
};

verus! {

/// The best total value of a subset of the items at positions `0 .. i` whose
/// total weight is at most `c`.
pub open spec fn opt(items: Seq<Item>, i: int, c: int) -> int
    decreases i,
{
    if i <= 0 {
        0
    } else if items[i - 1].weight > c {
        opt(items, i - 1, c)
    } else {
        let skip = opt(items, i - 1, c);
        let take = opt(items, i - 1, c - items[i - 1].weight) + items[i - 1].value;
        if take > skip {
            take
        } else {
            skip
        }
    }
}

pub proof fn lemma_opt_bounds(items: Seq<Item>, i: int, c: int)
    requires
        0 <= i <= items.len(),
    ensures
        0 <= opt(items, i, c) <= value_sum(items, i),
    decreases i,
{
    if i > 0 {
        lemma_opt_bounds(items, i - 1, c);
        lemma_opt_bounds(items, i - 1, c - items[i - 1].weight);
    }
}

/// With every item heavier than `c`, nothing fits.
pub proof fn lemma_opt_heavy(items: Seq<Item>, i: int, c: int)
    requires
        0 <= i <= items.len(),
        forall|p: int| 0 <= p < i ==> (#[trigger] items[p]).weight > c,
    ensures
        opt(items, i, c) == 0,
    decreases i,
{
    if i > 0 {
        lemma_opt_heavy(items, i - 1, c);
    }
}

/// No selection within capacity beats the optimum.
pub proof fn lemma_opt_upper(items: Seq<Item>, sel: Seq<usize>, i: int, c: int)
    requires
        0 <= i <= items.len(),
        sel_weight(items, sel, 0, i) <= c,
    ensures
        sel_value(items, sel, 0, i) <= opt(items, i, c),
    decreases i,
{
    if i > 0 {
        if is_selected(items, sel, i - 1) {
            lemma_opt_upper(items, sel, i - 1, c - items[i - 1].weight);
            assert(sel_weight(items, sel, 0, i - 1) >= 0) by {
                lemma_sel_weight_nonneg(items, sel, 0, i - 1);
            }
        } else {
            lemma_opt_upper(items, sel, i - 1, c);
        }
    }
}

pub proof fn lemma_sel_weight_nonneg(items: Seq<Item>, sel: Seq<usize>, lo: int, hi: int)
    ensures
        sel_weight(items, sel, lo, hi) >= 0,
    decreases hi - lo,
{
    if lo < hi {
        lemma_sel_weight_nonneg(items, sel, lo, hi - 1);
    }
}

/// The sparse table: `(prefix count, capacity)` to the best value; a missing
/// key stands for 0.
#[verifier::external_body]
pub struct DpTable {
    map: FxHashMap<(usize, usize), usize>,
}

/// The entries of a table.
pub uninterp spec fn table_cells(t: DpTable) -> Map<(usize, usize), usize>;

/// The entries of an empty table.
pub open spec fn no_cells() -> Map<(usize, usize), usize> {
    Map::empty()
}

/// The value a table gives for `(r, c)`, 0 where it holds no entry.
pub open spec fn cell(m: Map<(usize, usize), usize>, r: usize, c: usize) -> int {
    if m.contains_key((r, c)) {
        m[(r, c)] as int
    } else {
        0
    }
}

impl DpTable {
    /// Relies on `FxHashMap::default` (std's `HashMap::default`): a new map is empty.
    #[verifier::external_body]
    fn new() -> (r: DpTable)
        ensures
            table_cells(r) == no_cells(),
    {
        DpTable { map: FxHashMap::default() }
    }

    /// Relies on `HashMap::get`: the value under `key`, if any.
    #[verifier::external_body]
    fn get(&self, key: (usize, usize)) -> (r: Option<usize>)
        ensures
            r == (if table_cells(*self).contains_key(key) {
                Some(table_cells(*self)[key])
            } else {
                None
            }),
    {
        self.map.get(&key).copied()
    }

    /// Relies on `HashMap::insert`: `key` now maps to `v`, other keys are untouched.
    #[verifier::external_body]
    fn insert(&mut self, key: (usize, usize), v: usize)
        ensures
            table_cells(*final(self)) == table_cells(*old(self)).insert(key, v),
    {
        self.map.insert(key, v);
    }

    /// The value for `(r, c)`, 0 where the table holds none.
    fn value_at(&self, r: usize, c: usize) -> (v: usize)
        ensures
            v == cell(table_cells(*self), r, c),
    {
        match self.get((r, c)) {
            Some(v) => v,
            None => 0,
        }
    }
}

/// The table agrees with `opt` on every row up to `rows` and every capacity up to `cap`.
pub open spec fn table_exact(m: Map<(usize, usize), usize>, items: Seq<Item>, rows: int, cap: int) -> bool {
    forall|r: usize, c: usize|
        r <= rows && c <= cap ==> #[trigger] cell(m, r, c) == opt(items, r as int, c as int)
}

/// A selection that marks no item has empty sums.
pub proof fn lemma_sel_none(items: Seq<Item>, sel: Seq<usize>, lo: int, hi: int)
    requires
        forall|p: int| lo <= p < hi ==> !is_selected(items, sel, p),
    ensures
        sel_weight(items, sel, lo, hi) == 0,
        sel_value(items, sel, lo, hi) == 0,
    decreases hi - lo,
{
    if lo < hi {
        lemma_sel_none(items, sel, lo, hi - 1);
    }
}

/// Walks the table back from `last_cell`, marking each item whose row raised
/// the value, and returns the value so gathered with the selection.
fn reverse(dp: DpTable, items: &[Item], last_cell: (usize, usize)) -> (r: (usize, Vec<usize>))
    requires
        indices_ok(items@),
        last_cell.0 <= items@.len(),
        table_exact(table_cells(dp), items@, last_cell.0 as int, last_cell.1 as int),
        value_sum(items@, items@.len() as int) <= usize::MAX,
    ensures
        r.0 == opt(items@, last_cell.0 as int, last_cell.1 as int),
        is_selection(r.1@, items@.len() as int),
        selected_value(items@, r.1@) == r.0,
        selected_weight(items@, r.1@) <= last_cell.1,
{
    let n = items.len();
    let mut res: Vec<usize> = vec![0; n];
    let mut value: usize = 0;
    let mut cur_idx: usize = last_cell.0;
    let mut cur_cap: usize = last_cell.1;
    let ghost top = opt(items@, last_cell.0 as int, last_cell.1 as int);
    proof {
        lemma_sel_none(items@, res@, 0, n as int);
        lemma_opt_bounds(items@, last_cell.0 as int, last_cell.1 as int);
        lemma_value_sum_mono(items@, last_cell.0 as int, n as int);
    }
    while cur_idx > 0
        invariant
            n == items@.len(),
            indices_ok(items@),
            table_exact(table_cells(dp), items@, last_cell.0 as int, last_cell.1 as int),
            top == opt(items@, last_cell.0 as int, last_cell.1 as int),
            top <= usize::MAX,
            last_cell.0 <= n,
            cur_idx <= last_cell.0,
            cur_cap <= last_cell.1,
            is_selection(res@, n as int),
            forall|p: int| 0 <= p < cur_idx ==> res@[(#[trigger] items@[p]).index as int] == 0,
            value + opt(items@, cur_idx as int, cur_cap as int) == top,
            sel_value(items@, res@, 0, n as int) == value,
            sel_weight(items@, res@, 0, n as int) + cur_cap == last_cell.1,
        decreases cur_idx,
    {
        let cur_v = dp.value_at(cur_idx, cur_cap);
        let prev_v = dp.value_at(cur_idx - 1, cur_cap);
        if cur_v != prev_v {
            let tmp = items[cur_idx - 1];
            proof {
                assert(cur_v == opt(items@, cur_idx as int, cur_cap as int));
                assert(prev_v == opt(items@, cur_idx - 1, cur_cap as int));
                lemma_opt_bounds(items@, cur_idx - 1, cur_cap - tmp.weight);
                lemma_sel_mark(items@, res@, cur_idx - 1, 0, n as int);
                assert(is_selection(res@.update(tmp.index as int, 1), n as int));
            }
            cur_cap = cur_cap - tmp.weight;
            cur_idx = cur_idx - 1;
            res.set(tmp.index, 1);
            value = value + tmp.value;
        } else {
            proof {
                assert(cur_v == opt(items@, cur_idx as int, cur_cap as int));
                assert(prev_v == opt(items@, cur_idx - 1, cur_cap as int));
            }
            cur_idx = cur_idx - 1;
        }
    }
    (value, res)
}

/// Solves the instance exactly. The items are reordered, heaviest first
/// (a stable sort), and the selection is laid out by each item's `index`.
/// Returns the best value, the optimality flag 1, and the selection.
pub fn solve(items: &mut Vec<Item>, cap: usize) -> (r: (usize, usize, Vec<usize>))
    requires
        indices_ok(old(items)@),
        value_sum(old(items)@, old(items)@.len() as int) <= usize::MAX,
    ensures
        final(items)@.to_multiset() == old(items)@.to_multiset(),
        final(items)@.len() == old(items)@.len(),
        indices_ok(final(items)@),
        by_weight_desc(final(items)@),
        r.0 == opt(final(items)@, final(items)@.len() as int, cap as int),
        r.1 == 1,
        is_selection(r.2@, final(items)@.len() as int),
        selected_value(final(items)@, r.2@) == r.0,
        selected_weight(final(items)@, r.2@) <= cap,
        forall|sel: Seq<usize>|
            selected_weight(final(items)@, sel) <= cap ==> #[trigger] selected_value(
                final(items)@,
                sel,
            ) <= r.0,
{
    sort_by_weight_desc(items);
    let n = items.len();
    let ghost s = items@;
    let mut dp = DpTable::new();
    let mut last_cell: (usize, usize) = (0, 0);
    let mut item_idx: usize = 0;
    while item_idx < n
        invariant
            items@ == s,
            n == s.len(),
            indices_ok(s),
            by_weight_desc(s),
            value_sum(s, n as int) <= usize::MAX,
            item_idx <= n,
            forall|k: (usize, usize)| #[trigger]
                table_cells(dp).contains_key(k) ==> k.0 <= item_idx && k.1 <= cap,
            table_exact(table_cells(dp), s, item_idx as int, cap as int),
            (last_cell.0 == 0 && last_cell.1 == 0 && forall|p: int|
                0 <= p < item_idx ==> (#[trigger] s[p]).weight > cap) || (last_cell.0
                == item_idx && last_cell.1 == cap && item_idx > 0 && s[item_idx - 1].weight
                <= cap),
        decreases n - item_idx,
    {
        let item = items[item_idx];
        if item.weight > cap {
            proof {
                assert forall|r: usize, c: usize|
                    r <= item_idx + 1 && c <= cap implies #[trigger] cell(table_cells(dp), r, c)
                    == opt(s, r as int, c as int) by {
                    if r == item_idx + 1 {
                        assert(!table_cells(dp).contains_key((r, c)));
                        lemma_opt_heavy(s, r as int, c as int);
                    }
                }
            }
            item_idx = item_idx + 1;
        } else {
            let ghost before = table_cells(dp);
            let mut cur_cap: usize = item.weight;
            let mut going: bool = true;
            proof {
                lemma_value_sum_mono(s, item_idx + 1, n as int);
            }
            while going
                invariant
                    items@ == s,
                    n == s.len(),
                    item_idx < n,
                    item == s[item_idx as int],
                    item.weight <= cur_cap <= cap,
                    value_sum(s, item_idx + 1) <= usize::MAX,
                    forall|k: (usize, usize)| #[trigger]
                        table_cells(dp).contains_key(k) ==> (k.0 <= item_idx || (k.0 == item_idx
                            + 1 && item.weight <= k.1 && (k.1 < cur_cap || !going))) && k.1
                            <= cap,
                    forall|r: usize, c: usize|
                        r <= item_idx && c <= cap ==> #[trigger] cell(table_cells(dp), r, c)
                            == cell(before, r, c),
                    table_exact(before, s, item_idx as int, cap as int),
                    !going ==> last_cell.0 == item_idx + 1 && last_cell.1 == cap,
                    forall|c: usize|
                        item.weight <= c <= cap && (c < cur_cap || !going) ==> #[trigger] cell(
                            table_cells(dp),
                            (item_idx + 1) as usize,
                            c,
                        ) == opt(s, item_idx + 1, c as int),
                decreases cap - cur_cap + if going {
                    1int
                } else {
                    0
                },
            {
                let ignore = dp.value_at(item_idx, cur_cap);
                let prior = dp.value_at(item_idx, cur_cap - item.weight);
                proof {
                    assert(cell(table_cells(dp), item_idx, cur_cap) == cell(before, item_idx, cur_cap));
                    assert(cell(table_cells(dp), item_idx, (cur_cap - item.weight) as usize) == cell(before, item_idx, (cur_cap - item.weight) as usize));
                    lemma_opt_bounds(s, item_idx as int, cur_cap - item.weight);
                    assert(value_sum(s, item_idx + 1) == value_sum(s, item_idx as int) + item.value);
                }
                let take = prior + item.value;
                let w = if ignore > take {
                    ignore
                } else {
                    take
                };
                last_cell = (item_idx + 1, cur_cap);
                let ghost mid = table_cells(dp);
                proof {
                    assert(cell(before, item_idx, cur_cap) == opt(s, item_idx as int, cur_cap as int));
                    assert(cell(before, item_idx, (cur_cap - item.weight) as usize) == opt(s, item_idx as int, cur_cap - item.weight));
                    assert(w == opt(s, item_idx + 1, cur_cap as int));
                }
                if w > 0 {
                    dp.insert(last_cell, w);
                }
                proof {
                    assert forall|r: usize, c: usize|
                        r != item_idx + 1 || c != cur_cap implies #[trigger] cell(
                        table_cells(dp),
                        r,
                        c,
                    ) == cell(mid, r, c) by {
                        assert(table_cells(dp).contains_key((r, c)) == mid.contains_key((r, c)));
                    }
                    if w == 0 {
                        assert(!mid.contains_key(((item_idx + 1) as usize, cur_cap)));
                    }
                    assert(cell(table_cells(dp), (item_idx + 1) as usize, cur_cap) == w);
                }
                if cur_cap == cap {
                    going = false;
                } else {
                    cur_cap = cur_cap + 1;
                }
            }
            proof {
                assert forall|r: usize, c: usize|
                    r <= item_idx + 1 && c <= cap implies #[trigger] cell(table_cells(dp), r, c)
                    == opt(s, r as int, c as int) by {
                    if r == item_idx + 1 && c < item.weight {
                        assert(!table_cells(dp).contains_key((r, c)));
                        assert forall|p: int| 0 <= p < item_idx + 1 implies (#[trigger] s[p]).weight > c by {
                            assert(s[p].weight >= item.weight);
                        }
                        lemma_opt_heavy(s, r as int, c as int);
                    } else if r <= item_idx {
                        assert(cell(table_cells(dp), r, c) == cell(before, r, c));
                    } else {
                        assert(cell(table_cells(dp), (item_idx + 1) as usize, c) == opt(
                            s,
                            item_idx + 1,
                            c as int,
                        ));
                    }
                }
            }
            item_idx = item_idx + 1;
        }
    }
    proof {
        if last_cell.0 == 0 {
            lemma_opt_heavy(s, n as int, cap as int);
        }
    }
    let (value, taken) = reverse(dp, items.as_slice(), last_cell);
    proof {
        assert forall|sel: Seq<usize>|
            selected_weight(s, sel) <= cap implies #[trigger] selected_value(s, sel) <= value by {
            lemma_opt_upper(s, sel, n as int, cap as int);
        }
    }
    (value, 1, taken)
}

} // verus!
