//! Items, selections over them, and the two stable orderings the solvers use.
use vstd::prelude::*;

verus! {

broadcast use vstd::seq_lib::group_to_multiset_ensures;

/// An input record: its position in the caller's list, its value and its weight.
#[derive(Clone, Copy, Debug)]
pub struct Item {
    pub index: usize,
    pub value: usize,
    pub weight: usize,
}

/// Every item's `index` is below the item count, and no two items share one.
pub open spec fn indices_ok(items: Seq<Item>) -> bool {
    &&& forall|p: int| 0 <= p < items.len() ==> (#[trigger] items[p]).index < items.len()
    &&& forall|p: int, q: int|
        0 <= p < items.len() && 0 <= q < items.len() && p != q ==> (#[trigger] items[p]).index
            != (#[trigger] items[q]).index
}

/// Whether the item at position `p` is marked in the selection `sel`.
pub open spec fn is_selected(items: Seq<Item>, sel: Seq<usize>, p: int) -> bool {
    sel[items[p].index as int] == 1
}

/// Sum of the weights of the marked items among positions `lo .. hi`.
pub open spec fn sel_weight(items: Seq<Item>, sel: Seq<usize>, lo: int, hi: int) -> int
    decreases hi - lo,
{
    if hi <= lo {
        0
    } else {
        sel_weight(items, sel, lo, hi - 1) + if is_selected(items, sel, hi - 1) {
            items[hi - 1].weight as int
        } else {
            0
        }
    }
}

/// Sum of the values of the marked items among positions `lo .. hi`.
pub open spec fn sel_value(items: Seq<Item>, sel: Seq<usize>, lo: int, hi: int) -> int
    decreases hi - lo,
{
    if hi <= lo {
        0
    } else {
        sel_value(items, sel, lo, hi - 1) + if is_selected(items, sel, hi - 1) {
            items[hi - 1].value as int
        } else {
            0
        }
    }
}

/// Total weight of the items that `sel` marks.
pub open spec fn selected_weight(items: Seq<Item>, sel: Seq<usize>) -> int {
    sel_weight(items, sel, 0, items.len() as int)
}

/// Total value of the items that `sel` marks.
pub open spec fn selected_value(items: Seq<Item>, sel: Seq<usize>) -> int {
    sel_value(items, sel, 0, items.len() as int)
}

/// A selection: one 0/1 flag per item `index`.
pub open spec fn is_selection(sel: Seq<usize>, n: int) -> bool {
    sel.len() == n && forall|j: int| 0 <= j < n ==> #[trigger] sel[j] == 0 || sel[j] == 1
}

/// Sum of the values of the items at positions `0 .. k`.
pub open spec fn value_sum(items: Seq<Item>, k: int) -> int
    decreases k,
{
    if k <= 0 {
        0
    } else {
        value_sum(items, k - 1) + items[k - 1].value
    }
}

/// Whether the items are ordered by weight, heaviest first.
pub open spec fn by_weight_desc(items: Seq<Item>) -> bool {
    forall|p: int, q: int|
        0 <= p < q < items.len() ==> (#[trigger] items[p]).weight >= (#[trigger] items[q]).weight
}

/// Ordered by value per unit of weight, densest first.
pub open spec fn by_density_desc(items: Seq<Item>) -> bool {
    forall|p: int, q: int|
        0 <= p < q < items.len() ==> (#[trigger] items[p]).value * (#[trigger] items[q]).weight
            >= items[q].value * items[p].weight
}

/// Every item weighs something.
pub open spec fn weights_positive(items: Seq<Item>) -> bool {
    forall|p: int| 0 <= p < items.len() ==> (#[trigger] items[p]).weight > 0
}

/// Density order is transitive through an item that weighs something.
pub proof fn lemma_density_trans(x: Item, y: Item, z: Item)
    requires
        y.weight > 0,
        x.value * y.weight >= y.value * x.weight,
        y.value * z.weight >= z.value * y.weight,
    ensures
        x.value * z.weight >= z.value * x.weight,
{
    let (xv, xw, yv, yw, zv, zw) = (
        x.value as int,
        x.weight as int,
        y.value as int,
        y.weight as int,
        z.value as int,
        z.weight as int,
    );
    assert(xv * yw * zw >= yv * xw * zw) by (nonlinear_arith)
        requires
            xv * yw >= yv * xw,
            zw >= 0,
    ;
    assert(yv * zw * xw >= zv * yw * xw) by (nonlinear_arith)
        requires
            yv * zw >= zv * yw,
            xw >= 0,
    ;
    assert(yw * (xv * zw - zv * xw) >= 0) by (nonlinear_arith)
        requires
            xv * yw * zw >= yv * xw * zw,
            yv * zw * xw >= zv * yw * xw,
    ;
    assert(xv * zw - zv * xw >= 0) by (nonlinear_arith)
        requires
            yw * (xv * zw - zv * xw) >= 0,
            yw > 0,
    ;
}

/// `a`'s value per unit of weight is strictly above `b`'s, compared without division.
pub open spec fn denser(a: Item, b: Item) -> bool {
    a.value * b.weight > b.value * a.weight
}

pub proof fn lemma_value_sum_mono(items: Seq<Item>, j: int, k: int)
    requires
        0 <= j <= k <= items.len(),
    ensures
        value_sum(items, j) <= value_sum(items, k),
    decreases k - j,
{
    if j < k {
        lemma_value_sum_mono(items, j, k - 1);
    }
}

/// Splitting a range of positions at its first element.
pub proof fn lemma_sel_front(items: Seq<Item>, sel: Seq<usize>, lo: int, hi: int)
    requires
        lo < hi,
    ensures
        sel_weight(items, sel, lo, hi) == sel_weight(items, sel, lo + 1, hi) + if is_selected(
            items,
            sel,
            lo,
        ) {
            items[lo].weight as int
        } else {
            0
        },
        sel_value(items, sel, lo, hi) == sel_value(items, sel, lo + 1, hi) + if is_selected(
            items,
            sel,
            lo,
        ) {
            items[lo].value as int
        } else {
            0
        },
    decreases hi - lo,
{
    if lo + 1 < hi {
        lemma_sel_front(items, sel, lo, hi - 1);
        assert(sel_weight(items, sel, lo, hi) == sel_weight(items, sel, lo, hi - 1) + (if is_selected(items, sel, hi - 1) { items[hi - 1].weight as int } else { 0 }));
        assert(sel_weight(items, sel, lo + 1, hi) == sel_weight(items, sel, lo + 1, hi - 1) + (if is_selected(items, sel, hi - 1) { items[hi - 1].weight as int } else { 0 }));
        assert(sel_value(items, sel, lo, hi) == sel_value(items, sel, lo, hi - 1) + (if is_selected(items, sel, hi - 1) { items[hi - 1].value as int } else { 0 }));
        assert(sel_value(items, sel, lo + 1, hi) == sel_value(items, sel, lo + 1, hi - 1) + (if is_selected(items, sel, hi - 1) { items[hi - 1].value as int } else { 0 }));
    } else {
        assert(sel_weight(items, sel, lo, lo) == 0);
        assert(sel_value(items, sel, lo, lo) == 0);
        assert(sel_weight(items, sel, lo + 1, hi) == 0);
        assert(sel_value(items, sel, lo + 1, hi) == 0);
    }
}

/// Two selections that agree on the indices of the items at `lo .. hi` give equal sums there.
pub proof fn lemma_sel_agree(items: Seq<Item>, s1: Seq<usize>, s2: Seq<usize>, lo: int, hi: int)
    requires
        forall|p: int| lo <= p < hi ==> is_selected(items, s1, p) == is_selected(items, s2, p),
    ensures
        sel_weight(items, s1, lo, hi) == sel_weight(items, s2, lo, hi),
        sel_value(items, s1, lo, hi) == sel_value(items, s2, lo, hi),
    decreases hi - lo,
{
    if lo < hi {
        lemma_sel_agree(items, s1, s2, lo, hi - 1);
    }
}

/// Setting the flag of one unmarked item adds exactly that item to the sums.
pub proof fn lemma_sel_mark(items: Seq<Item>, sel: Seq<usize>, p: int, lo: int, hi: int)
    requires
        indices_ok(items),
        sel.len() == items.len(),
        0 <= lo <= p < hi <= items.len(),
        sel[items[p].index as int] == 0,
    ensures
        sel_weight(items, sel.update(items[p].index as int, 1), lo, hi) == sel_weight(
            items,
            sel,
            lo,
            hi,
        ) + items[p].weight,
        sel_value(items, sel.update(items[p].index as int, 1), lo, hi) == sel_value(
            items,
            sel,
            lo,
            hi,
        ) + items[p].value,
    decreases hi - lo,
{
    let s2 = sel.update(items[p].index as int, 1);
    if p < hi - 1 {
        lemma_sel_mark(items, sel, p, lo, hi - 1);
        assert(items[hi - 1].index != items[p].index);
    } else {
        lemma_sel_agree(items, sel, s2, lo, p);
        assert forall|q: int| lo <= q < p implies is_selected(items, sel, q) == is_selected(
            items,
            s2,
            q,
        ) by {
            assert(items[q].index != items[p].index);
        }
        lemma_sel_agree(items, sel, s2, lo, p);
    }
}

/// Clearing the flag of one marked item removes exactly that item from the sums.
pub proof fn lemma_sel_unmark(items: Seq<Item>, sel: Seq<usize>, p: int, lo: int, hi: int)
    requires
        indices_ok(items),
        sel.len() == items.len(),
        0 <= lo <= p < hi <= items.len(),
        sel[items[p].index as int] == 1,
    ensures
        sel_weight(items, sel.update(items[p].index as int, 0), lo, hi) + items[p].weight
            == sel_weight(items, sel, lo, hi),
        sel_value(items, sel.update(items[p].index as int, 0), lo, hi) + items[p].value
            == sel_value(items, sel, lo, hi),
{
    let s0 = sel.update(items[p].index as int, 0);
    lemma_sel_mark(items, s0, p, lo, hi);
    assert(s0.update(items[p].index as int, 1) =~= sel);
}

/// Exchanging two neighbours leaves every other prefix total unchanged.
pub proof fn lemma_value_sum_swap(s: Seq<Item>, i: int, k: int)
    requires
        0 <= i,
        i + 1 < s.len(),
        0 <= k <= s.len(),
        k != i + 1,
    ensures
        value_sum(s.update(i, s[i + 1]).update(i + 1, s[i]), k) == value_sum(s, k),
    decreases k,
{
    let t = s.update(i, s[i + 1]).update(i + 1, s[i]);
    if k > 0 && k != i + 2 {
        lemma_value_sum_swap(s, i, k - 1);
    } else if k == i + 2 {
        lemma_value_sum_swap(s, i, i);
        assert(value_sum(t, i + 1) == value_sum(t, i) + t[i].value);
        assert(value_sum(s, i + 1) == value_sum(s, i) + s[i].value);
        assert(value_sum(t, k) == value_sum(t, i) + t[i].value + t[i + 1].value);
        assert(value_sum(s, k) == value_sum(s, i) + s[i].value + s[i + 1].value);
    }
}

/// Sums over two sequences that agree on positions `0 .. hi` agree there.
pub proof fn lemma_sel_same_prefix(s: Seq<Item>, t: Seq<Item>, x: Seq<usize>, hi: int)
    requires
        0 <= hi <= s.len(),
        hi <= t.len(),
        forall|p: int| 0 <= p < hi ==> s[p] == t[p],
    ensures
        sel_value(s, x, 0, hi) == sel_value(t, x, 0, hi),
        sel_weight(s, x, 0, hi) == sel_weight(t, x, 0, hi),
    decreases hi,
{
    if hi > 0 {
        lemma_sel_same_prefix(s, t, x, hi - 1);
    }
}

/// Removing the item at position `j` removes exactly its share of the sums.
pub proof fn lemma_sel_remove(s: Seq<Item>, x: Seq<usize>, j: int, hi: int)
    requires
        0 <= j < hi <= s.len(),
    ensures
        sel_value(s, x, 0, hi) == sel_value(s.remove(j), x, 0, hi - 1) + if is_selected(s, x, j) {
            s[j].value as int
        } else {
            0
        },
        sel_weight(s, x, 0, hi) == sel_weight(s.remove(j), x, 0, hi - 1) + if is_selected(s, x, j) {
            s[j].weight as int
        } else {
            0
        },
    decreases hi,
{
    let r = s.remove(j);
    if hi == j + 1 {
        lemma_sel_same_prefix(s, r, x, j);
    } else {
        lemma_sel_remove(s, x, j, hi - 1);
        assert(r[hi - 2] == s[hi - 1]);
    }
}

/// The sums of a selection do not depend on the order of the items.
pub proof fn lemma_sel_permutation(s1: Seq<Item>, s2: Seq<Item>, x: Seq<usize>)
    requires
        s1.to_multiset() == s2.to_multiset(),
    ensures
        selected_value(s1, x) == selected_value(s2, x),
        selected_weight(s1, x) == selected_weight(s2, x),
    decreases s1.len(),
{
    if s1.len() == 0 {
        assert(s2.to_multiset().len() == 0);
        assert(s2.len() == 0);
    } else {
        let n = s1.len() as int;
        let e = s1[n - 1];
        assert(s1.to_multiset().count(e) > 0) by {
            assert(s1.contains(e));
        }
        assert(s2.contains(e));
        let j = choose|j: int| 0 <= j < s2.len() && s2[j] == e;
        let r1 = s1.remove(n - 1);
        let r2 = s2.remove(j);
        assert(r1.to_multiset() == s1.to_multiset().remove(e));
        assert(r2.to_multiset() == s2.to_multiset().remove(e));
        lemma_sel_permutation(r1, r2, x);
        lemma_sel_remove(s1, x, n - 1, n);
        lemma_sel_remove(s2, x, j, s2.len() as int);
        vstd::seq_lib::to_multiset_len(s1);
        vstd::seq_lib::to_multiset_len(s2);
    }
}

/// Exchanges the items at positions `i` and `j`.
fn swap_items(v: &mut Vec<Item>, i: usize, j: usize)
    requires
        i < old(v).len(),
        j < old(v).len(),
    ensures
        final(v)@ == old(v)@.update(i as int, old(v)@[j as int]).update(j as int, old(v)@[i as int]),
        final(v)@.to_multiset() == old(v)@.to_multiset(),
        indices_ok(old(v)@) ==> indices_ok(final(v)@),
{
    let a = v[i];
    let b = v[j];
    proof {
        let s = v@;
        let s1 = s.update(i as int, b);
        let s2 = s1.update(j as int, a);
        assert(s1.to_multiset() == s.to_multiset().insert(b).remove(a));
        assert(s2.to_multiset() == s1.to_multiset().insert(a).remove(s1[j as int]));
        if i == j {
            assert(s2 =~= s);
        } else {
            assert(s.to_multiset().insert(b).remove(a).insert(a).remove(b) =~= s.to_multiset());
        }
    }
    v.set(i, b);
    v.set(j, a);
}

/// Two machine words multiply within 128 bits.
pub proof fn lemma_mul_fits(x: int, y: int)
    requires
        0 <= x <= usize::MAX,
        0 <= y <= usize::MAX,
    ensures
        0 <= x * y <= u128::MAX,
{
    assert(usize::MAX <= u64::MAX);
    assert(0 <= x * y <= u64::MAX * u64::MAX) by (nonlinear_arith)
        requires
            0 <= x <= u64::MAX,
            0 <= y <= u64::MAX,
    ;
}

/// Whether `a` has a strictly higher value per unit of weight than `b`.
pub fn is_denser(a: &Item, b: &Item) -> (r: bool)
    ensures
        r == denser(*a, *b),
{
    proof {
        lemma_mul_fits(a.value as int, b.weight as int);
        lemma_mul_fits(b.value as int, a.weight as int);
    }
    let x: u128 = a.value as u128 * b.weight as u128;
    let y: u128 = b.value as u128 * a.weight as u128;
    x > y
}

/// Stable sort by weight, heaviest first: equal weights keep their order.
pub fn sort_by_weight_desc(items: &mut Vec<Item>)
    ensures
        value_sum(final(items)@, final(items)@.len() as int) == value_sum(old(items)@, old(items)@.len() as int),
        final(items)@.to_multiset() == old(items)@.to_multiset(),
        final(items)@.len() == old(items)@.len(),
        indices_ok(old(items)@) ==> indices_ok(final(items)@),
        by_weight_desc(final(items)@),
        by_weight_desc(old(items)@) ==> final(items)@ == old(items)@,
{
    let ghost start = items@;
    let n = items.len();
    let mut i: usize = 0;
    while i < n
        invariant
            n == items.len(),
            i <= n,
            items@.to_multiset() == start.to_multiset(),
            indices_ok(start) ==> indices_ok(items@),
            value_sum(items@, n as int) == value_sum(start, n as int),
            forall|p: int, q: int|
                0 <= p < q < i ==> (#[trigger] items@[p]).weight >= (#[trigger] items@[q]).weight,
            by_weight_desc(start) ==> items@ == start,
        decreases n - i,
    {
        let mut j: usize = i;
        while j > 0 && items[j - 1].weight < items[j].weight
            invariant
                n == items.len(),
                i < n,
                j <= i,
                items@.to_multiset() == start.to_multiset(),
                indices_ok(start) ==> indices_ok(items@),
                value_sum(items@, n as int) == value_sum(start, n as int),
                forall|p: int, q: int|
                    0 <= p < q <= i && p != j && q != j ==> (#[trigger] items@[p]).weight
                        >= (#[trigger] items@[q]).weight,
                forall|q: int| j < q <= i ==> items@[j as int].weight >= (#[trigger] items@[q]).weight,
                by_weight_desc(start) ==> items@ == start,
            decreases j,
        {
            proof {
                lemma_value_sum_swap(items@, j - 1, n as int);
            }
            swap_items(items, j - 1, j);
            j = j - 1;
        }
        assert forall|p: int, q: int|
            0 <= p < q <= i implies (#[trigger] items@[p]).weight >= (#[trigger] items@[q]).weight by {
            if q == j && p < j - 1 {
                assert(items@[p].weight >= items@[j - 1].weight);
            }
        }
        i = i + 1;
    }
}

/// Stable sort by value per unit of weight, densest first: items of equal
/// density keep their order.
pub fn sort_by_density_desc(items: &mut Vec<Item>)
    ensures
        value_sum(final(items)@, final(items)@.len() as int) == value_sum(old(items)@, old(items)@.len() as int),
        final(items)@.to_multiset() == old(items)@.to_multiset(),
        final(items)@.len() == old(items)@.len(),
        indices_ok(old(items)@) ==> indices_ok(final(items)@),
        weights_positive(old(items)@) ==> weights_positive(final(items)@) && by_density_desc(
            final(items)@,
        ),
{
    let ghost start = items@;
    let n = items.len();
    let mut i: usize = 0;
    while i < n
        invariant
            n == items.len(),
            i <= n,
            items@.to_multiset() == start.to_multiset(),
            indices_ok(start) ==> indices_ok(items@),
            value_sum(items@, n as int) == value_sum(start, n as int),
            weights_positive(start) ==> weights_positive(items@),
            weights_positive(start) ==> forall|p: int, q: int|
                0 <= p < q < i ==> (#[trigger] items@[p]).value * (#[trigger] items@[q]).weight
                    >= items@[q].value * items@[p].weight,
        decreases n - i,
    {
        let mut j: usize = i;
        while j > 0 && is_denser(&items[j], &items[j - 1])
            invariant
                n == items.len(),
                i < n,
                j <= i,
                items@.to_multiset() == start.to_multiset(),
                indices_ok(start) ==> indices_ok(items@),
                value_sum(items@, n as int) == value_sum(start, n as int),
                weights_positive(start) ==> weights_positive(items@),
                weights_positive(start) ==> forall|p: int, q: int|
                    0 <= p < q <= i && p != j && q != j ==> (#[trigger] items@[p]).value * (
                    #[trigger] items@[q]).weight >= items@[q].value * items@[p].weight,
                weights_positive(start) ==> forall|q: int|
                    j < q <= i ==> items@[j as int].value * (#[trigger] items@[q]).weight
                        >= items@[q].value * items@[j as int].weight,
            decreases j,
        {
            proof {
                lemma_value_sum_swap(items@, j - 1, n as int);
            }
            swap_items(items, j - 1, j);
            j = j - 1;
        }
        proof {
            if weights_positive(start) {
                assert forall|p: int, q: int|
                    0 <= p < q <= i implies (#[trigger] items@[p]).value * (
                    #[trigger] items@[q]).weight >= items@[q].value * items@[p].weight by {
                    if q == j && p < j - 1 {
                        lemma_density_trans(items@[p], items@[j - 1], items@[q]);
                    }
                }
            }
        }
        i = i + 1;
    }
}

} // verus!
