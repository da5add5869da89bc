//! The fractional-relaxation bound that drives branch-and-bound pruning.
use vstd::prelude::*;
use vstd::arithmetic::div_mod::{lemma_fundamental_div_mod, lemma_div_pos_is_pos};
use crate::item::{
    Item, value_sum, lemma_value_sum_mono, lemma_mul_fits, is_selected, sel_weight, sel_value,
    selected_weight, selected_value, by_density_desc,
};

verus! {

/// An approximation tolerance equal to `num / den`, in `[0, 1)`.
#[derive(Clone, Copy, Debug)]
pub struct Tolerance {
    pub num: u64,
    pub den: u64,
}

impl Tolerance {
    /// The tolerance is a fraction in `[0, 1)`.
    pub open spec fn wf(self) -> bool {
        self.den > 0 && self.num < self.den
    }

    /// The tolerance `num / den`; `None` unless `0 <= num / den < 1`.
    pub fn new(num: u64, den: u64) -> (r: Option<Tolerance>)
        ensures
            r is Some <==> (den > 0 && num < den),
            r matches Some(t) ==> t.num == num && t.den == den && t.wf(),
    {
        if den > 0 && num < den {
            Some(Tolerance { num, den })
        } else {
            None
        }
    }

    /// No approximation at all: the bound is exact.
    pub fn exact() -> (r: Tolerance)
        ensures
            r.num == 0,
            r.wf(),
    {
        Tolerance { num: 0, den: 1 }
    }

    pub fn is_zero(&self) -> (r: bool)
        ensures
            r == (self.num == 0),
    {
        self.num == 0
    }
}

/// `a / b` rounded to the nearest integer, halves rounded up (away from zero).
pub open spec fn round_div(a: int, b: int) -> int {
    a / b + if 2 * (a % b) >= b {
        1int
    } else {
        0int
    }
}

/// `v * (1 - tol)`, truncated toward zero.
pub open spec fn scale_down(v: int, tol: Tolerance) -> int {
    v * (tol.den - tol.num) / tol.den as int
}

/// The fractional greedy fill from position `p` on, having gained weight `wg`
/// and value `vg`: whole items in order while they fit, then the rounded
/// fraction of the first one that does not; discarded items are passed over.
pub open spec fn greedy_fill(
    items: Seq<Item>,
    discard: Seq<usize>,
    cap: int,
    p: int,
    wg: int,
    vg: int,
) -> int
    decreases items.len() - p,
{
    if p >= items.len() || p < 0 {
        vg
    } else if discard[p] == 1 {
        greedy_fill(items, discard, cap, p + 1, wg, vg)
    } else if wg + items[p].weight > cap {
        vg + round_div((cap - wg) * items[p].value, items[p].weight as int)
    } else if wg + items[p].weight == cap {
        vg + items[p].value
    } else {
        greedy_fill(items, discard, cap, p + 1, wg + items[p].weight, vg + items[p].value)
    }
}

/// The bound on the sub-problem left by `discard`, lowered by the tolerance.
pub open spec fn greedy_bound(items: Seq<Item>, discard: Seq<usize>, tol: Tolerance, cap: int) -> int {
    scale_down(greedy_fill(items, discard, cap, 0, 0, 0), tol)
}

proof fn lemma_fraction_le(wl: int, w: int, v: int)
    requires
        0 <= wl < w,
        0 <= v,
    ensures
        0 <= round_div(wl * v, w) <= v,
{
    let a = wl * v;
    lemma_fundamental_div_mod(a, w);
    let q = a / w;
    let r = a % w;
    assert(0 <= a) by (nonlinear_arith)
        requires
            0 <= wl,
            0 <= v,
            a == wl * v,
    ;
    lemma_div_pos_is_pos(a, w);
    if v == 0 {
        assert(a == 0);
    } else {
        if q >= v {
            assert(w * q >= w * v) by (nonlinear_arith)
                requires
                    w > 0,
                    q >= v,
            ;
            assert(w * v > wl * v) by (nonlinear_arith)
                requires
                    wl < w,
                    v >= 1,
            ;
        }
    }
}

proof fn lemma_scale_le(x: int, tol: Tolerance)
    requires
        0 <= x,
        tol.wf(),
    ensures
        0 <= scale_down(x, tol) <= x,
{
    let d = tol.den as int;
    let m = x * (d - tol.num);
    lemma_fundamental_div_mod(m, d);
    let y = m / d;
    lemma_div_pos_is_pos(m, d);
    assert(0 <= m <= x * d) by (nonlinear_arith)
        requires
            0 <= x,
            m == x * (d - tol.num),
            0 <= tol.num < d,
    ;
    assert(0 <= y <= x) by (nonlinear_arith)
        requires
            m == d * y + m % d,
            0 <= m % d < d,
            0 <= m <= x * d,
    ;
}

/// The fractional-relaxation bound of the items left by `discard` (an item at
/// position `p` takes no part when `discard[p] == 1`), lowered by `error`.
/// The items are expected in order of value per unit of weight, densest first.
pub fn best_greedy(items: &[Item], discard: &[usize], error: Tolerance, cap: usize) -> (r: usize)
    requires
        discard@.len() == items@.len(),
        error.wf(),
        value_sum(items@, items@.len() as int) <= usize::MAX,
    ensures
        r == greedy_bound(items@, discard@, error, cap as int),
{
    let n = items.len();
    let mut weight_gained: usize = 0;
    let mut value_gained: usize = 0;
    let mut p: usize = 0;
    while p < n
        invariant
            n == items@.len(),
            discard@.len() == n,
            p <= n,
            weight_gained <= cap,
            value_gained <= value_sum(items@, p as int),
            value_sum(items@, n as int) <= usize::MAX,
            greedy_fill(items@, discard@, cap as int, 0, 0, 0) == greedy_fill(
                items@,
                discard@,
                cap as int,
                p as int,
                weight_gained as int,
                value_gained as int,
            ),
        decreases n - p,
    {
        let item = items[p];
        proof {
            lemma_value_sum_mono(items@, p + 1, n as int);
        }
        if discard[p] == 1 {
            p = p + 1;
        } else if item.weight > cap - weight_gained {
            let weight_left = cap - weight_gained;
            proof {
                lemma_mul_fits(weight_left as int, item.value as int);
                lemma_fraction_le(weight_left as int, item.weight as int, item.value as int);
            }
            let a: u128 = weight_left as u128 * item.value as u128;
            let w: u128 = item.weight as u128;
            let q: u128 = a / w;
            let rem: u128 = a % w;
            let frac: u128 = if 2 * rem >= w {
                q + 1
            } else {
                q
            };
            value_gained = value_gained + frac as usize;
            p = n;
        } else {
            weight_gained = weight_gained + item.weight;
            value_gained = value_gained + item.value;
            if weight_gained == cap {
                p = n;
            } else {
                p = p + 1;
            }
        }
    }
    proof {
        lemma_value_sum_mono(items@, p as int, n as int);
        lemma_scale_le(value_gained as int, error);
        assert(usize::MAX <= u64::MAX);
        assert(value_gained as int * (error.den - error.num) <= u64::MAX * u64::MAX) by (nonlinear_arith)
            requires
                value_gained <= u64::MAX,
                0 <= error.den - error.num <= u64::MAX,
        ;
    }
    let scaled: u128 = value_gained as u128 * (error.den - error.num) as u128 / error.den as u128;
    scaled as usize
}

/// Total weight of the items at `lo .. hi` that `discard` keeps.
pub open spec fn kept_weight(items: Seq<Item>, discard: Seq<usize>, lo: int, hi: int) -> int
    decreases hi - lo,
{
    if hi <= lo {
        0
    } else {
        kept_weight(items, discard, lo, hi - 1) + if discard[hi - 1] == 1 {
            0
        } else {
            items[hi - 1].weight as int
        }
    }
}

/// Total value of the items at `lo .. hi` that `discard` keeps.
pub open spec fn kept_value(items: Seq<Item>, discard: Seq<usize>, lo: int, hi: int) -> int
    decreases hi - lo,
{
    if hi <= lo {
        0
    } else {
        kept_value(items, discard, lo, hi - 1) + if discard[hi - 1] == 1 {
            0
        } else {
            items[hi - 1].value as int
        }
    }
}

/// The first kept position from `p` on at which the greedy fill, having
/// gained weight `wg`, reaches the capacity; the item count if there is none.
pub open spec fn critical(items: Seq<Item>, discard: Seq<usize>, cap: int, p: int, wg: int) -> int
    decreases items.len() - p,
{
    if p >= items.len() || p < 0 {
        items.len() as int
    } else if discard[p] == 1 {
        critical(items, discard, cap, p + 1, wg)
    } else if wg + items[p].weight >= cap {
        p
    } else {
        critical(items, discard, cap, p + 1, wg + items[p].weight)
    }
}

proof fn lemma_kept_front(items: Seq<Item>, discard: Seq<usize>, lo: int, hi: int)
    requires
        lo < hi,
    ensures
        kept_weight(items, discard, lo, hi) == kept_weight(items, discard, lo + 1, hi) + if discard[lo]
            == 1 {
            0
        } else {
            items[lo].weight as int
        },
        kept_value(items, discard, lo, hi) == kept_value(items, discard, lo + 1, hi) + if discard[lo]
            == 1 {
            0
        } else {
            items[lo].value as int
        },
    decreases hi - lo,
{
    if lo + 1 < hi {
        lemma_kept_front(items, discard, lo, hi - 1);
        assert(kept_weight(items, discard, lo, hi) == kept_weight(items, discard, lo, hi - 1) + (if discard[hi - 1] == 1 { 0 } else { items[hi - 1].weight as int }));
        assert(kept_weight(items, discard, lo + 1, hi) == kept_weight(items, discard, lo + 1, hi - 1) + (if discard[hi - 1] == 1 { 0 } else { items[hi - 1].weight as int }));
        assert(kept_value(items, discard, lo, hi) == kept_value(items, discard, lo, hi - 1) + (if discard[hi - 1] == 1 { 0 } else { items[hi - 1].value as int }));
        assert(kept_value(items, discard, lo + 1, hi) == kept_value(items, discard, lo + 1, hi - 1) + (if discard[hi - 1] == 1 { 0 } else { items[hi - 1].value as int }));
    } else {
        assert(kept_weight(items, discard, lo, lo) == 0);
        assert(kept_value(items, discard, lo, lo) == 0);
        assert(kept_weight(items, discard, lo + 1, hi) == 0);
        assert(kept_value(items, discard, lo + 1, hi) == 0);
    }
}

/// The greedy fill takes every kept item before the critical one whole, then
/// the rounded share of the critical one that the room left allows.
proof fn lemma_fill_critical(items: Seq<Item>, discard: Seq<usize>, cap: int, p: int, wg: int, vg: int)
    requires
        0 <= p <= items.len(),
        wg <= cap,
        forall|q: int| 0 <= q < items.len() ==> (#[trigger] items[q]).weight > 0,
    ensures
        ({
            let k = critical(items, discard, cap, p, wg);
            let room = cap - wg - kept_weight(items, discard, p, k);
            &&& p <= k <= items.len()
            &&& room >= 0
            &&& k == items.len() ==> greedy_fill(items, discard, cap, p, wg, vg) == vg + kept_value(
                items,
                discard,
                p,
                k,
            )
            &&& k < items.len() ==> discard[k] != 1 && room <= items[k].weight && greedy_fill(
                items,
                discard,
                cap,
                p,
                wg,
                vg,
            ) == vg + kept_value(items, discard, p, k) + round_div(
                room * items[k].value,
                items[k].weight as int,
            )
        }),
    decreases items.len() - p,
{
    let n = items.len() as int;
    if p < n {
        let k = critical(items, discard, cap, p, wg);
        if discard[p] == 1 {
            lemma_fill_critical(items, discard, cap, p + 1, wg, vg);
            if k > p {
                lemma_kept_front(items, discard, p, k);
            }
        } else if wg + items[p].weight >= cap {
            let w = items[p].weight as int;
            let v = items[p].value as int;
            if wg + w == cap {
                assert(round_div(w * v, w) == v) by {
                    vstd::arithmetic::div_mod::lemma_div_multiples_vanish(v, w);
                    vstd::arithmetic::div_mod::lemma_mod_multiples_basic(v, w);
                    assert(w * v == v * w) by (nonlinear_arith);
                }
            }
        } else {
            lemma_fill_critical(items, discard, cap, p + 1, wg + items[p].weight, vg + items[p].value);
            lemma_kept_front(items, discard, p, k);
        }
    }
}

/// A selection of kept items only is worth, on the density scale `a / b`,
/// at most all the kept items, when each of these is at least that dense.
proof fn lemma_dense_prefix(
    items: Seq<Item>,
    discard: Seq<usize>,
    sel: Seq<usize>,
    a: int,
    b: int,
    lo: int,
    hi: int,
)
    requires
        0 <= lo <= hi <= items.len(),
        forall|q: int| lo <= q < hi && is_selected(items, sel, q) ==> discard[q] != 1,
        forall|q: int|
            lo <= q < hi && discard[q] != 1 ==> b * (#[trigger] items[q]).value - a * items[q].weight
                >= 0,
    ensures
        b * sel_value(items, sel, lo, hi) - a * sel_weight(items, sel, lo, hi) <= b * kept_value(
            items,
            discard,
            lo,
            hi,
        ) - a * kept_weight(items, discard, lo, hi),
    decreases hi - lo,
{
    if lo < hi {
        lemma_dense_prefix(items, discard, sel, a, b, lo, hi - 1);
        let q = hi - 1;
        let sv = sel_value(items, sel, lo, q);
        let sw = sel_weight(items, sel, lo, q);
        let kv = kept_value(items, discard, lo, q);
        let kw = kept_weight(items, discard, lo, q);
        let v = items[q].value as int;
        let w = items[q].weight as int;
        if is_selected(items, sel, q) {
            assert(b * (sv + v) - a * (sw + w) == (b * sv - a * sw) + (b * v - a * w)) by (nonlinear_arith);
            assert(b * (kv + v) - a * (kw + w) == (b * kv - a * kw) + (b * v - a * w)) by (nonlinear_arith);
        } else if discard[q] != 1 {
            assert(b * (kv + v) - a * (kw + w) == (b * kv - a * kw) + (b * v - a * w)) by (nonlinear_arith);
        }
    }
}

/// A selection of items each at most as dense as `a / b` is worth at most
/// `a / b` times its weight.
proof fn lemma_sparse_suffix(items: Seq<Item>, sel: Seq<usize>, a: int, b: int, lo: int, hi: int)
    requires
        0 <= lo <= hi <= items.len(),
        forall|q: int|
            lo <= q < hi ==> b * (#[trigger] items[q]).value - a * items[q].weight <= 0,
    ensures
        b * sel_value(items, sel, lo, hi) <= a * sel_weight(items, sel, lo, hi),
    decreases hi - lo,
{
    if lo < hi {
        lemma_sparse_suffix(items, sel, a, b, lo, hi - 1);
        let q = hi - 1;
        let sv = sel_value(items, sel, lo, q);
        let sw = sel_weight(items, sel, lo, q);
        let v = items[q].value as int;
        let w = items[q].weight as int;
        if is_selected(items, sel, q) {
            assert(b * (sv + v) == b * sv + b * v) by (nonlinear_arith);
            assert(a * (sw + w) == a * sw + a * w) by (nonlinear_arith);
        }
    }
}

pub proof fn lemma_sel_split(items: Seq<Item>, sel: Seq<usize>, lo: int, mid: int, hi: int)
    requires
        lo <= mid <= hi,
    ensures
        sel_value(items, sel, lo, hi) == sel_value(items, sel, lo, mid) + sel_value(items, sel, mid, hi),
        sel_weight(items, sel, lo, hi) == sel_weight(items, sel, lo, mid) + sel_weight(
            items,
            sel,
            mid,
            hi,
        ),
    decreases hi - mid,
{
    if mid < hi {
        lemma_sel_split(items, sel, lo, mid, hi - 1);
    }
}

/// At zero tolerance the bound is never below the value of a selection that
/// avoids the discarded items and fits in the capacity, when the items are
/// ordered densest first and all weigh something.
pub proof fn law_greedy_bound_sound(
    items: Seq<Item>,
    discard: Seq<usize>,
    sel: Seq<usize>,
    tol: Tolerance,
    cap: int,
)
    requires
        by_density_desc(items),
        forall|p: int| 0 <= p < items.len() ==> (#[trigger] items[p]).weight > 0,
        discard.len() == items.len(),
        forall|p: int| 0 <= p < items.len() && is_selected(items, sel, p) ==> discard[p] != 1,
        0 <= cap,
        selected_weight(items, sel) <= cap,
        tol.wf(),
        tol.num == 0,
    ensures
        selected_value(items, sel) <= greedy_bound(items, discard, tol, cap),
{
    let n = items.len() as int;
    lemma_fill_critical(items, discard, cap, 0, 0, 0);
    let k = critical(items, discard, cap, 0, 0);
    let total = greedy_fill(items, discard, cap, 0, 0, 0);
    let sv = selected_value(items, sel);
    if k == n {
        lemma_dense_prefix(items, discard, sel, 0, 1, 0, n);
    } else {
        let a = items[k].value as int;
        let b = items[k].weight as int;
        let room = cap - kept_weight(items, discard, 0, k);
        lemma_sel_split(items, sel, 0, k, n);
        assert forall|q: int| 0 <= q < k && discard[q] != 1 implies b * (#[trigger] items[q]).value
            - a * items[q].weight >= 0 by {
            assert(items[q].value * items[k].weight >= items[k].value * items[q].weight);
            assert(b * items[q].value == items[q].value * items[k].weight) by (nonlinear_arith)
                requires b == items[k].weight;
            assert(a * items[q].weight == items[k].value * items[q].weight) by (nonlinear_arith)
                requires a == items[k].value;
        }
        assert forall|q: int| k <= q < n implies b * (#[trigger] items[q]).value - a * items[q].weight
            <= 0 by {
            if q > k {
                assert(items[k].value * items[q].weight >= items[q].value * items[k].weight);
            }
            assert(b * items[q].value == items[q].value * items[k].weight) by (nonlinear_arith)
                requires b == items[k].weight;
            assert(a * items[q].weight == items[k].value * items[q].weight) by (nonlinear_arith)
                requires a == items[k].value;
        }
        lemma_dense_prefix(items, discard, sel, a, b, 0, k);
        lemma_sparse_suffix(items, sel, a, b, k, n);
        let kv = kept_value(items, discard, 0, k);
        let kw = kept_weight(items, discard, 0, k);
        let sv1 = sel_value(items, sel, 0, k);
        let sw1 = sel_weight(items, sel, 0, k);
        let sv2 = sel_value(items, sel, k, n);
        let sw2 = sel_weight(items, sel, k, n);
        assert(a >= 0 && b > 0);
        assert(sw1 + sw2 <= cap);
        assert(b * (sv1 + sv2) <= b * kv + a * room) by (nonlinear_arith)
            requires
                b * sv1 - a * sw1 <= b * kv - a * kw,
                b * sv2 <= a * sw2,
                sw1 + sw2 <= cap,
                room == cap - kw,
                a >= 0,
        ;
        let m = room * a;
        vstd::arithmetic::div_mod::lemma_fundamental_div_mod(m, b);
        assert(sv1 + sv2 - kv <= m / b) by (nonlinear_arith)
            requires
                b * (sv1 + sv2) <= b * kv + a * room,
                m == room * a,
                m == b * (m / b) + m % b,
                0 <= m % b < b,
                b > 0,
        ;
    }
    assert(scale_down(total, tol) == total) by {
        assert(total * (tol.den - tol.num) == total * tol.den);
        vstd::arithmetic::div_mod::lemma_div_multiples_vanish(total, tol.den as int);
        assert(total * tol.den == tol.den * total) by (nonlinear_arith);
    }
}

} // verus!
