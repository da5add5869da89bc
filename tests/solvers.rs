use knapsack::bb::{recur, solve_bb, Env};
use knapsack::dp::solve;
use knapsack::greedy::{best_greedy, Tolerance};
use knapsack::item::{sort_by_density_desc, sort_by_weight_desc, Item};

fn item(index: usize, value: usize, weight: usize) -> Item {
    Item { index, value, weight }
}

fn three_items() -> Vec<Item> {
    vec![item(2, 35, 3), item(0, 45, 5), item(1, 48, 8)]
}

fn picked(items: &[Item], sel: &[usize]) -> (usize, usize) {
    let mut v = 0;
    let mut w = 0;
    for it in items {
        if sel[it.index] == 1 {
            v += it.value;
            w += it.weight;
        }
    }
    (v, w)
}

fn brute_force(items: &[Item], cap: usize) -> usize {
    let n = items.len();
    let mut best = 0;
    for mask in 0u32..(1u32 << n) {
        let mut v = 0;
        let mut w = 0;
        for (k, it) in items.iter().enumerate() {
            if mask & (1 << k) != 0 {
                v += it.value;
                w += it.weight;
            }
        }
        if w <= cap && v > best {
            best = v;
        }
    }
    best
}

fn pseudo_items(seed: u64, n: usize, with_zero_weight: bool) -> Vec<Item> {
    let mut x = seed;
    let mut out = Vec::new();
    for k in 0..n {
        x = x.wrapping_mul(6364136223846793005).wrapping_add(1442695040888963407);
        let value = ((x >> 33) % 50) as usize;
        x = x.wrapping_mul(6364136223846793005).wrapping_add(1442695040888963407);
        let low = if with_zero_weight { 0 } else { 1 };
        let weight = low + ((x >> 33) % 20) as usize;
        out.push(item(k, value, weight));
    }
    out
}

#[test]
fn test_best_greedy() {
    let cap = 10;
    let items = &vec![item(2, 35, 3), item(0, 45, 5), item(1, 48, 8)];
    assert_eq!(best_greedy(items, &mut vec![0; items.len()], Tolerance::exact(), cap), 92);
}

#[test]
fn test_bb_simple() {
    let cap = 10;
    let items = &vec![item(2, 35, 3), item(0, 45, 5), item(1, 48, 8)];
    let est = best_greedy(items, &mut vec![0; items.len()], Tolerance::exact(), cap);
    let res = recur(&items, 0, &mut vec![0; items.len()], est, Env::new(items, cap, Tolerance::exact()));
    assert_eq!(res.best_val, 80);
}

#[test]
fn dp_three_items() {
    let mut items = three_items();
    let (value, flag, sel) = solve(&mut items, 10);
    assert_eq!(value, 80);
    assert_eq!(flag, 1);
    assert_eq!(sel, vec![1, 0, 1]);
}

#[test]
fn bb_three_items() {
    let mut items = three_items();
    let (value, flag, sel) = solve_bb(&mut items, Tolerance::exact(), 10);
    assert_eq!(value, 80);
    assert_eq!(flag, 1);
    assert_eq!(sel, vec![1, 0, 1]);
}

#[test]
fn zero_capacity() {
    let mut items = three_items();
    assert_eq!(solve(&mut items, 0), (0, 1, vec![0, 0, 0]));
    let mut items = three_items();
    assert_eq!(solve_bb(&mut items, Tolerance::exact(), 0), (0, 1, vec![0, 0, 0]));
}

#[test]
fn single_oversized_item() {
    let mut items = vec![item(0, 7, 15)];
    assert_eq!(solve(&mut items, 10), (0, 1, vec![0]));
    let mut items = vec![item(0, 7, 15)];
    assert_eq!(solve_bb(&mut items, Tolerance::exact(), 10), (0, 1, vec![0]));
}

#[test]
fn half_tolerance_is_approximate() {
    let mut items = three_items();
    let half = Tolerance::new(1, 2).unwrap();
    let (value, flag, sel) = solve_bb(&mut items, half, 10);
    assert!(value <= 80);
    assert_eq!(flag, 0);
    let (v, w) = picked(&items, &sel);
    assert_eq!(v, value);
    assert!(w <= 10);
}

#[test]
fn empty_item_list() {
    let mut items: Vec<Item> = Vec::new();
    assert_eq!(solve(&mut items, 10), (0, 1, vec![]));
    assert_eq!(solve_bb(&mut items, Tolerance::exact(), 10), (0, 1, vec![]));
}

#[test]
fn every_item_oversized() {
    let mut items = vec![item(0, 5, 11), item(1, 9, 20), item(2, 1, 12)];
    assert_eq!(solve(&mut items, 10), (0, 1, vec![0, 0, 0]));
    let mut items = vec![item(0, 5, 11), item(1, 9, 20), item(2, 1, 12)];
    assert_eq!(solve_bb(&mut items, Tolerance::exact(), 10), (0, 1, vec![0, 0, 0]));
}

#[test]
fn solvers_match_brute_force() {
    for seed in 0..40u64 {
        let n = (seed % 12) as usize;
        for cap in [0usize, 5, 17, 40] {
            let base = pseudo_items(seed, n, true);
            let expected = brute_force(&base, cap);
            let mut a = base.clone();
            let (dv, df, dsel) = solve(&mut a, cap);
            assert_eq!(dv, expected);
            assert_eq!(df, 1);
            assert_eq!(picked(&a, &dsel).0, dv);
            assert!(picked(&a, &dsel).1 <= cap);
            let positive = pseudo_items(seed, n, false);
            let expected = brute_force(&positive, cap);
            let mut b = positive.clone();
            let (bv, bf, bsel) = solve_bb(&mut b, Tolerance::exact(), cap);
            assert_eq!(bv, expected);
            assert_eq!(bf, 1);
            assert_eq!(picked(&b, &bsel).0, bv);
            assert!(picked(&b, &bsel).1 <= cap);
        }
    }
}

#[test]
fn approximate_search_stays_feasible() {
    for seed in 0..20u64 {
        let base = pseudo_items(seed, 10, false);
        let mut a = base.clone();
        let tol = Tolerance::new(3, 10).unwrap();
        let (v, flag, sel) = solve_bb(&mut a, tol, 25);
        assert_eq!(flag, 0);
        assert_eq!(picked(&a, &sel).0, v);
        assert!(picked(&a, &sel).1 <= 25);
        assert!(v <= brute_force(&base, 25));
    }
}

#[test]
fn capacity_is_monotone() {
    let base = pseudo_items(7, 9, true);
    let mut last = 0;
    for cap in 0..60 {
        let mut a = base.clone();
        let (v, _, _) = solve(&mut a, cap);
        assert!(v >= last);
        last = v;
    }
}

#[test]
fn repeated_calls_agree() {
    let base = vec![item(0, 10, 5), item(1, 20, 10), item(2, 10, 5), item(3, 4, 2)];
    let first = solve(&mut base.clone(), 12);
    let second = solve(&mut base.clone(), 12);
    assert_eq!(first, second);
    let first = solve_bb(&mut base.clone(), Tolerance::exact(), 12);
    let second = solve_bb(&mut base.clone(), Tolerance::exact(), 12);
    assert_eq!(first, second);
}

#[test]
fn greedy_rounds_half_up() {
    // 2 units of room left for an item of value 5 and weight 4: 2.5 rounds to 3.
    let items = vec![item(0, 10, 8), item(1, 5, 4)];
    assert_eq!(best_greedy(&items, &[0, 0], Tolerance::exact(), 10), 13);
    // 1 unit of room for value 5 weight 4: 1.25 rounds to 1.
    assert_eq!(best_greedy(&items, &[0, 0], Tolerance::exact(), 9), 11);
}

#[test]
fn greedy_respects_discard_and_tolerance() {
    let items = three_items();
    assert_eq!(best_greedy(&items, &[1, 0, 0], Tolerance::exact(), 10), 45 + 30);
    assert_eq!(best_greedy(&items, &[0, 0, 0], Tolerance::new(1, 2).unwrap(), 10), 46);
    assert_eq!(best_greedy(&items, &[0, 0, 0], Tolerance::new(1, 3).unwrap(), 10), 61);
    assert_eq!(best_greedy(&items, &[0, 0, 0], Tolerance::exact(), 8), 80);
}

#[test]
fn tolerance_bounds() {
    assert!(Tolerance::new(0, 0).is_none());
    assert!(Tolerance::new(5, 5).is_none());
    assert!(Tolerance::new(6, 5).is_none());
    let t = Tolerance::new(0, 7).unwrap();
    assert!(t.is_zero());
    assert!(!Tolerance::new(1, 7).unwrap().is_zero());
}

#[test]
fn sorts_are_stable() {
    let mut a = vec![item(0, 1, 3), item(1, 2, 5), item(2, 3, 3), item(3, 4, 5)];
    sort_by_weight_desc(&mut a);
    let order: Vec<usize> = a.iter().map(|i| i.index).collect();
    assert_eq!(order, vec![1, 3, 0, 2]);
    let mut b = vec![item(0, 2, 2), item(1, 9, 3), item(2, 4, 4), item(3, 6, 2)];
    sort_by_density_desc(&mut b);
    let order: Vec<usize> = b.iter().map(|i| i.index).collect();
    assert_eq!(order, vec![1, 3, 0, 2]);
}

#[test]
fn zero_weight_items_can_defeat_the_bound() {
    // With nothing to weigh, the fill stops after the first item at capacity 0,
    // below the true optimum of 8.
    let items = vec![item(0, 5, 0), item(1, 3, 0)];
    assert_eq!(best_greedy(&items, &[0, 0], Tolerance::exact(), 0), 5);
    let mut both = items.clone();
    assert_eq!(solve(&mut both, 0).0, 8);
}

#[test]
fn bb_never_beats_dp() {
    for seed in 100..130u64 {
        let base = pseudo_items(seed, 9, true);
        for cap in [3usize, 11, 30] {
            let (dv, _, _) = solve(&mut base.clone(), cap);
            for (num, den) in [(0u64, 1u64), (1, 4), (9, 10)] {
                let tol = Tolerance::new(num, den).unwrap();
                let (bv, flag, _) = solve_bb(&mut base.clone(), tol, cap);
                assert!(bv <= dv);
                assert_eq!(flag, if num == 0 { 1 } else { 0 });
            }
        }
    }
}

#[test]
fn bb_misses_value_of_weightless_items() {
    // The bound stops at the first weightless item, so the search settles on 5.
    let items = vec![item(0, 5, 0), item(1, 3, 0)];
    let (value, flag, sel) = solve_bb(&mut items.clone(), Tolerance::exact(), 0);
    assert_eq!((value, flag, sel), (5, 1, vec![1, 0]));
    assert_eq!(solve(&mut items.clone(), 0).0, 8);
}
