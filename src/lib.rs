//! A 0/1 knapsack engine with an exact dynamic-programming solver and a
//! branch-and-bound solver pruned by a fractional-relaxation bound.
pub mod item;
pub mod greedy;
pub mod dp;
pub mod bb;
pub mod laws;
