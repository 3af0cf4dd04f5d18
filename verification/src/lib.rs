//! Classic combinatorial algorithms with machine-checked contracts.
//!
//! The heart of the crate is `dynamic`: dynamic-programming solvers for
//! minimum coin exchange, the primitive calculator, edit distance, longest
//! common subsequences (pairwise and triple) and bounded-weight value
//! maximization. Around it stand self-contained utilities: Fibonacci
//! helpers, greedy heuristics, gcd/lcm, binary search and sorting.

pub mod dynamic;
pub mod fibonacci;
pub mod greedy;
pub mod nums;
pub mod pairwise_product;
pub mod search;
pub mod sort;
