//! Exact subset-sum solving: a portfolio of search engines over a shared
//! problem profile, with verified soundness of every reported subset.
pub mod model;
pub mod bignat;
pub mod masks;
pub mod sums;
pub mod sort;
pub mod profile;
pub mod stop;
pub mod heap;
pub mod bitset;
pub mod flags;
pub mod trivial;
pub mod fast_hash;
pub mod knapsack;
pub mod hardware_profile;
pub mod gpu;
pub mod gdvs;
pub mod fraction;
pub mod input;
pub mod engines;
pub mod controller;
