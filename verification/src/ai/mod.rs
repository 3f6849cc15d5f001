//! Search support: precomputed tables, caches, scoring and move ordering.

pub mod advanced_search;
pub mod config;
pub mod eval_cache;
pub mod heuristic;
pub mod heuristic_cache;
pub mod incremental_patterns;
pub mod lazy_smp;
pub mod minimax;
pub mod move_generation;
pub mod move_ordering;
pub mod pattern_utils;
pub mod pattern_history;
pub mod patterns;
pub mod precompute;
pub mod transposition;
