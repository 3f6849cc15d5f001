pub mod bitops;
pub mod board;
pub mod patterns;
pub mod captures;
pub mod rules;
pub mod zobrist;
pub mod state;
pub mod ai;
