//! Tables computed once per board size.

pub mod direction_tables;
