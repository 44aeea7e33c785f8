//! Exhaustive backward analysis of a two-player stacking game played on a
//! ring of eight columns, each holding at most three stones.

pub mod analysis;
pub mod bit_utils;
pub mod board;
pub mod encoding;
pub mod enumeration;
pub mod evaluator;
pub mod id_set;
pub mod layout;
pub mod position;
