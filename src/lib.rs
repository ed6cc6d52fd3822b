//! Planning core of an incrementally maintained multiway equijoin: which
//! attributes are kept, in which order relations are folded into each delta
//! query, which columns are join keys at each step, how concurrent updates are
//! ordered, and which arrangements are shared.

pub mod attrs;
pub mod order;
pub mod keys;
pub mod timestamp;
pub mod cache;
pub mod join;
pub mod delta;
