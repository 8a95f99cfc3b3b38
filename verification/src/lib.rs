//! Derangement counts `D(n)` as arbitrary-precision integers.
//!
//! `D(n)` is the number of permutations of `n` items that leave no item in
//! its place. Two stateless evaluators and a growing cache compute it; each
//! is proved to return the value that the recurrence in [`sequence`] defines.

pub mod bigint;
pub mod cache;
pub mod evaluator;
pub mod sequence;

pub use bigint::big_value;
pub use cache::{derangements_cached, DerangementCache};
pub use evaluator::{derangements_fast, derangements_i, derangements_u};
pub use sequence::derangement;
