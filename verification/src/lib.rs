//! The chance that a budget of pulls, shared among several banners, brings each
//! banner the count of its target that is wanted.
//!
//! Probabilities are fixed-point numbers: the integer `x` stands for `x / UNIT`. For
//! each banner the library gives the distribution of the pull on which the target
//! count is first reached, and lays the budget out over the banners; the answer is
//! the sum of the leading entries of the convolution of these distributions.

pub mod budget;
pub mod combiner;
pub mod compare;
pub mod exact;
pub mod focus;
pub mod prob;
pub mod rates;
pub mod renewal;
pub mod simple;
pub mod sums;
pub mod waits;
