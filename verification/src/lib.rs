//! Pfaffians of dense skew-symmetric matrices, computed by expansion along
//! the first index with a table of the results already known, and verified.
//!
//! The arithmetic is a parameter ([`scalar::Scalar`]): the engine fixes the
//! order of every sum and product and assumes no law of them, so its result
//! is the same function of the entries in every arithmetic. What holds of
//! the result under given laws is stated beside it: the values for small
//! dimensions, and the equality with the signed sum over all perfect
//! matchings in a commutative ring.

pub mod scalar;
pub mod integers;
pub mod expansion;
pub mod grid;
pub mod matrix;
pub mod memo;
pub mod pfaffian;
pub mod laws;
pub mod matchings;
pub mod matching_sum;
