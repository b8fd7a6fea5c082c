//! Short lattice vectors for scalar decomposition, on limbs of 32 bits.
//!
//! Given a scalar `k` and a modulus `n` with `k < n`, the reduction finds
//! a short vector `(c0, c1)` of the lattice spanned by `(n, 0)` and
//! `(k, 1)`, so that `k * c1` is congruent to `c0` modulo `n`. It is not
//! constant-time and is meant for public values only.
//!
//! - `word`: carry chains, widening products, sign masks and leading-zero
//!   counts on single words.
//! - `limbs`: the integer that a sequence of limbs holds.
//! - `zint`: integers of a fixed number of limbs, wrapping at their width.
//! - `mul`: products at full precision.
//! - `algebra`, `lattice`: the integer arithmetic of a basis and its Gram
//!   values.
//! - `model`: the reduction as a function of unbounded integers, and what
//!   holds of its result.
//! - `reduce`: the reduction on fixed-width integers, proved to compute
//!   what the model says.
//! - `vartime`: entry points by operand size.
//! - `field`: the byte encoding of the field elements that scalars come
//!   from.

pub mod algebra;
pub mod field;
pub mod lattice;
pub mod limbs;
pub mod model;
pub mod mul;
pub mod reduce;
pub mod vartime;
pub mod word;
pub mod zint;
