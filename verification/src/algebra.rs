//! Identities of integer multiplication, each small enough to be checked
//! on its own.

use vstd::prelude::*;

verus! {

/// The square of a sum.
pub proof fn lemma_square_sum(p: int, q: int)
    ensures
        (p + q) * (p + q) == p * p + 2 * (p * q) + q * q,
        (p - q) * (p - q) == p * p - 2 * (p * q) + q * q,
{
    assert((p + q) * (p + q) == p * p + 2 * (p * q) + q * q) by (nonlinear_arith);
    assert((p - q) * (p - q) == p * p - 2 * (p * q) + q * q) by (nonlinear_arith);
}

/// A product of two products, with the inner factors exchanged.
pub proof fn lemma_mul_exchange(a: int, b: int, c: int, d: int)
    ensures
        (a * b) * (c * d) == (a * c) * (b * d),
{
    assert((a * b) * (c * d) == a * (b * (c * d))) by (nonlinear_arith);
    assert(b * (c * d) == c * (b * d)) by (nonlinear_arith);
    assert(a * (c * (b * d)) == (a * c) * (b * d)) by (nonlinear_arith);
}

/// A product of two sums, multiplied out.
pub proof fn lemma_mul_sums(p: int, q: int, r: int, t: int)
    ensures
        (p + q) * (r + t) == p * r + p * t + q * r + q * t,
{
    assert((p + q) * (r + t) == p * r + p * t + q * r + q * t) by (nonlinear_arith);
}

/// A product of three factors, in two groupings and orders.
pub proof fn lemma_mul_rotate(a: int, b: int, c: int)
    ensures
        a * (b * c) == (a * c) * b,
        a * (b * c) == (a * b) * c,
{
    assert(a * (b * c) == (a * b) * c) by (nonlinear_arith);
    assert(b * c == c * b) by (nonlinear_arith);
    assert(a * (c * b) == (a * c) * b) by (nonlinear_arith);
}

} // verus!
