//! Arbitrary-precision arithmetic on little-endian word vectors, carried
//! out by `num::BigUint`. Each function turns its word vectors into
//! `BigUint` values, makes one call, and hands back the digits of the result.
use vstd::prelude::*;
use crate::words::{is_normalized, words_value};

verus! {

/// Relies on `BigUint::add` (`+`): the sum of two naturals; and on
/// `BigUint::to_u32_digits`, whose digits carry no zero at the top.
#[verifier::external_body]
pub(crate) fn big_add(a: &Vec<u32>, b: &Vec<u32>) -> (r: Vec<u32>)
    ensures
        words_value(r@) == words_value(a@) + words_value(b@),
        is_normalized(r@),
{
    (num::BigUint::from_slice(a) + num::BigUint::from_slice(b)).to_u32_digits()
}

/// Relies on `BigUint::sub` (`-`): the difference, which panics below zero.
#[verifier::external_body]
pub(crate) fn big_sub(a: &Vec<u32>, b: &Vec<u32>) -> (r: Vec<u32>)
    requires
        words_value(a@) >= words_value(b@),
    ensures
        words_value(r@) == words_value(a@) - words_value(b@),
        is_normalized(r@),
{
    (num::BigUint::from_slice(a) - num::BigUint::from_slice(b)).to_u32_digits()
}

/// Relies on `BigUint::mul` (`*`): the product of two naturals.
#[verifier::external_body]
pub(crate) fn big_mul(a: &Vec<u32>, b: &Vec<u32>) -> (r: Vec<u32>)
    ensures
        words_value(r@) == words_value(a@) * words_value(b@),
        is_normalized(r@),
{
    (num::BigUint::from_slice(a) * num::BigUint::from_slice(b)).to_u32_digits()
}

/// Relies on `BigUint::div` (`/`): the floor quotient, which panics on a zero divisor.
#[verifier::external_body]
pub(crate) fn big_div(a: &Vec<u32>, m: &Vec<u32>) -> (r: Vec<u32>)
    requires
        words_value(m@) > 0,
    ensures
        words_value(r@) == words_value(a@) / words_value(m@),
        is_normalized(r@),
{
    (num::BigUint::from_slice(a) / num::BigUint::from_slice(m)).to_u32_digits()
}

/// Relies on `BigUint::rem` (`%`): the remainder, which panics on a zero divisor.
#[verifier::external_body]
pub(crate) fn big_rem(a: &Vec<u32>, m: &Vec<u32>) -> (r: Vec<u32>)
    requires
        words_value(m@) > 0,
    ensures
        words_value(r@) == words_value(a@) % words_value(m@),
        is_normalized(r@),
{
    (num::BigUint::from_slice(a) % num::BigUint::from_slice(m)).to_u32_digits()
}

/// `x` is a multiplicative inverse of `a` modulo `m`, within `[0, m)`.
pub open spec fn is_inverse_mod(a: nat, x: nat, m: nat) -> bool {
    x < m && (a * x) % m == 1nat % m
}

/// `a` has a multiplicative inverse modulo `m`.
pub open spec fn invertible_mod(a: nat, m: nat) -> bool {
    exists|x: nat| is_inverse_mod(a, x, m)
}

/// Relies on `BigUint::modinv`: the inverse of `a` in `[0, m)` when one
/// exists, `None` when none does; it panics on a zero modulus.
#[verifier::external_body]
pub(crate) fn big_modinv(a: &Vec<u32>, m: &Vec<u32>) -> (r: Option<Vec<u32>>)
    requires
        words_value(m@) > 0,
    ensures
        match r {
            Some(x) => is_inverse_mod(words_value(a@), words_value(x@), words_value(m@))
                && is_normalized(x@),
            None => !invertible_mod(words_value(a@), words_value(m@)),
        },
{
    match num::BigUint::from_slice(a).modinv(&num::BigUint::from_slice(m)) {
        Some(x) => Some(x.to_u32_digits()),
        None => None,
    }
}

} // verus!
