//! Arbitrary-precision counts, backed by `num_bigint::BigInt`.
//!
//! A `Count` holds one unbounded integer. Its mathematical value is the
//! uninterpreted map `int_of` of the underlying `num_bigint::BigInt`; the
//! trusted wrappers below state what each `num_bigint` operation does to that
//! value, and the public `Count` methods are verified against them.

use vstd::prelude::*;

verus! {

#[verifier::external_type_specification]
#[verifier::external_body]
pub struct ExBigInt(num_bigint::BigInt);

/// The mathematical integer that a `num_bigint::BigInt` holds.
pub uninterp spec fn int_of(x: num_bigint::BigInt) -> int;

/// Relies on `num_bigint::BigInt: From<i32>`: the new integer holds the given value.
#[verifier::external_body]
fn big_from_i32(v: i32) -> (r: num_bigint::BigInt)
    ensures
        int_of(r) == v as int,
{
    num_bigint::BigInt::from(v)
}

/// Relies on `num_bigint::BigInt: Clone`: the clone holds the same value.
#[verifier::external_body]
fn big_clone(x: &num_bigint::BigInt) -> (r: num_bigint::BigInt)
    ensures
        int_of(r) == int_of(*x),
{
    x.clone()
}

/// Relies on `num_bigint::BigInt: Add`: addition of the held values.
#[verifier::external_body]
fn big_add(a: &num_bigint::BigInt, b: &num_bigint::BigInt) -> (r: num_bigint::BigInt)
    ensures
        int_of(r) == int_of(*a) + int_of(*b),
{
    a + b
}

/// Relies on `num_bigint::BigInt: Sub`: subtraction of the held values.
#[verifier::external_body]
fn big_sub(a: &num_bigint::BigInt, b: &num_bigint::BigInt) -> (r: num_bigint::BigInt)
    ensures
        int_of(r) == int_of(*a) - int_of(*b),
{
    a - b
}

/// Relies on `num_bigint::BigInt: Mul`: multiplication of the held values.
#[verifier::external_body]
fn big_mul(a: &num_bigint::BigInt, b: &num_bigint::BigInt) -> (r: num_bigint::BigInt)
    ensures
        int_of(r) == int_of(*a) * int_of(*b),
{
    a * b
}

/// Relies on `num_bigint::BigInt: Shl<usize>`: a left shift by `k` multiplies by 2^k.
#[verifier::external_body]
fn big_shl(a: &num_bigint::BigInt, k: usize) -> (r: num_bigint::BigInt)
    ensures
        int_of(r) == int_of(*a) * vstd::arithmetic::power2::pow2(k as nat),
{
    a << k
}

/// Relies on `num_bigint::BigInt: PartialEq`: equality of the held values.
#[verifier::external_body]
fn big_eq(a: &num_bigint::BigInt, b: &num_bigint::BigInt) -> (r: bool)
    ensures
        r == (int_of(*a) == int_of(*b)),
{
    a == b
}

/// Relies on `num_bigint::BigInt: PartialOrd`: order of the held values.
#[verifier::external_body]
fn big_le(a: &num_bigint::BigInt, b: &num_bigint::BigInt) -> (r: bool)
    ensures
        r == (int_of(*a) <= int_of(*b)),
{
    a <= b
}

/// Relies on `u64: TryFrom<&num_bigint::BigInt>`: `Ok` exactly when the value fits in a `u64`.
#[verifier::external_body]
fn big_to_u64(a: &num_bigint::BigInt) -> (r: Option<u64>)
    ensures
        (0 <= int_of(*a) <= u64::MAX) ==> r == Some(int_of(*a) as u64),
        !(0 <= int_of(*a) <= u64::MAX) ==> r is None,
{
    u64::try_from(a).ok()
}

/// An arbitrary-precision integer count.
pub struct Count {
    big: num_bigint::BigInt,
}

impl View for Count {
    type V = int;

    closed spec fn view(&self) -> int {
        int_of(self.big)
    }
}

impl Count {
    pub fn from_i32(v: i32) -> (r: Count)
        ensures
            r@ == v as int,
    {
        Count { big: big_from_i32(v) }
    }

    pub fn dup(&self) -> (r: Count)
        ensures
            r@ == self@,
    {
        Count { big: big_clone(&self.big) }
    }

    pub fn plus(&self, other: &Count) -> (r: Count)
        ensures
            r@ == self@ + other@,
    {
        Count { big: big_add(&self.big, &other.big) }
    }

    pub fn minus(&self, other: &Count) -> (r: Count)
        ensures
            r@ == self@ - other@,
    {
        Count { big: big_sub(&self.big, &other.big) }
    }

    pub fn times(&self, other: &Count) -> (r: Count)
        ensures
            r@ == self@ * other@,
    {
        Count { big: big_mul(&self.big, &other.big) }
    }

    pub fn shift_left(&self, k: usize) -> (r: Count)
        ensures
            r@ == self@ * vstd::arithmetic::power2::pow2(k as nat),
    {
        Count { big: big_shl(&self.big, k) }
    }

    pub fn eq_count(&self, other: &Count) -> (r: bool)
        ensures
            r == (self@ == other@),
    {
        big_eq(&self.big, &other.big)
    }

    pub fn le_count(&self, other: &Count) -> (r: bool)
        ensures
            r == (self@ <= other@),
    {
        big_le(&self.big, &other.big)
    }

    pub fn to_u64(&self) -> (r: Option<u64>)
        ensures
            (0 <= self@ <= u64::MAX) ==> r == Some(self@ as u64),
            !(0 <= self@ <= u64::MAX) ==> r is None,
    {
        big_to_u64(&self.big)
    }

    pub fn to_decimal(&self) -> (r: Vec<u8>)
        ensures
            r@ == crate::toks::dec_i(self@),
    {
        big_to_decimal(&self.big)
    }
}

/// Relies on `num_bigint::BigInt: Display`: the plain decimal numeral of the
/// held value, a minus sign leading a negative one.
#[verifier::external_body]
fn big_to_decimal(a: &num_bigint::BigInt) -> (r: Vec<u8>)
    ensures
        r@ == crate::toks::dec_i(int_of(*a)),
{
    a.to_string().into_bytes()
}

} // verus!
