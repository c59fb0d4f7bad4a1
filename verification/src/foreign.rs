//! Declarations and contracts for what this crate takes from `serde_value`
//! and from `std`. Everything here is believed, not proved: each item says
//! which outside function it stands for and what it claims of it.

use serde_value::{DeserializerError, Value};
use std::collections::TryReserveError;
use vstd::prelude::*;

verus! {

/// `serde_value::Value`, the serialized form of a stored value.
/// The library never looks inside one: it stores it, clones it and hands it
/// to the deserializer that the caller provides.
#[verifier::external_type_specification]
#[verifier::external_body]
pub struct ExValue(Value);

/// `serde_value::DeserializerError`, the error a failed deserialization returns.
#[verifier::external_type_specification]
#[verifier::external_body]
pub struct ExDeserializerError(DeserializerError);

/// `<serde_value::Value as Clone>::clone`. `Value` derives `Clone`, so the copy
/// holds the same tree as the original: the contract claims the two are equal.
#[verifier::external_body]
pub(crate) fn clone_value(v: &Value) -> (r: Value)
    ensures
        r == *v,
{
    v.clone()
}

/// `Vec::capacity`. The documentation of `Vec` guarantees that the length
/// never exceeds the capacity, and that a vector never allocates more than
/// `isize::MAX` bytes; that is all the contract claims.
#[verifier::external_body]
pub(crate) fn vec_capacity<T>(v: &Vec<T>) -> (r: usize)
    ensures
        r >= v@.len(),
        r * vstd::layout::size_of::<T>() <= isize::MAX,
{
    v.capacity()
}

/// `Vec::try_reserve`. The elements stay whatever the outcome; the
/// documentation promises an error where the capacity would overflow, that is
/// where the room asked for exceeds `usize::MAX` elements or `isize::MAX`
/// bytes. Whether it succeeds otherwise depends on the allocator, and is not
/// claimed.
#[verifier::external_body]
pub(crate) fn vec_try_reserve<T>(v: &mut Vec<T>, additional: usize) -> (r: Result<
    (),
    TryReserveError,
>)
    ensures
        final(v)@ == old(v)@,
        old(v)@.len() + additional > usize::MAX ==> r is Err,
        (old(v)@.len() + additional) * vstd::layout::size_of::<T>() > isize::MAX ==> r is Err,
{
    v.try_reserve(additional)
}

/// `Vec::shrink_to_fit`. It changes the allocation only: the elements stay.
#[verifier::external_body]
pub(crate) fn vec_shrink_to_fit<T>(v: &mut Vec<T>)
    ensures
        final(v)@ == old(v)@,
{
    v.shrink_to_fit()
}

/// `Vec::shrink_to`. It changes the allocation only: the elements stay.
#[verifier::external_body]
pub(crate) fn vec_shrink_to<T>(v: &mut Vec<T>, min_capacity: usize)
    ensures
        final(v)@ == old(v)@,
{
    v.shrink_to(min_capacity)
}

} // verus!
