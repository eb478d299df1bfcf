//! Conversions between integer types that fail where the value does not fit.

use vstd::prelude::*;

verus! {

/// `num_traits::cast` from `usize` to `u8`. Its contract claims that the call yields the same
/// number where a `u8` holds it, and `None` otherwise.
#[verifier::external_body]
pub(crate) fn cast_u8(n: usize) -> (result: Option<u8>)
    ensures
        n <= u8::MAX ==> result == Some(n as u8),
        n > u8::MAX ==> result is None,
{
    num_traits::cast(n)
}

/// `num_traits::cast` from `usize` to `u16`. Its contract claims that the call yields the same
/// number where a `u16` holds it, and `None` otherwise.
#[verifier::external_body]
pub(crate) fn cast_u16(n: usize) -> (result: Option<u16>)
    ensures
        n <= u16::MAX ==> result == Some(n as u16),
        n > u16::MAX ==> result is None,
{
    num_traits::cast(n)
}

/// `num_traits::cast` from `usize` to `i16`. Its contract claims that the call yields the same
/// number where an `i16` holds it, and `None` otherwise.
#[verifier::external_body]
pub(crate) fn cast_i16(n: usize) -> (result: Option<i16>)
    ensures
        n <= i16::MAX ==> result == Some(n as i16),
        n > i16::MAX ==> result is None,
{
    num_traits::cast(n)
}

} // verus!
