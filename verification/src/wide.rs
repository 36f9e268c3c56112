//! 512-bit unsigned intermediates.
//!
//! Products and sums of 128-bit quantities are formed in 512 bits so that no
//! intermediate of the solver formulas can wrap; only the result of a whole
//! step is narrowed back to 128 bits. The arithmetic itself is done by
//! `cosmwasm_std::Uint512`; a [`Wide`] carries such a number as its 64
//! big-endian bytes, which is the form in which the contracts below can speak
//! of its value.

use cosmwasm_std::{Uint128, Uint512};
use vstd::prelude::*;

verus! {

/// 2^128, one more than the largest narrow value.
pub open spec fn narrow_limit() -> int {
    0x1_0000_0000_0000_0000_0000_0000_0000_0000int
}

/// 2^512, one more than the largest wide value.
pub open spec fn wide_limit() -> int {
    0x1_0000_0000_0000_0000_0000_0000_0000_0000_0000_0000_0000_0000_0000_0000_0000_0000_0000_0000_0000_0000_0000_0000_0000_0000_0000_0000_0000_0000_0000_0000_0000_0000int
}

/// The number that a big-endian byte string denotes.
pub open spec fn be_value(bytes: Seq<u8>) -> nat
    decreases bytes.len(),
{
    if bytes.len() == 0 {
        0
    } else {
        be_value(bytes.drop_last()) * 256 + bytes.last() as nat
    }
}

/// An unsigned 512-bit number, held as big-endian bytes.
#[derive(Clone, Copy)]
pub struct Wide {
    pub bytes: [u8; 64],
}

impl View for Wide {
    type V = nat;

    open spec fn view(&self) -> nat {
        be_value(self.bytes@)
    }
}

/// `Uint512::from(u128)`: the wide number with the same value.
#[verifier::external_body]
pub(crate) fn wide_from(x: u128) -> (w: Wide)
    ensures
        w@ == x,
{
    Wide { bytes: Uint512::from(x).to_be_bytes() }
}

/// `Uint512 + Uint512`, which panics when the sum needs more than 512 bits;
/// otherwise it is the exact sum.
#[verifier::external_body]
pub(crate) fn wide_add(a: Wide, b: Wide) -> (w: Wide)
    requires
        a@ + b@ < wide_limit(),
    ensures
        w@ == a@ + b@,
{
    Wide { bytes: (Uint512::from_be_bytes(a.bytes) + Uint512::from_be_bytes(b.bytes)).to_be_bytes() }
}

/// `Uint512 * Uint512`, which panics when the product needs more than 512
/// bits; otherwise it is the exact product.
#[verifier::external_body]
pub(crate) fn wide_mul(a: Wide, b: Wide) -> (w: Wide)
    requires
        a@ * b@ < wide_limit(),
    ensures
        w@ == a@ * b@,
{
    Wide { bytes: (Uint512::from_be_bytes(a.bytes) * Uint512::from_be_bytes(b.bytes)).to_be_bytes() }
}

/// `Uint512 - Uint512`, which panics when the difference would be negative;
/// otherwise it is the exact difference.
#[verifier::external_body]
pub(crate) fn wide_sub(a: Wide, b: Wide) -> (w: Wide)
    requires
        a@ >= b@,
    ensures
        w@ == a@ - b@,
{
    Wide { bytes: (Uint512::from_be_bytes(a.bytes) - Uint512::from_be_bytes(b.bytes)).to_be_bytes() }
}

/// `Uint512 / Uint512`, which panics when the divisor is zero; otherwise it
/// is the floored quotient.
#[verifier::external_body]
pub(crate) fn wide_div(a: Wide, b: Wide) -> (w: Wide)
    requires
        b@ != 0,
    ensures
        w@ == a@ / b@,
{
    Wide { bytes: (Uint512::from_be_bytes(a.bytes) / Uint512::from_be_bytes(b.bytes)).to_be_bytes() }
}

/// `Uint512::checked_sub`: the exact difference, or nothing when it would be
/// negative.
#[verifier::external_body]
pub(crate) fn wide_checked_sub(a: Wide, b: Wide) -> (r: Option<Wide>)
    ensures
        a@ < b@ ==> r is None,
        a@ >= b@ ==> r is Some && r->Some_0@ == a@ - b@,
{
    match Uint512::from_be_bytes(a.bytes).checked_sub(Uint512::from_be_bytes(b.bytes)) {
        Ok(v) => Some(Wide { bytes: v.to_be_bytes() }),
        Err(_) => None,
    }
}

/// `Uint512::checked_div`: the floored quotient, or nothing when the divisor
/// is zero.
#[verifier::external_body]
pub(crate) fn wide_checked_div(a: Wide, b: Wide) -> (r: Option<Wide>)
    ensures
        b@ == 0 ==> r is None,
        b@ != 0 ==> r is Some && r->Some_0@ == a@ / b@,
{
    match Uint512::from_be_bytes(a.bytes).checked_div(Uint512::from_be_bytes(b.bytes)) {
        Ok(v) => Some(Wide { bytes: v.to_be_bytes() }),
        Err(_) => None,
    }
}

/// `Uint128::try_from(Uint512)`: the same value in 128 bits, or nothing when
/// it does not fit.
#[verifier::external_body]
pub(crate) fn wide_narrow(a: Wide) -> (r: Option<u128>)
    ensures
        a@ <= u128::MAX ==> r == Some(a@ as u128),
        a@ > u128::MAX ==> r is None,
{
    match Uint128::try_from(Uint512::from_be_bytes(a.bytes)) {
        Ok(v) => Some(v.u128()),
        Err(_) => None,
    }
}

} // verus!
