use vstd::prelude::*;
use cosmwasm_std::{Decimal256, Uint128, Uint256};

verus! {

/// A non-negative fixed-point number with 18 decimal places, held as its
/// count of 10^-18 units ("atomics") in 32 big-endian bytes.
#[derive(Clone, Copy, Debug, PartialEq, Eq)]
pub struct Decimal {
    pub bytes: [u8; 32],
}

/// The number that a big-endian byte sequence spells.
pub open spec fn be_value(s: Seq<u8>) -> nat
    decreases s.len(),
{
    if s.len() == 0 {
        0
    } else {
        be_value(s.drop_last()) * 256 + s.last() as nat
    }
}

/// Atomics per whole unit: 10^18.
pub open spec fn unit() -> nat {
    1_000_000_000_000_000_000
}

/// One more than the largest count of atomics: 2^256.
pub open spec fn atomics_limit() -> nat {
    (u128::MAX as nat + 1) * (u128::MAX as nat + 1)
}

impl Decimal {
    /// The count of atomics that this value holds.
    pub open spec fn value(self) -> nat {
        be_value(self.bytes@)
    }
}

/// The index that `amount` over `share` adds: floor(amount * 10^18 / share) atomics.
pub open spec fn ratio_atomics(amount: nat, share: nat) -> nat
    recommends
        share > 0,
{
    amount * unit() / share
}

/// What `share` units are owed for an index gain of `atomics`, rounded down.
pub open spec fn owed_units(atomics: nat, share: nat) -> nat {
    share * atomics / unit()
}

/// Relies on `Decimal256::zero`: zero atomics.
#[verifier::external_body]
pub(crate) fn decimal_zero() -> (r: Decimal)
    ensures
        r.value() == 0,
{
    Decimal { bytes: Decimal256::zero().atomics().to_be_bytes() }
}

/// Relies on `Decimal256::checked_from_ratio`: floor(numerator * 10^18 / denominator)
/// atomics, an error for a zero denominator; the product of two values that fit
/// 128 bits always fits the 256-bit result.
#[verifier::external_body]
pub(crate) fn decimal_from_ratio(numerator: u128, denominator: u128) -> (r: Option<Decimal>)
    ensures
        denominator == 0 ==> r is None,
        denominator > 0 ==> r is Some,
        r is Some ==> r.unwrap().value() == ratio_atomics(numerator as nat, denominator as nat),
{
    Decimal256::checked_from_ratio(numerator, denominator).ok().map(
        |d| Decimal { bytes: d.atomics().to_be_bytes() },
    )
}

/// Relies on `Decimal256::checked_add`: the exact sum, an error when it
/// reaches 2^256 atomics.
#[verifier::external_body]
pub(crate) fn decimal_checked_add(a: Decimal, b: Decimal) -> (r: Option<Decimal>)
    ensures
        a.value() + b.value() < atomics_limit() ==> r is Some,
        r is Some ==> r.unwrap().value() == a.value() + b.value(),
        a.value() + b.value() >= atomics_limit() ==> r is None,
{
    let a = Decimal256::new(Uint256::from_be_bytes(a.bytes));
    let b = Decimal256::new(Uint256::from_be_bytes(b.bytes));
    a.checked_add(b).ok().map(|d| Decimal { bytes: d.atomics().to_be_bytes() })
}

/// Relies on `Decimal256::checked_sub`: the exact difference, an error when
/// `b` exceeds `a`.
#[verifier::external_body]
pub(crate) fn decimal_checked_sub(a: Decimal, b: Decimal) -> (r: Option<Decimal>)
    ensures
        b.value() <= a.value() ==> r is Some,
        r is Some ==> r.unwrap().value() == a.value() - b.value(),
        b.value() > a.value() ==> r is None,
{
    let a = Decimal256::new(Uint256::from_be_bytes(a.bytes));
    let b = Decimal256::new(Uint256::from_be_bytes(b.bytes));
    a.checked_sub(b).ok().map(|d| Decimal { bytes: d.atomics().to_be_bytes() })
}

/// Relies on `Uint256::checked_mul_floor` with a `Decimal256` fraction
/// (atomics over 10^18): floor(share * atomics / 10^18), then narrowed to
/// 128 bits, an error when it does not fit.
#[verifier::external_body]
pub(crate) fn decimal_mul_floor(share: u128, d: Decimal) -> (r: Option<u128>)
    ensures
        owed_units(d.value(), share as nat) <= u128::MAX ==> r == Some(
            owed_units(d.value(), share as nat) as u128,
        ),
        owed_units(d.value(), share as nat) > u128::MAX ==> r is None,
{
    let d = Decimal256::new(Uint256::from_be_bytes(d.bytes));
    let p = Uint256::from(share).checked_mul_floor(d).ok()?;
    Uint128::try_from(p).ok().map(|u| u.u128())
}

} // verus!
