//! Checked arithmetic: every operation either returns the exact result or
//! fails, and none wraps or truncates.

use vstd::prelude::*;
use crate::error::LedgerError;

verus! {

/// Parts per million in one whole.
pub const PPM: u128 = 1_000_000;

/// The number that a big-endian byte string stands for.
pub open spec fn be_value(bytes: Seq<u8>) -> nat
    decreases bytes.len(),
{
    if bytes.len() == 0 {
        0
    } else {
        be_value(bytes.drop_last()) * 256 + bytes.last() as nat
    }
}

/// The first number that 256 bits cannot hold.
pub open spec fn u256_limit() -> nat {
    0x1_0000_0000_0000_0000_0000_0000_0000_0000_0000_0000_0000_0000_0000_0000_0000_0000nat
}

/// An unsigned 256-bit integer, held as its 32 big-endian bytes.
#[derive(Clone, Copy, Debug)]
pub struct U256 {
    pub bytes: [u8; 32],
}

impl View for U256 {
    type V = nat;

    open spec fn view(&self) -> nat {
        be_value(self.bytes@)
    }
}

/// `cosmwasm_std::Uint256::from_u128` followed by `to_be_bytes`: the 32
/// big-endian bytes of `x`.
#[verifier::external_body]
fn uint256_from_u128(x: u128) -> (r: [u8; 32])
    ensures
        be_value(r@) == x,
{
    cosmwasm_std::Uint256::from_u128(x).to_be_bytes()
}

/// `cosmwasm_std::Uint256::checked_add`: the sum, or nothing where it does not
/// fit in 256 bits.
#[verifier::external_body]
fn uint256_checked_add(a: [u8; 32], b: [u8; 32]) -> (r: Option<[u8; 32]>)
    ensures
        be_value(a@) + be_value(b@) < u256_limit() ==> r is Some && be_value(r->0@) == be_value(
            a@,
        ) + be_value(b@),
        be_value(a@) + be_value(b@) >= u256_limit() ==> r is None,
{
    cosmwasm_std::Uint256::new(a).checked_add(cosmwasm_std::Uint256::new(b)).ok().map(
        |c| c.to_be_bytes(),
    )
}

/// `cosmwasm_std::Uint256::checked_sub`: the difference, or nothing where it
/// would be negative.
#[verifier::external_body]
fn uint256_checked_sub(a: [u8; 32], b: [u8; 32]) -> (r: Option<[u8; 32]>)
    ensures
        be_value(a@) >= be_value(b@) ==> r is Some && be_value(r->0@) == be_value(a@) - be_value(
            b@,
        ),
        be_value(a@) < be_value(b@) ==> r is None,
{
    cosmwasm_std::Uint256::new(a).checked_sub(cosmwasm_std::Uint256::new(b)).ok().map(
        |c| c.to_be_bytes(),
    )
}

/// `cosmwasm_std::Uint256::checked_mul`: the product, or nothing where it does
/// not fit in 256 bits.
#[verifier::external_body]
fn uint256_checked_mul(a: [u8; 32], b: [u8; 32]) -> (r: Option<[u8; 32]>)
    ensures
        be_value(a@) * be_value(b@) < u256_limit() ==> r is Some && be_value(r->0@) == be_value(
            a@,
        ) * be_value(b@),
        be_value(a@) * be_value(b@) >= u256_limit() ==> r is None,
{
    cosmwasm_std::Uint256::new(a).checked_mul(cosmwasm_std::Uint256::new(b)).ok().map(
        |c| c.to_be_bytes(),
    )
}

/// `cosmwasm_std::Uint256::checked_div`: the floored quotient, or nothing where
/// the divisor is zero.
#[verifier::external_body]
fn uint256_checked_div(a: [u8; 32], b: [u8; 32]) -> (r: Option<[u8; 32]>)
    ensures
        be_value(b@) != 0 ==> r is Some && be_value(r->0@) == be_value(a@) / be_value(b@),
        be_value(b@) == 0 ==> r is None,
{
    cosmwasm_std::Uint256::new(a).checked_div(cosmwasm_std::Uint256::new(b)).ok().map(
        |c| c.to_be_bytes(),
    )
}

/// `cosmwasm_std::Uint128::checked_multiply_ratio`: `base * numerator /
/// denominator`, floored, with the product taken in 256 bits. It fails with
/// `DivideByZero` on a zero denominator and with `Overflow` where the quotient
/// does not fit in 128 bits.
#[verifier::external_body]
fn uint128_checked_multiply_ratio(base: u128, numerator: u128, denominator: u128) -> (r: Result<
    u128,
    LedgerError,
>)
    ensures
        denominator == 0 ==> r is Err && r->Err_0 is DivideByZero,
        denominator != 0 && (base * numerator) / (denominator as int) > u128::MAX ==> r is Err
            && r->Err_0 is Overflow,
        denominator != 0 && (base * numerator) / (denominator as int) <= u128::MAX ==> r is Ok
            && r->Ok_0 == (base * numerator) / (denominator as int),
{
    match cosmwasm_std::Uint128::new(base).checked_multiply_ratio(numerator, denominator) {
        Ok(v) => Ok(v.u128()),
        Err(cosmwasm_std::CheckedMultiplyRatioError::DivideByZero) => Err(LedgerError::DivideByZero),
        Err(cosmwasm_std::CheckedMultiplyRatioError::Overflow) => Err(LedgerError::Overflow),
    }
}

impl U256 {
    /// The number whose big-endian bytes are `bytes`.
    pub fn from_be_bytes(bytes: [u8; 32]) -> (r: U256)
        ensures
            r.bytes == bytes,
    {
        U256 { bytes }
    }

    /// The big-endian bytes of the number.
    pub fn to_be_bytes(&self) -> (r: [u8; 32])
        ensures
            r == self.bytes,
    {
        self.bytes
    }

    /// The 256-bit integer equal to `x`.
    pub fn from_u128(x: u128) -> (r: U256)
        ensures
            r@ == x,
    {
        U256 { bytes: uint256_from_u128(x) }
    }
}

/// `a * b` in 256 bits; `Overflow` where the product does not fit.
pub fn mul_u256(a: U256, b: U256) -> (r: Result<U256, LedgerError>)
    ensures
        a@ * b@ < u256_limit() ==> r is Ok && r->Ok_0@ == a@ * b@,
        a@ * b@ >= u256_limit() ==> r is Err && r->Err_0 is Overflow,
{
    match uint256_checked_mul(a.bytes, b.bytes) {
        Some(bytes) => Ok(U256 { bytes }),
        None => Err(LedgerError::Overflow),
    }
}

/// `a + b` in 256 bits; `Overflow` where the sum does not fit.
pub fn add_u256(a: U256, b: U256) -> (r: Result<U256, LedgerError>)
    ensures
        a@ + b@ < u256_limit() ==> r is Ok && r->Ok_0@ == a@ + b@,
        a@ + b@ >= u256_limit() ==> r is Err && r->Err_0 is Overflow,
{
    match uint256_checked_add(a.bytes, b.bytes) {
        Some(bytes) => Ok(U256 { bytes }),
        None => Err(LedgerError::Overflow),
    }
}

/// `a - b` in 256 bits; `Overflow` where `b` exceeds `a`.
pub fn sub_u256(a: U256, b: U256) -> (r: Result<U256, LedgerError>)
    ensures
        a@ >= b@ ==> r is Ok && r->Ok_0@ == a@ - b@,
        a@ < b@ ==> r is Err && r->Err_0 is Overflow,
{
    match uint256_checked_sub(a.bytes, b.bytes) {
        Some(bytes) => Ok(U256 { bytes }),
        None => Err(LedgerError::Overflow),
    }
}

/// `numerator / denominator`, floored; `DivideByZero` on a zero denominator.
pub fn div_u256(numerator: U256, denominator: U256) -> (r: Result<U256, LedgerError>)
    ensures
        denominator@ != 0 ==> r is Ok && r->Ok_0@ == numerator@ / denominator@,
        denominator@ == 0 ==> r is Err && r->Err_0 is DivideByZero,
{
    match uint256_checked_div(numerator.bytes, denominator.bytes) {
        Some(bytes) => Ok(U256 { bytes }),
        None => Err(LedgerError::DivideByZero),
    }
}

/// `a + b`; `Overflow` where the sum exceeds 128 bits.
pub fn add_u128(a: u128, b: u128) -> (r: Result<u128, LedgerError>)
    ensures
        a + b <= u128::MAX ==> r is Ok && r->Ok_0 == a + b,
        a + b > u128::MAX ==> r is Err && r->Err_0 is Overflow,
{
    match a.checked_add(b) {
        Some(c) => Ok(c),
        None => Err(LedgerError::Overflow),
    }
}

/// `a - b`; `Overflow` where `b` exceeds `a`.
pub fn sub_u128(a: u128, b: u128) -> (r: Result<u128, LedgerError>)
    ensures
        a >= b ==> r is Ok && r->Ok_0 == a - b,
        a < b ==> r is Err && r->Err_0 is Overflow,
{
    match a.checked_sub(b) {
        Some(c) => Ok(c),
        None => Err(LedgerError::Overflow),
    }
}

/// `a * b`; `Overflow` where the product exceeds 128 bits.
pub fn mul_u128(a: u128, b: u128) -> (r: Result<u128, LedgerError>)
    ensures
        a * b <= u128::MAX ==> r is Ok && r->Ok_0 == a * b,
        a * b > u128::MAX ==> r is Err && r->Err_0 is Overflow,
{
    match a.checked_mul(b) {
        Some(c) => Ok(c),
        None => Err(LedgerError::Overflow),
    }
}

/// `numerator / denominator`, floored; `DivideByZero` on a zero denominator.
pub fn div_u128(numerator: u128, denominator: u128) -> (r: Result<u128, LedgerError>)
    ensures
        denominator != 0 ==> r is Ok && r->Ok_0 == numerator / denominator,
        denominator == 0 ==> r is Err && r->Err_0 is DivideByZero,
{
    if denominator == 0 {
        Err(LedgerError::DivideByZero)
    } else {
        Ok(numerator / denominator)
    }
}

/// `base * numerator / denominator`, floored, with no overflow in the product.
/// `DivideByZero` on a zero denominator, `Overflow` where the quotient exceeds
/// 128 bits.
pub fn mul_ratio_u128(base: u128, numerator: u128, denominator: u128) -> (r: Result<
    u128,
    LedgerError,
>)
    ensures
        denominator == 0 ==> r is Err && r->Err_0 is DivideByZero,
        denominator != 0 && (base * numerator) / (denominator as int) > u128::MAX ==> r is Err
            && r->Err_0 is Overflow,
        denominator != 0 && (base * numerator) / (denominator as int) <= u128::MAX ==> r is Ok
            && r->Ok_0 == (base * numerator) / (denominator as int),
{
    uint128_checked_multiply_ratio(base, numerator, denominator)
}

/// `base * ppm / 1_000_000`, floored: a share given in parts per million.
pub fn mul_pct_u128(base: u128, ppm: u128) -> (r: Result<u128, LedgerError>)
    ensures
        (base * ppm) / 1_000_000 > u128::MAX ==> r is Err && r->Err_0 is Overflow,
        (base * ppm) / 1_000_000 <= u128::MAX ==> r is Ok && r->Ok_0 == (base * ppm) / 1_000_000,
{
    mul_ratio_u128(base, ppm, PPM)
}

/// `a + b` on a 64-bit counter; `Overflow` where the sum exceeds 64 bits.
pub fn add_u64(a: u64, b: u64) -> (r: Result<u64, LedgerError>)
    ensures
        a + b <= u64::MAX ==> r is Ok && r->Ok_0 == a + b,
        a + b > u64::MAX ==> r is Err && r->Err_0 is Overflow,
{
    match a.checked_add(b) {
        Some(c) => Ok(c),
        None => Err(LedgerError::Overflow),
    }
}

/// `a + b` on a 32-bit counter; `Overflow` where the sum exceeds 32 bits.
pub fn add_u32(a: u32, b: u32) -> (r: Result<u32, LedgerError>)
    ensures
        a + b <= u32::MAX ==> r is Ok && r->Ok_0 == a + b,
        a + b > u32::MAX ==> r is Err && r->Err_0 is Overflow,
{
    match a.checked_add(b) {
        Some(c) => Ok(c),
        None => Err(LedgerError::Overflow),
    }
}

} // verus!
