use claims_ledger::error::LedgerError;
use claims_ledger::math::{
    add_u128, add_u256, add_u32, add_u64, div_u128, div_u256, mul_pct_u128, mul_ratio_u128,
    mul_u128, mul_u256, sub_u128, sub_u256, U256,
};

fn max_u256() -> U256 {
    U256::from_be_bytes([0xFF; 32])
}

fn two_pow_128() -> U256 {
    let mut bytes = [0u8; 32];
    bytes[15] = 1;
    U256::from_be_bytes(bytes)
}

#[test]
fn add_u128_gives_the_sum() {
    assert_eq!(add_u128(2, 3).unwrap(), 5);
    assert_eq!(add_u128(u128::MAX - 1, 1).unwrap(), u128::MAX);
    assert_eq!(add_u128(0, 0).unwrap(), 0);
}

#[test]
fn add_u128_overflows_past_the_maximum() {
    assert!(matches!(add_u128(u128::MAX, 1), Err(LedgerError::Overflow)));
    assert!(matches!(add_u128(u128::MAX, u128::MAX), Err(LedgerError::Overflow)));
}

#[test]
fn sub_u128_gives_the_difference_or_overflows() {
    assert_eq!(sub_u128(7, 3).unwrap(), 4);
    assert_eq!(sub_u128(3, 3).unwrap(), 0);
    assert!(matches!(sub_u128(3, 7), Err(LedgerError::Overflow)));
}

#[test]
fn mul_u128_gives_the_product_or_overflows() {
    assert_eq!(mul_u128(6, 7).unwrap(), 42);
    assert_eq!(mul_u128(u128::MAX, 1).unwrap(), u128::MAX);
    assert_eq!(mul_u128(u128::MAX, 0).unwrap(), 0);
    assert!(matches!(mul_u128(u128::MAX, 2), Err(LedgerError::Overflow)));
}

#[test]
fn div_u128_floors_and_rejects_zero() {
    assert_eq!(div_u128(7, 2).unwrap(), 3);
    assert_eq!(div_u128(0, 5).unwrap(), 0);
    assert!(matches!(div_u128(7, 0), Err(LedgerError::DivideByZero)));
}

#[test]
fn mul_ratio_u128_takes_the_product_in_full() {
    assert_eq!(mul_ratio_u128(10, 3, 4).unwrap(), 7);
    assert_eq!(mul_ratio_u128(5, 99, 100).unwrap(), 4);
    // The product does not fit in 128 bits, the quotient does.
    assert_eq!(mul_ratio_u128(u128::MAX, 10, 10).unwrap(), u128::MAX);
    assert_eq!(mul_ratio_u128(u128::MAX, 3, 6).unwrap(), u128::MAX / 2);
}

#[test]
fn mul_ratio_u128_fails_on_zero_denominator_and_on_overflow() {
    assert!(matches!(mul_ratio_u128(1, 1, 0), Err(LedgerError::DivideByZero)));
    assert!(matches!(mul_ratio_u128(0, 0, 0), Err(LedgerError::DivideByZero)));
    assert!(matches!(mul_ratio_u128(u128::MAX, 2, 1), Err(LedgerError::Overflow)));
}

#[test]
fn mul_pct_u128_counts_in_parts_per_million() {
    assert_eq!(mul_pct_u128(1_000_000, 250_000).unwrap(), 250_000);
    assert_eq!(mul_pct_u128(7, 500_000).unwrap(), 3);
    assert_eq!(mul_pct_u128(u128::MAX, 1_000_000).unwrap(), u128::MAX);
    assert_eq!(mul_pct_u128(123, 0).unwrap(), 0);
    assert!(matches!(mul_pct_u128(u128::MAX, 1_000_001), Err(LedgerError::Overflow)));
}

#[test]
fn add_u64_and_add_u32_check_their_width() {
    assert_eq!(add_u64(41, 1).unwrap(), 42);
    assert_eq!(add_u64(u64::MAX - 1, 1).unwrap(), u64::MAX);
    assert!(matches!(add_u64(u64::MAX, 1), Err(LedgerError::Overflow)));
    assert_eq!(add_u32(41, 1).unwrap(), 42);
    assert_eq!(add_u32(u32::MAX, 0).unwrap(), u32::MAX);
    assert!(matches!(add_u32(u32::MAX, 1), Err(LedgerError::Overflow)));
}

#[test]
fn u256_from_u128_is_big_endian() {
    let x = U256::from_u128(0x0102);
    let mut expected = [0u8; 32];
    expected[30] = 1;
    expected[31] = 2;
    assert_eq!(x.to_be_bytes(), expected);
    let mut top = [0u8; 32];
    for i in 16..32 {
        top[i] = 0xFF;
    }
    assert_eq!(U256::from_u128(u128::MAX).to_be_bytes(), top);
}

#[test]
fn add_u256_gives_the_sum_or_overflows() {
    let sum = add_u256(U256::from_u128(5), U256::from_u128(7)).unwrap();
    assert_eq!(sum.to_be_bytes(), U256::from_u128(12).to_be_bytes());
    let carried = add_u256(U256::from_u128(u128::MAX), U256::from_u128(1)).unwrap();
    assert_eq!(carried.to_be_bytes(), two_pow_128().to_be_bytes());
    assert!(matches!(add_u256(max_u256(), U256::from_u128(1)), Err(LedgerError::Overflow)));
    let kept = add_u256(max_u256(), U256::from_u128(0)).unwrap();
    assert_eq!(kept.to_be_bytes(), [0xFF; 32]);
}

#[test]
fn sub_u256_gives_the_difference_or_overflows() {
    let diff = sub_u256(two_pow_128(), U256::from_u128(1)).unwrap();
    assert_eq!(diff.to_be_bytes(), U256::from_u128(u128::MAX).to_be_bytes());
    assert!(matches!(
        sub_u256(U256::from_u128(1), U256::from_u128(2)),
        Err(LedgerError::Overflow)
    ));
}

#[test]
fn mul_u256_gives_the_product_or_overflows() {
    let product = mul_u256(U256::from_u128(1 << 64), U256::from_u128(1 << 64)).unwrap();
    assert_eq!(product.to_be_bytes(), two_pow_128().to_be_bytes());
    let small = mul_u256(U256::from_u128(6), U256::from_u128(7)).unwrap();
    assert_eq!(small.to_be_bytes(), U256::from_u128(42).to_be_bytes());
    assert!(matches!(mul_u256(max_u256(), U256::from_u128(2)), Err(LedgerError::Overflow)));
    assert!(matches!(mul_u256(two_pow_128(), two_pow_128()), Err(LedgerError::Overflow)));
}

#[test]
fn div_u256_floors_and_rejects_zero() {
    let quotient = div_u256(two_pow_128(), U256::from_u128(2)).unwrap();
    assert_eq!(quotient.to_be_bytes(), U256::from_u128(1 << 127).to_be_bytes());
    let floored = div_u256(U256::from_u128(7), U256::from_u128(2)).unwrap();
    assert_eq!(floored.to_be_bytes(), U256::from_u128(3).to_be_bytes());
    assert!(matches!(
        div_u256(U256::from_u128(7), U256::from_u128(0)),
        Err(LedgerError::DivideByZero)
    ));
}
