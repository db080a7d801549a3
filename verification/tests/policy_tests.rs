use nftmart_auction::types::{PerU16, NATIVE_CURRENCY_ID};
use nftmart_auction::auction::Pallet;

#[test]
fn per_u16_from_percent_rounds_down() {
    assert_eq!(PerU16::from_percent(0).parts, 0);
    assert_eq!(PerU16::from_percent(50).parts, 32767);
    assert_eq!(PerU16::from_percent(100).parts, 65535);
    // clamped at 100 percent
    assert_eq!(PerU16::from_percent(250).parts, 65535);
}

#[test]
fn per_u16_mul_ceil_rounds_up() {
    // 50% of 200 with ceiling: 200 * 32767 / 65535 = 99.997..., so 100
    assert_eq!(PerU16::from_percent(50).mul_ceil(200), 100);
    // zero fraction contributes nothing
    assert_eq!(PerU16::zero().mul_ceil(12345), 0);
    // full fraction is the identity
    assert_eq!(PerU16::from_percent(100).mul_ceil(777), 777);
    // ceiling: 1/65535 of 1 is still 1
    assert_eq!(PerU16::from_parts(1).mul_ceil(1), 1);
    // exact: 32767/65535 of 65535 is 32767
    assert_eq!(PerU16::from_parts(32767).mul_ceil(65535), 32767);
    // never larger than the amount
    assert_eq!(PerU16::from_parts(65535).mul_ceil(u128::MAX), u128::MAX);
}

#[test]
fn endowments_and_ids() {
    let mut p = Pallet::new(10, 4);
    assert_eq!(p.current_gid(), 0);
    let g0 = p.create_category().unwrap();
    let g1 = p.create_category().unwrap();
    assert_eq!(g0, 0);
    assert_eq!(g1, 1);
    assert_eq!(p.current_gid(), 2);
    assert_eq!(p.category_count(g0), Some(0));
    assert_eq!(p.category_count(7), None);

    p.deposit_free(42, NATIVE_CURRENCY_ID, 1000).unwrap();
    assert_eq!(p.free_balance(42, NATIVE_CURRENCY_ID), 1000);
    assert_eq!(p.reserved_balance(42, NATIVE_CURRENCY_ID), 0);
    p.mint_token(42, 3, 4, 55, true).unwrap();
    assert_eq!(p.free_quantity(42, 3, 4), 55);
}
