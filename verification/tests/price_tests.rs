use double_auction::order::LimitOrderId;
use double_auction::price::{checked_total_price, total_price};
use double_auction::priority::Priority;

#[test]
fn total_price_unit_scaling() {
    assert_eq!(total_price(1, 1, 1, 1), 1);
    assert_eq!(total_price(50, 100, 1, 1), 5000);
}

#[test]
fn total_price_floors_division() {
    // floor(10 * 7 / 4) * 3 = 17 * 3 = 51, never rounded up to 52.5-ish values
    assert_eq!(total_price(10, 7, 3, 4), 51);
    // floor(15 / 2) * 2 = 14
    assert_eq!(total_price(5, 3, 2, 2), 14);
}

#[test]
fn checked_total_price_agrees_when_it_fits() {
    assert_eq!(checked_total_price(10, 7, 3, 4), Some(51));
    assert_eq!(checked_total_price(50, 100, 1, 1), Some(5000));
}

#[test]
fn checked_total_price_detects_overflow() {
    // (2^63 * 2^63 / 1) * 4 = 2^128: one past the largest amount
    let q: u128 = 1u128 << 63;
    let p: u64 = 1u64 << 63;
    assert_eq!(checked_total_price(q, p, 4, 1), None);
    // one notch smaller fits
    assert!(checked_total_price(q, p, 3, 1).is_some());
}

#[test]
fn order_ids_count_up_from_zero() {
    let id = LimitOrderId::initial_id();
    assert_eq!(id.to_raw(), 0);
    let id2 = id.next();
    assert_eq!(id2.to_raw(), 1);
    assert_eq!(LimitOrderId::from_raw(41).next().to_raw(), 42);
    assert_eq!(LimitOrderId::from_raw(7).to_raw(), 7);
}

#[test]
fn bid_keys_sort_high_price_first_then_time() {
    // ascending key order must yield descending price
    assert!(Priority::high_low(100, 5).key < Priority::high_low(90, 3).key);
    // and ascending sequence id at equal price
    assert!(Priority::high_low(100, 1).key < Priority::high_low(100, 2).key);
}

#[test]
fn ask_keys_sort_low_price_first_then_time() {
    assert!(Priority::low_low(50, 9).key < Priority::low_low(60, 0).key);
    assert!(Priority::low_low(50, 1).key < Priority::low_low(50, 2).key);
}

#[test]
fn keys_never_collide_across_sequence_ids() {
    assert_ne!(Priority::high_low(100, 1).key, Priority::high_low(100, 2).key);
    assert_ne!(Priority::low_low(50, 1).key, Priority::low_low(50, 2).key);
    assert_ne!(Priority::high_low(99, 8).key, Priority::high_low(100, 9).key);
}
