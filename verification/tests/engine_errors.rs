use double_auction::engine::{DoubleAuction, EngineError};
use double_auction::order::MarketStatus;

const ESCROW: u64 = 999;

#[test]
fn zero_denominator_is_refused_at_creation() {
    assert_eq!(DoubleAuction::new(ESCROW, 1, 0, 1).unwrap_err(), EngineError::ZeroDenominator);
    assert!(DoubleAuction::new(ESCROW, 0, 1, 1).is_ok());
}

#[test]
fn order_below_minimum_is_refused() {
    let mut e = DoubleAuction::new(ESCROW, 1, 1, 1000).unwrap();
    assert_eq!(e.submit_bid(1, 100, 999, 1).unwrap_err(), EngineError::OrderTooSmall);
    assert_eq!(e.submit_ask(1, 100, 999, 1).unwrap_err(), EngineError::OrderTooSmall);
    assert!(e.submit_bid(1, 100, 1000, 1).is_ok());
}

#[test]
fn order_beyond_sixty_four_bits_is_refused() {
    let mut e = DoubleAuction::new(ESCROW, 1, 1, 1).unwrap();
    assert_eq!(e.submit_bid(1, 100, 1u128 << 64, 1).unwrap_err(), EngineError::OrderTooLarge);
    assert_eq!(e.submit_ask(1, 100, u128::MAX, 1).unwrap_err(), EngineError::OrderTooLarge);
    assert!(e.submit_ask(1, 100, (1u128 << 64) - 1, 1).is_ok());
}

#[test]
fn zero_price_is_refused() {
    let mut e = DoubleAuction::new(ESCROW, 1, 1, 1).unwrap();
    assert_eq!(e.submit_bid(1, 0, 10, 1).unwrap_err(), EngineError::InvalidPrice);
    assert_eq!(e.submit_ask(1, 0, 10, 1).unwrap_err(), EngineError::InvalidPrice);
}

#[test]
fn fill_settlement_overflow_aborts_and_changes_nothing() {
    let mut e = DoubleAuction::new(ESCROW, 4, 1, 1).unwrap();
    let q: u128 = 1u128 << 63;
    let p: u64 = 1u64 << 63;
    e.submit_ask(1, p, q, 1).unwrap();
    // (2^63 * 2^63) * 4 does not fit the amount type.
    assert_eq!(e.submit_bid(2, p, q, 2).unwrap_err(), EngineError::Overflow);
    // The resting ask is untouched by the aborted submission.
    assert_eq!(e.ask_count(), 1);
    assert_eq!(e.best_ask().unwrap().order.amount, q);
    assert_eq!(e.bid_count(), 0);
}

#[test]
fn escrow_overflow_aborts_resting_bid() {
    let mut e = DoubleAuction::new(ESCROW, 4, 1, 1).unwrap();
    let q: u128 = 1u128 << 63;
    let p: u64 = 1u64 << 63;
    assert_eq!(e.submit_bid(1, p, q, 1).unwrap_err(), EngineError::Overflow);
    assert_eq!(e.bid_count(), 0);
}

#[test]
fn reusing_a_live_handle_is_refused() {
    let mut e = DoubleAuction::new(ESCROW, 1, 1, 1).unwrap();
    e.submit_bid(1, 100, 10, 1).unwrap();
    assert_eq!(e.submit_bid(1, 90, 10, 1).unwrap_err(), EngineError::HandleInUse);
    // Another owner may use the same handle value.
    assert!(e.submit_bid(2, 90, 10, 1).is_ok());
    assert_eq!(e.bid_count(), 2);
}

#[test]
fn handle_reuse_passes_when_nothing_rests() {
    let mut e = DoubleAuction::new(ESCROW, 1, 1, 1).unwrap();
    // Owner 2 has handle 9 resting on a low bid.
    e.submit_bid(2, 10, 10, 9).unwrap();
    e.submit_ask(1, 50, 10, 5).unwrap();
    // A fully matched submission never inserts, so the handle check — made
    // at insertion time — does not fire.
    let ts = e.submit_bid(2, 50, 10, 9).unwrap();
    assert_eq!(ts.len(), 2);
    assert_eq!(e.ask_count(), 0);
    assert_eq!(e.bid_count(), 1);
}

#[test]
fn unknown_cancellation_handle_is_not_found() {
    let mut e = DoubleAuction::new(ESCROW, 1, 1, 1).unwrap();
    assert_eq!(e.cancel_limit_order(1, 1).unwrap_err(), EngineError::NotFound);
    e.submit_bid(1, 100, 10, 1).unwrap();
    // Same handle, different owner: still not found.
    assert_eq!(e.cancel_limit_order(2, 1).unwrap_err(), EngineError::NotFound);
}

#[test]
fn market_status_distinguishes_active_from_closed() {
    assert_eq!(MarketStatus::Active, MarketStatus::Active);
    assert_ne!(MarketStatus::Active, MarketStatus::Closed);
}
