//! Priority key encoding for order book sorting.
//!
//! A priority key packs a price-derived high field and the order's sequence
//! identifier into one totally ordered 128-bit value, so that ascending key
//! order is exactly price-time priority:
//! - bids: the high field decreases as the price increases, so ascending key
//!   order yields higher prices first;
//! - asks: the high field is the price itself, so ascending key order yields
//!   lower prices first;
//! - in both, the low field is the raw sequence identifier, so at equal price
//!   the earliest order sorts first.
//!
//! Because sequence identifiers are unique, the encoding never collides.

use vstd::prelude::*;

verus! {

use crate::order::Price;

/// The weight of the high field: one past the largest low field value.
pub open spec fn key_radix() -> int {
    0x1_0000_0000_0000_0000int
}

/// Key under which a bid at `price` with sequence identifier `raw_id` rests:
/// high field decreasing in price, low field the identifier.
pub open spec fn bid_key(price: Price, raw_id: u64) -> int {
    (u64::MAX - price) * key_radix() + raw_id
}

/// Key under which an ask at `price` with sequence identifier `raw_id` rests:
/// high field the price, low field the identifier.
pub open spec fn ask_key(price: Price, raw_id: u64) -> int {
    price * key_radix() + raw_id
}

/// The key for a resting order on the given side.
pub open spec fn side_key(is_bid: bool, price: Price, raw_id: u64) -> int {
    if is_bid {
        bid_key(price, raw_id)
    } else {
        ask_key(price, raw_id)
    }
}

/// Priority key for order book sorting.
/// Bids: higher prices first (descending).
/// Asks: lower prices first (ascending).
#[derive(Copy, Clone, Debug, PartialEq, Eq, Structural)]
pub struct Priority {
    /// Composite of price and sequence identifier.
    pub key: u128,
}

impl Priority {
    /// Key for a bid: the high field is the complement of the price, so that
    /// ascending key order yields descending price order.
    pub fn high_low(price: Price, raw_id: u64) -> (r: Priority)
        ensures
            r.key == bid_key(price, raw_id),
    {
        Priority { key: ((u64::MAX - price) as u128) * 0x1_0000_0000_0000_0000u128 + (raw_id as u128) }
    }

    /// Key for an ask: the high field is the price itself, so that ascending
    /// key order yields ascending price order.
    pub fn low_low(price: Price, raw_id: u64) -> (r: Priority)
        ensures
            r.key == ask_key(price, raw_id),
    {
        Priority { key: (price as u128) * 0x1_0000_0000_0000_0000u128 + (raw_id as u128) }
    }
}

/// Composite keys order first by high field, then by low field.
proof fn lemma_composite_order(hi1: u64, lo1: u64, hi2: u64, lo2: u64)
    ensures
        (hi1 * key_radix() + lo1 < hi2 * key_radix() + lo2) <==> (hi1 < hi2 || (hi1 == hi2 && lo1 < lo2)),
{
    assert((hi1 * key_radix() + lo1 < hi2 * key_radix() + lo2) <==> (hi1 < hi2 || (hi1 == hi2 && lo1 < lo2)))
        by (nonlinear_arith)
        requires
            lo1 < key_radix(),
            lo2 < key_radix(),
            hi1 >= 0,
            hi2 >= 0,
    ;
}

/// Ascending bid keys mean descending price, and ascending sequence
/// identifier at equal price.
pub proof fn lemma_bid_key_order(p1: Price, s1: u64, p2: Price, s2: u64)
    ensures
        (bid_key(p1, s1) < bid_key(p2, s2)) <==> (p1 > p2 || (p1 == p2 && s1 < s2)),
{
    lemma_composite_order((u64::MAX - p1) as u64, s1, (u64::MAX - p2) as u64, s2);
}

/// Ascending ask keys mean ascending price, and ascending sequence
/// identifier at equal price.
pub proof fn lemma_ask_key_order(p1: Price, s1: u64, p2: Price, s2: u64)
    ensures
        (ask_key(p1, s1) < ask_key(p2, s2)) <==> (p1 < p2 || (p1 == p2 && s1 < s2)),
{
    lemma_composite_order(p1, s1, p2, s2);
}

/// On one side, the encoding is injective, and distinct sequence identifiers
/// give distinct keys whatever the prices: no two resting orders collide.
pub proof fn lemma_side_key_injective(is_bid: bool, p1: Price, s1: u64, p2: Price, s2: u64)
    ensures
        side_key(is_bid, p1, s1) == side_key(is_bid, p2, s2) ==> (p1 == p2 && s1 == s2),
        s1 != s2 ==> side_key(is_bid, p1, s1) != side_key(is_bid, p2, s2),
{
    if is_bid {
        lemma_bid_key_order(p1, s1, p2, s2);
        lemma_bid_key_order(p2, s2, p1, s1);
    } else {
        lemma_ask_key_order(p1, s1, p2, s2);
        lemma_ask_key_order(p2, s2, p1, s1);
    }
}

} // verus!
