//! Orders, order identifiers, and cancellation requests.

use vstd::prelude::*;

verus! {

/// Token amount type (supports large quantities).
pub type TokenAmount = u128;

/// Price type: the settlement value of one unit is
/// `price * price_numerator / price_denominator` in currency.
pub type Price = u64;

/// Identifies an account holding currency or asset balances: an order's owner,
/// or the engine's own escrow account.
pub type AccountId = u64;

/// Sequential identifier for orders, ensuring time priority within price
/// levels. Identifiers are assigned from a monotonically increasing counter
/// and never reused.
#[derive(Copy, Clone, Debug, PartialEq, Eq, Structural)]
pub struct LimitOrderId {
    raw_id: u64,
}

impl LimitOrderId {
    /// The raw counter value, for use in contracts.
    pub closed spec fn raw(self) -> u64 {
        self.raw_id
    }

    /// The identifier with the given raw counter value, for use in contracts.
    pub closed spec fn spec_from_raw(r: u64) -> LimitOrderId {
        LimitOrderId { raw_id: r }
    }

    /// The first identifier an engine assigns.
    pub fn initial_id() -> (r: Self)
        ensures
            r.raw() == 0,
            r == LimitOrderId::spec_from_raw(0),
    {
        LimitOrderId { raw_id: 0 }
    }

    /// The next identifier. The identifier space must not be exhausted:
    /// callers check `to_raw() < u64::MAX` and refuse to create a new
    /// resting order otherwise, rather than wrap and risk key collisions.
    pub fn next(&self) -> (r: Self)
        requires
            self.raw() < u64::MAX,
        ensures
            r.raw() == self.raw() + 1,
            r == LimitOrderId::spec_from_raw((self.raw() + 1) as u64),
    {
        LimitOrderId { raw_id: self.raw_id + 1 }
    }

    pub fn from_raw(r: u64) -> (id: Self)
        ensures
            id.raw() == r,
            id == LimitOrderId::spec_from_raw(r),
    {
        LimitOrderId { raw_id: r }
    }

    pub fn to_raw(&self) -> (r: u64)
        ensures
            r == self.raw(),
    {
        self.raw_id
    }
}

/// Identifiers are exactly their raw counter values.
pub proof fn lemma_id_raw(r: u64)
    ensures
        LimitOrderId::spec_from_raw(r).raw() == r,
        forall|id: LimitOrderId| (#[trigger] id.raw()) == r ==> id == LimitOrderId::spec_from_raw(r),
{
}

/// A resting order in a book, specifying price, amount and ownership.
#[derive(Copy, Clone, Debug, PartialEq, Eq, Structural)]
pub struct LimitOrder {
    /// Unfilled quantity. Positive while the order rests; a resting order's
    /// quantity also always fits in 64 bits, the headroom required by the
    /// settlement arithmetic.
    pub amount: TokenAmount,
    /// The limit price the order was submitted with; never changes.
    pub price: Price,
    /// Sequence identifier; never changes.
    pub id: LimitOrderId,
    /// The submitting account.
    pub owner: AccountId,
    /// `true` for a buy (bid) order, `false` for a sell (ask) order.
    pub is_bid: bool,
    /// Owner-chosen handle under which the order can be cancelled.
    pub cancelation_id: u32,
}

/// A request to cancel a resting order: the owner together with the handle
/// the owner chose at submission.
#[derive(Copy, Clone, Debug, PartialEq, Eq, Structural)]
pub struct CancelationRequest {
    pub owner: AccountId,
    pub id: u32,
}

/// Lifecycle flag for a market as a whole: whether it still accepts orders.
#[derive(Copy, Clone, Debug, PartialEq, Eq, Structural)]
pub enum MarketStatus {
    Active,
    Closed,
}

} // verus!
