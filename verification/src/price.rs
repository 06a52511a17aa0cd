//! Settlement price arithmetic.
//!
//! The settlement value of a fill of `amount` units at raw price `price` is
//! `floor(amount * price / denominator) * numerator` in currency units, where
//! the numerator/denominator pair is fixed at engine creation. The order of
//! operations is deliberate: multiplying first keeps precision, and dividing
//! before the second multiplication bounds the magnitude of the final product.
//! The fractional remainder of the division is dropped: settlement only ever
//! rounds down, in favour of the paying side.

use vstd::prelude::*;

verus! {

use crate::order::{Price, TokenAmount};

/// One past the largest representable token amount.
pub open spec fn amount_limit() -> int {
    0x1_0000_0000_0000_0000_0000_0000_0000_0000int
}

/// The largest quantity a single order may carry, exclusive: quantities must
/// fit in 64 bits so that the intermediate product `amount * price` cannot
/// exceed the 128-bit amount type.
pub open spec fn quantity_limit() -> int {
    0x1_0000_0000_0000_0000int
}

/// The settlement value, as an unbounded integer, of `amount` units at raw
/// price `price` under the scaling pair `numerator / denominator`.
pub open spec fn settlement(amount: TokenAmount, price: Price, numerator: u64, denominator: u64) -> int
    recommends
        denominator != 0,
{
    ((amount * price) / (denominator as int)) * numerator
}

/// Whether the settlement value of `amount` units at `price` is representable
/// as a token amount.
pub open spec fn settlement_fits(amount: TokenAmount, price: Price, numerator: u64, denominator: u64) -> bool {
    settlement(amount, price, numerator, denominator) < amount_limit()
}

/// The intermediate product `amount * price` cannot overflow when the
/// quantity fits in 64 bits.
proof fn lemma_first_product_fits(amount: TokenAmount, price: Price)
    requires
        amount < quantity_limit(),
    ensures
        amount * price < amount_limit(),
{
    assert(amount * price <= (quantity_limit() - 1) * (u64::MAX as int)) by (nonlinear_arith)
        requires
            amount < quantity_limit(),
            price <= u64::MAX,
    ;
}

/// Settlement value of a fill. The quantity must be positive and fit in
/// 64 bits, and the result must be representable; `checked_total_price`
/// detects the unrepresentable case instead of excluding it.
pub fn total_price(amount: TokenAmount, price: Price, price_numerator: u64, price_denominator: u64) -> (r: TokenAmount)
    requires
        price_denominator != 0,
        amount > 0,
        amount < quantity_limit(),
        settlement_fits(amount, price, price_numerator, price_denominator),
    ensures
        r == settlement(amount, price, price_numerator, price_denominator),
{
    proof {
        lemma_first_product_fits(amount, price);
    }
    let amount_times_price: u128 = amount * (price as u128);
    let after_denominator: u128 = amount_times_price / (price_denominator as u128);
    after_denominator * (price_numerator as u128)
}

/// Settlement value of a fill, detecting an unrepresentable result: returns
/// the settlement value exactly when it fits in the amount type, and nothing
/// otherwise. No intermediate step wraps.
pub fn checked_total_price(amount: TokenAmount, price: Price, price_numerator: u64, price_denominator: u64) -> (r: Option<TokenAmount>)
    requires
        price_denominator != 0,
        amount > 0,
        amount < quantity_limit(),
    ensures
        r is Some <==> settlement_fits(amount, price, price_numerator, price_denominator),
        r is Some ==> r->Some_0 == settlement(amount, price, price_numerator, price_denominator),
{
    proof {
        lemma_first_product_fits(amount, price);
    }
    let amount_times_price: u128 = amount * (price as u128);
    let after_denominator: u128 = amount_times_price / (price_denominator as u128);
    after_denominator.checked_mul(price_numerator as u128)
}

/// Settlement only ever rounds down, and by less than one division step:
/// `numerator` times the exact product is over-approximated by at most
/// `denominator * numerator - 1` when the settlement value is scaled back up
/// by the denominator. No value is created by a fill.
pub proof fn lemma_settlement_rounds_down(amount: TokenAmount, price: Price, numerator: u64, denominator: u64)
    requires
        denominator != 0,
    ensures
        settlement(amount, price, numerator, denominator) * denominator <= amount * price * numerator,
        numerator > 0 ==> amount * price * numerator - settlement(amount, price, numerator, denominator) * denominator
            < denominator * numerator,
{
    let p = amount * price;
    let d = denominator as int;
    let q = p / d;
    vstd::arithmetic::div_mod::lemma_fundamental_div_mod(p, d);
    vstd::arithmetic::div_mod::lemma_mod_bound(p, d);
    assert(q * numerator * d <= p * numerator && (numerator > 0 ==> p * numerator - q * numerator * d < d * numerator))
        by (nonlinear_arith)
        requires
            p == q * d + p % d,
            0 <= p % d < d,
            numerator >= 0,
    ;
}

/// Settlement value is monotone in the quantity: a partial fill of a resting
/// order never settles for more than the whole order would.
pub proof fn lemma_settlement_monotone(a1: TokenAmount, a2: TokenAmount, price: Price, numerator: u64, denominator: u64)
    requires
        denominator != 0,
        a1 <= a2,
    ensures
        settlement(a1, price, numerator, denominator) <= settlement(a2, price, numerator, denominator),
{
    let d = denominator as int;
    assert(a1 * price <= a2 * price) by (nonlinear_arith)
        requires
            a1 <= a2,
            price >= 0,
    ;
    vstd::arithmetic::div_mod::lemma_div_is_ordered(a1 * price, a2 * price, d);
    assert((a1 * price / d) * numerator <= (a2 * price / d) * numerator) by (nonlinear_arith)
        requires
            a1 * price / d <= a2 * price / d,
            numerator >= 0,
    ;
}

} // verus!
