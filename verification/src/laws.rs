//! The engine's stated laws, proved against the contracts of the other
//! modules.

use vstd::prelude::*;

verus! {

use crate::book::{BookEntry, entry_ok, find_entry};
use crate::engine::{
    DoubleAuction, Fill, crosses, fill_transfers, fills_transfers, match_plan, order_request,
};
use crate::index::{CancelEntry, lookup, removed_request, unique_requests, lemma_lookup_after_removal};
use crate::order::{AccountId, CancelationRequest, Price, TokenAmount};
use crate::price::{lemma_settlement_rounds_down, settlement, settlement_fits};
use crate::priority::{lemma_ask_key_order, lemma_bid_key_order};
use crate::transfer::{Token, Transfer};

/// While orders rest, every one of them has a positive quantity, and the
/// books and the cancellation index are in bijection: each book entry is
/// found by the lookup of its own cancel request, each index entry resolves
/// to a live book entry of the requesting owner under the requested handle,
/// and no request is indexed twice. This holds in every well-formed engine
/// state, and every operation's contract preserves well-formedness.
pub proof fn lemma_resting_invariants(engine: DoubleAuction)
    requires
        engine.wf(),
    ensures
        forall|i: int| 0 <= i < engine.bid_entries().len() ==> (#[trigger] engine.bid_entries()[i]).order.amount > 0,
        forall|i: int| 0 <= i < engine.ask_entries().len() ==> (#[trigger] engine.ask_entries()[i]).order.amount > 0,
        forall|j: int| 0 <= j < engine.bid_entries().len()
            ==> lookup(engine.index_entries(), order_request((#[trigger] engine.bid_entries()[j]).order))
                == Some(CancelEntry {
                    request: order_request(engine.bid_entries()[j].order),
                    is_bid: true,
                    key: engine.bid_entries()[j].key,
                }),
        forall|j: int| 0 <= j < engine.ask_entries().len()
            ==> lookup(engine.index_entries(), order_request((#[trigger] engine.ask_entries()[j]).order))
                == Some(CancelEntry {
                    request: order_request(engine.ask_entries()[j].order),
                    is_bid: false,
                    key: engine.ask_entries()[j].key,
                }),
        forall|req: CancelationRequest| #[trigger] lookup(engine.index_entries(), req) is Some ==> {
            let ie = lookup(engine.index_entries(), req)->Some_0;
            let found = find_entry(
                if ie.is_bid {
                    engine.bid_entries()
                } else {
                    engine.ask_entries()
                },
                ie.key,
            );
            found is Some && found->Some_0.order.owner == req.owner
                && found->Some_0.order.cancelation_id == req.id
        },
        unique_requests(engine.index_entries()),
{
    assert forall|i: int| 0 <= i < engine.bid_entries().len()
        implies (#[trigger] engine.bid_entries()[i]).order.amount > 0 by {
        assert(entry_ok(engine.bid_entries()[i], true));
    }
    assert forall|i: int| 0 <= i < engine.ask_entries().len()
        implies (#[trigger] engine.ask_entries()[i]).order.amount > 0 by {
        assert(entry_ok(engine.ask_entries()[i], false));
    }
}

/// Ascending iteration of the bid book is non-increasing in price, and
/// non-decreasing in sequence identifier within equal price: the engine
/// serves the highest bid first, oldest first among equals.
pub proof fn lemma_bid_book_price_time_order(engine: DoubleAuction)
    requires
        engine.wf(),
    ensures
        forall|i: int, j: int| 0 <= i < j < engine.bid_entries().len()
            ==> (#[trigger] engine.bid_entries()[i]).order.price >= (#[trigger] engine.bid_entries()[j]).order.price,
        forall|i: int, j: int| 0 <= i < j < engine.bid_entries().len()
            && (#[trigger] engine.bid_entries()[i]).order.price == (#[trigger] engine.bid_entries()[j]).order.price
            ==> engine.bid_entries()[i].order.id.raw() < engine.bid_entries()[j].order.id.raw(),
{
    let s = engine.bid_entries();
    assert forall|i: int, j: int| 0 <= i < j < s.len() implies (#[trigger] s[i]).order.price >= (#[trigger] s[j]).order.price
        && (s[i].order.price == s[j].order.price ==> s[i].order.id.raw() < s[j].order.id.raw()) by {
        assert(entry_ok(s[i], true) && entry_ok(s[j], true));
        assert(s[i].key < s[j].key);
        lemma_bid_key_order(s[i].order.price, s[i].order.id.raw(), s[j].order.price, s[j].order.id.raw());
    }
}

/// Ascending iteration of the ask book is non-decreasing in price, and
/// non-decreasing in sequence identifier within equal price: the engine
/// serves the lowest ask first, oldest first among equals.
pub proof fn lemma_ask_book_price_time_order(engine: DoubleAuction)
    requires
        engine.wf(),
    ensures
        forall|i: int, j: int| 0 <= i < j < engine.ask_entries().len()
            ==> (#[trigger] engine.ask_entries()[i]).order.price <= (#[trigger] engine.ask_entries()[j]).order.price,
        forall|i: int, j: int| 0 <= i < j < engine.ask_entries().len()
            && (#[trigger] engine.ask_entries()[i]).order.price == (#[trigger] engine.ask_entries()[j]).order.price
            ==> engine.ask_entries()[i].order.id.raw() < engine.ask_entries()[j].order.id.raw(),
{
    let s = engine.ask_entries();
    assert forall|i: int, j: int| 0 <= i < j < s.len() implies (#[trigger] s[i]).order.price <= (#[trigger] s[j]).order.price
        && (s[i].order.price == s[j].order.price ==> s[i].order.id.raw() < s[j].order.id.raw()) by {
        assert(entry_ok(s[i], false) && entry_ok(s[j], false));
        assert(s[i].key < s[j].key);
        lemma_ask_key_order(s[i].order.price, s[i].order.id.raw(), s[j].order.price, s[j].order.id.raw());
    }
}

/// Every fill of a matching plan takes its maker from the book, best first,
/// for no more than the maker's resting quantity, only while the maker's
/// price satisfies the incoming limit.
pub proof fn lemma_match_plan_fills(book: Seq<BookEntry>, incoming_is_bid: bool, limit: Price, rest: TokenAmount)
    requires
        forall|i: int| 0 <= i < book.len() ==> (#[trigger] book[i]).order.amount > 0,
    ensures
        ({
            let m = match_plan(book, incoming_is_bid, limit, rest);
            &&& m.fills.len() <= book.len()
            &&& m.remaining <= rest
            &&& forall|j: int| 0 <= j < m.fills.len() ==> (#[trigger] m.fills[j]).maker == book[j].order
                    && 0 < m.fills[j].quantity <= book[j].order.amount
                    && crosses(incoming_is_bid, book[j].order.price, limit)
        }),
    decreases book.len(),
{
    let m = match_plan(book, incoming_is_bid, limit, rest);
    if rest == 0 || book.len() == 0 || !crosses(incoming_is_bid, book[0].order.price, limit) {
    } else if book[0].order.amount > rest {
    } else {
        let t = book.drop_first();
        assert(forall|i: int| 0 <= i < t.len() ==> #[trigger] t[i] == book[i + 1]);
        lemma_match_plan_fills(t, incoming_is_bid, limit, (rest - book[0].order.amount) as TokenAmount);
        let mr = match_plan(t, incoming_is_bid, limit, (rest - book[0].order.amount) as TokenAmount);
        assert(m.fills[0] == (Fill { maker: book[0].order, quantity: book[0].order.amount }));
        assert(forall|j: int| 1 <= j < m.fills.len() ==> #[trigger] m.fills[j] == mr.fills[j - 1]);
    }
}

/// That the pair of transfers at position `j` of a fill stream settles the
/// fill `f` at the maker's price: the currency amount is the settlement
/// value of the filled quantity at the maker's own price — not at the
/// incoming order's limit — and the asset amount is exactly the filled
/// quantity; the taker pays or delivers from its own balance, the maker's
/// side comes out of escrow.
pub open spec fn fill_settled_at(ts: Seq<Transfer>, f: Fill, j: int, taker: AccountId, escrow_account: AccountId, incoming_is_bid: bool, numerator: u64, denominator: u64) -> bool {
    &&& ts[2 * j].token == Token::Currency
    &&& ts[2 * j].amount == settlement(f.quantity, f.maker.price, numerator, denominator) as TokenAmount
    &&& ts[2 * j + 1].token == Token::Asset
    &&& ts[2 * j + 1].amount == f.quantity
    &&& (if incoming_is_bid {
        ts[2 * j].from == taker && ts[2 * j].to == f.maker.owner
            && ts[2 * j + 1].from == escrow_account && ts[2 * j + 1].to == taker
    } else {
        ts[2 * j].from == escrow_account && ts[2 * j].to == taker
            && ts[2 * j + 1].from == taker && ts[2 * j + 1].to == f.maker.owner
    })
}

/// Every fill settles at the resting (maker) order's price, never at the
/// incoming order's limit price, and moves exactly the filled quantity of
/// the asset.
pub proof fn lemma_fills_settle_at_maker_price(fills: Seq<Fill>, taker: AccountId, escrow_account: AccountId, incoming_is_bid: bool, numerator: u64, denominator: u64)
    ensures
        fills_transfers(fills, taker, escrow_account, incoming_is_bid, numerator, denominator).len()
            == 2 * fills.len(),
        forall|j: int| 0 <= j < fills.len() ==> #[trigger] fill_settled_at(
            fills_transfers(fills, taker, escrow_account, incoming_is_bid, numerator, denominator),
            fills[j],
            j,
            taker,
            escrow_account,
            incoming_is_bid,
            numerator,
            denominator,
        ),
    decreases fills.len(),
{
    if fills.len() == 0 {
    } else {
        let t = fills.drop_first();
        lemma_fills_settle_at_maker_price(t, taker, escrow_account, incoming_is_bid, numerator, denominator);
        let ts = fills_transfers(fills, taker, escrow_account, incoming_is_bid, numerator, denominator);
        let ts0 = fill_transfers(fills[0], taker, escrow_account, incoming_is_bid, numerator, denominator);
        let tst = fills_transfers(t, taker, escrow_account, incoming_is_bid, numerator, denominator);
        assert(ts == ts0 + tst);
        assert(ts.len() == 2 + tst.len());
        assert forall|j: int| 0 <= j < fills.len() implies #[trigger] fill_settled_at(
            ts,
            fills[j],
            j,
            taker,
            escrow_account,
            incoming_is_bid,
            numerator,
            denominator,
        ) by {
            if j == 0 {
                assert(ts[0] == ts0[0] && ts[1] == ts0[1]);
            } else {
                assert(fills[j] == t[j - 1]);
                assert(fill_settled_at(tst, t[j - 1], j - 1, taker, escrow_account, incoming_is_bid, numerator, denominator));
                assert(ts[2 * j] == tst[2 * (j - 1)]);
                assert(ts[2 * j + 1] == tst[2 * (j - 1) + 1]);
            }
        }
    }
}

/// What a submission against a well-formed engine settles: every fill takes
/// a resting order of the opposite book, best first, only while its price
/// satisfies the limit, and the commanded transfers price each fill at that
/// resting order's own price — never at the incoming limit.
pub proof fn lemma_submission_settles_at_maker_prices(engine: DoubleAuction, is_bid: bool, limit: Price, amount: TokenAmount, taker: AccountId)
    requires
        engine.wf(),
    ensures
        ({
            let book = engine.opposite_entries(is_bid);
            let m = match_plan(book, is_bid, limit, amount);
            let ts = fills_transfers(m.fills, taker, engine.escrow(), is_bid, engine.numerator(), engine.denominator());
            &&& ts.len() == 2 * m.fills.len()
            &&& forall|j: int| 0 <= j < m.fills.len() ==> (#[trigger] m.fills[j]).maker == book[j].order
                    && 0 < m.fills[j].quantity <= book[j].order.amount
                    && crosses(is_bid, book[j].order.price, limit)
                    && fill_settled_at(ts, m.fills[j], j, taker, engine.escrow(), is_bid, engine.numerator(), engine.denominator())
        }),
{
    let book = engine.opposite_entries(is_bid);
    assert forall|i: int| 0 <= i < book.len() implies (#[trigger] book[i]).order.amount > 0 by {
        assert(entry_ok(book[i], !is_bid));
    }
    lemma_match_plan_fills(book, is_bid, limit, amount);
    let m = match_plan(book, is_bid, limit, amount);
    lemma_fills_settle_at_maker_price(m.fills, taker, engine.escrow(), is_bid, engine.numerator(), engine.denominator());
}

/// Value conservation for one fill: the fill commands exactly one currency
/// move and one asset move, each debiting one party what it credits the
/// other; and — when the settlement value is representable — the currency
/// moved only ever rounds down from the exact pro-rata value
/// `quantity * price * numerator / denominator`, by less than one
/// denominator step, never up.
pub proof fn lemma_fill_value_conserved(f: Fill, taker: AccountId, escrow_account: AccountId, incoming_is_bid: bool, numerator: u64, denominator: u64)
    requires
        denominator != 0,
        settlement_fits(f.quantity, f.maker.price, numerator, denominator),
    ensures
        ({
            let ts = fill_transfers(f, taker, escrow_account, incoming_is_bid, numerator, denominator);
            &&& ts.len() == 2
            &&& ts[0].token == Token::Currency
            &&& ts[0].amount == settlement(f.quantity, f.maker.price, numerator, denominator)
            &&& ts[1].token == Token::Asset
            &&& ts[1].amount == f.quantity
            &&& ts[0].amount * denominator <= f.quantity * f.maker.price * numerator
            &&& (numerator > 0 ==> f.quantity * f.maker.price * numerator - ts[0].amount * denominator
                    < denominator * numerator)
        }),
{
    lemma_settlement_rounds_down(f.quantity, f.maker.price, numerator, denominator);
    assert(settlement(f.quantity, f.maker.price, numerator, denominator) >= 0) by {
        let p = f.quantity * f.maker.price;
        vstd::arithmetic::div_mod::lemma_div_pos_is_pos(p, denominator as int);
        assert((p / (denominator as int)) * numerator >= 0) by (nonlinear_arith)
            requires
                p / (denominator as int) >= 0,
                numerator >= 0,
        ;
    }
}

/// Cancellation is not repeatable: once the resting order carrying a request
/// is removed — requests being unique in the index — a second lookup of the
/// same request fails, so a second cancellation returns the not-found error
/// and changes nothing.
pub proof fn lemma_cancel_not_repeatable(engine: DoubleAuction, owner: AccountId, cancelation_token: u32)
    requires
        engine.wf(),
    ensures
        lookup(
            removed_request(engine.index_entries(), (CancelationRequest { owner, id: cancelation_token })),
            (CancelationRequest { owner, id: cancelation_token }),
        ) is None,
{
    let req = CancelationRequest { owner, id: cancelation_token };
    lemma_lookup_after_removal(engine.index_entries(), req, req);
}

} // verus!
