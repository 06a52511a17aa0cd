//! The matching engine: order books, cancellation index, price-time priority
//! matching, and cancellation.
//!
//! Every operation is atomic: it either completes, returning the transfers
//! the ledger must apply, or fails with an error and leaves the engine — and
//! therefore the ledger — exactly as it was.

use vstd::prelude::*;

verus! {

use crate::book::{
    BookEntry, OrderBook, contains_key, entry_ok, find_entry, inserted, removed, sorted,
    lemma_find_after_inserted, lemma_find_after_removed, lemma_find_entry_contains,
    lemma_inserted_props, lemma_removed_props,
};
use crate::index::{
    CancelEntry, CancelIndex, has_request, lookup, removed_request, unique_requests,
    lemma_lookup_after_push, lemma_lookup_after_removal, lemma_lookup_has_request,
    lemma_unique_after_removal,
};
use crate::order::{AccountId, CancelationRequest, LimitOrder, LimitOrderId, Price, TokenAmount};
use crate::price::{
    checked_total_price, lemma_settlement_monotone, quantity_limit, settlement, settlement_fits,
    total_price,
};
use crate::priority::{Priority, lemma_side_key_injective, side_key};
use crate::transfer::{Token, Transfer};

/// Why an operation was refused. Any error aborts the whole operation: no
/// book entry, index entry or transfer of a failed operation survives.
#[derive(Copy, Clone, Debug, PartialEq, Eq, Structural)]
pub enum EngineError {
    /// The submitted quantity is below the engine's minimum order size.
    OrderTooSmall,
    /// The submitted quantity does not fit in 64 bits.
    OrderTooLarge,
    /// The submitted limit price is zero.
    InvalidPrice,
    /// The price denominator at engine creation was zero.
    ZeroDenominator,
    /// A settlement or escrow value exceeds the amount type.
    Overflow,
    /// No resting order carries the given cancel request.
    NotFound,
    /// The sequence identifier space is exhausted; no further order can rest.
    IdsExhausted,
    /// The owner already has a resting order under this cancellation handle.
    HandleInUse,
}

/// One fill: `quantity` units taken from the resting order `maker` — at the
/// maker's price, never at the incoming order's limit price.
#[derive(Copy, Clone, Debug, PartialEq, Eq, Structural)]
pub struct Fill {
    pub maker: LimitOrder,
    pub quantity: TokenAmount,
}

/// Whether a resting order at `maker_price` satisfies an incoming order
/// limited to `limit`: an incoming bid pays at most its limit, an incoming
/// ask accepts at least its limit.
pub open spec fn crosses(incoming_is_bid: bool, maker_price: Price, limit: Price) -> bool {
    if incoming_is_bid {
        maker_price <= limit
    } else {
        maker_price >= limit
    }
}

/// What matching an incoming order against a book produces: the fills in
/// order, the unmatched remainder, and the book afterwards.
pub struct MatchOutcome {
    pub fills: Seq<Fill>,
    pub remaining: TokenAmount,
    pub book: Seq<BookEntry>,
}

/// Matching an incoming order with `rest` units left against `book`, best
/// entry first. Matching stops when the incoming order is exhausted, the book
/// is empty, or the best entry no longer satisfies the limit; a resting order
/// larger than the remainder is reduced in place, a smaller or equal one is
/// consumed whole.
pub open spec fn match_plan(book: Seq<BookEntry>, incoming_is_bid: bool, limit: Price, rest: TokenAmount) -> MatchOutcome
    decreases book.len(),
{
    if rest == 0 || book.len() == 0 || !crosses(incoming_is_bid, book[0].order.price, limit) {
        MatchOutcome { fills: Seq::empty(), remaining: rest, book }
    } else if book[0].order.amount > rest {
        MatchOutcome {
            fills: seq![Fill { maker: book[0].order, quantity: rest }],
            remaining: 0,
            book: book.update(
                0,
                BookEntry {
                    key: book[0].key,
                    order: LimitOrder { amount: (book[0].order.amount - rest) as TokenAmount, ..book[0].order },
                },
            ),
        }
    } else {
        let m = match_plan(
            book.drop_first(),
            incoming_is_bid,
            limit,
            (rest - book[0].order.amount) as TokenAmount,
        );
        MatchOutcome {
            fills: seq![Fill { maker: book[0].order, quantity: book[0].order.amount }] + m.fills,
            remaining: m.remaining,
            book: m.book,
        }
    }
}

/// The cancel request a resting order answers to.
pub open spec fn order_request(o: LimitOrder) -> CancelationRequest {
    CancelationRequest { owner: o.owner, id: o.cancelation_id }
}

/// The two ledger moves of one fill, settled at the maker's price: the taker
/// pays or delivers from its own balance, the maker's side comes out of the
/// engine's escrow, and the maker is paid or supplied directly.
pub open spec fn fill_transfers(f: Fill, taker: AccountId, escrow_account: AccountId, incoming_is_bid: bool, numerator: u64, denominator: u64) -> Seq<Transfer> {
    if incoming_is_bid {
        seq![
            Transfer {
                from: taker,
                to: f.maker.owner,
                token: Token::Currency,
                amount: settlement(f.quantity, f.maker.price, numerator, denominator) as TokenAmount,
            },
            Transfer { from: escrow_account, to: taker, token: Token::Asset, amount: f.quantity },
        ]
    } else {
        seq![
            Transfer {
                from: escrow_account,
                to: taker,
                token: Token::Currency,
                amount: settlement(f.quantity, f.maker.price, numerator, denominator) as TokenAmount,
            },
            Transfer { from: taker, to: f.maker.owner, token: Token::Asset, amount: f.quantity },
        ]
    }
}

/// The ledger moves of a sequence of fills, in fill order.
pub open spec fn fills_transfers(fills: Seq<Fill>, taker: AccountId, escrow_account: AccountId, incoming_is_bid: bool, numerator: u64, denominator: u64) -> Seq<Transfer>
    decreases fills.len(),
{
    if fills.len() == 0 {
        Seq::empty()
    } else {
        fill_transfers(fills[0], taker, escrow_account, incoming_is_bid, numerator, denominator)
            + fills_transfers(fills.drop_first(), taker, escrow_account, incoming_is_bid, numerator, denominator)
    }
}

/// Whether every fill's settlement value is representable.
pub open spec fn fills_fit(fills: Seq<Fill>, numerator: u64, denominator: u64) -> bool {
    forall|i: int| 0 <= i < fills.len()
        ==> settlement_fits((#[trigger] fills[i]).quantity, fills[i].maker.price, numerator, denominator)
}

/// What one fill does to the cancellation index: a fill that consumes its
/// maker whole drops the maker's index entry; a partial fill leaves it.
pub open spec fn fill_index_step(index: Seq<CancelEntry>, f: Fill) -> Seq<CancelEntry> {
    if f.quantity == f.maker.amount {
        removed_request(index, order_request(f.maker))
    } else {
        index
    }
}

/// The cancellation index after a sequence of fills, applied in fill order.
pub open spec fn index_after_fills(index: Seq<CancelEntry>, fills: Seq<Fill>) -> Seq<CancelEntry>
    decreases fills.len(),
{
    if fills.len() == 0 {
        index
    } else {
        index_after_fills(fill_index_step(index, fills[0]), fills.drop_first())
    }
}

/// The front entry of a book reduced in place to a new quantity: key, price,
/// identifier and ownership unchanged.
pub open spec fn reduced_front(s: Seq<BookEntry>, new_amount: TokenAmount) -> BookEntry {
    BookEntry { key: s[0].key, order: LimitOrder { amount: new_amount, ..s[0].order } }
}

/// The bijection between book entries and cancellation-index entries while
/// orders rest: every index entry resolves to a live book entry owned by the
/// requesting owner under the requested handle, and every book entry is found
/// by exactly the lookup of its own request.
pub open spec fn index_books_match(index: Seq<CancelEntry>, bids: Seq<BookEntry>, asks: Seq<BookEntry>) -> bool {
    &&& forall|req: CancelationRequest| #[trigger] lookup(index, req) is Some ==> {
            let ie = lookup(index, req)->Some_0;
            let found = find_entry(if ie.is_bid { bids } else { asks }, ie.key);
            &&& found is Some
            &&& found->Some_0.order.owner == req.owner
            &&& found->Some_0.order.cancelation_id == req.id
            &&& found->Some_0.order.is_bid == ie.is_bid
        }
    &&& forall|j: int| 0 <= j < bids.len()
            ==> lookup(index, order_request((#[trigger] bids[j]).order))
                == Some(CancelEntry { request: order_request(bids[j].order), is_bid: true, key: bids[j].key })
    &&& forall|j: int| 0 <= j < asks.len()
            ==> lookup(index, order_request((#[trigger] asks[j]).order))
                == Some(CancelEntry { request: order_request(asks[j].order), is_bid: false, key: asks[j].key })
}

/// The matching engine over one pair of tokens.
#[derive(Debug)]
pub struct DoubleAuction {
    price_numerator: u64,
    price_denominator: u64,
    min_order_size: TokenAmount,
    next_order_id: LimitOrderId,
    escrow_account: AccountId,
    bids: OrderBook,
    asks: OrderBook,
    cancelation_index: CancelIndex,
}

impl DoubleAuction {
    /// The settlement price numerator, fixed at creation.
    pub closed spec fn numerator(self) -> u64 {
        self.price_numerator
    }

    /// The settlement price denominator, fixed at creation.
    pub closed spec fn denominator(self) -> u64 {
        self.price_denominator
    }

    /// The smallest quantity an order may carry, fixed at creation.
    pub closed spec fn min_size(self) -> TokenAmount {
        self.min_order_size
    }

    /// The raw value of the next sequence identifier to assign.
    pub closed spec fn next_raw(self) -> u64 {
        self.next_order_id.raw()
    }

    /// The account holding escrowed funds: the engine's own.
    pub closed spec fn escrow(self) -> AccountId {
        self.escrow_account
    }

    /// The bid book, in ascending key order: best (highest) price first.
    pub closed spec fn bid_entries(self) -> Seq<BookEntry> {
        self.bids@
    }

    /// The ask book, in ascending key order: best (lowest) price first.
    pub closed spec fn ask_entries(self) -> Seq<BookEntry> {
        self.asks@
    }

    /// The cancellation index, in insertion order.
    pub closed spec fn index_entries(self) -> Seq<CancelEntry> {
        self.cancelation_index@
    }

    /// The book an incoming order on the given side matches against.
    pub open spec fn opposite_entries(self, incoming_is_bid: bool) -> Seq<BookEntry> {
        if incoming_is_bid {
            self.ask_entries()
        } else {
            self.bid_entries()
        }
    }

    /// The book an unmatched remainder on the given side rests in.
    pub open spec fn own_entries(self, incoming_is_bid: bool) -> Seq<BookEntry> {
        if incoming_is_bid {
            self.bid_entries()
        } else {
            self.ask_entries()
        }
    }

    /// The creation-time configuration, which no operation changes.
    pub open spec fn same_config(self, other: DoubleAuction) -> bool {
        &&& self.numerator() == other.numerator()
        &&& self.denominator() == other.denominator()
        &&& self.min_size() == other.min_size()
        &&& self.escrow() == other.escrow()
    }

    /// Well-formedness, preserved by every operation.
    ///
    /// Both books are strictly sorted by key, every resting order has a
    /// positive quantity with 64-bit headroom and rests under the key its
    /// side, price and sequence identifier encode to, every sequence
    /// identifier in a book is older than the next to be assigned, every
    /// resting bid's full settlement value is representable (so cancellation
    /// can always refund it), and the books and the cancellation index are in
    /// bijection.
    pub open spec fn wf(self) -> bool {
        &&& self.denominator() != 0
        &&& sorted(self.bid_entries())
        &&& sorted(self.ask_entries())
        &&& forall|i: int| 0 <= i < self.bid_entries().len() ==> entry_ok(#[trigger] self.bid_entries()[i], true)
        &&& forall|i: int| 0 <= i < self.ask_entries().len() ==> entry_ok(#[trigger] self.ask_entries()[i], false)
        &&& forall|i: int| 0 <= i < self.bid_entries().len()
                ==> (#[trigger] self.bid_entries()[i]).order.id.raw() < self.next_raw()
        &&& forall|i: int| 0 <= i < self.ask_entries().len()
                ==> (#[trigger] self.ask_entries()[i]).order.id.raw() < self.next_raw()
        &&& forall|i: int| 0 <= i < self.bid_entries().len()
                ==> settlement_fits(
                    (#[trigger] self.bid_entries()[i]).order.amount,
                    self.bid_entries()[i].order.price,
                    self.numerator(),
                    self.denominator(),
                )
        &&& unique_requests(self.index_entries())
        &&& index_books_match(self.index_entries(), self.bid_entries(), self.ask_entries())
    }

    /// Creates an engine with empty books. The price denominator must be
    /// nonzero for the engine's whole lifetime, so a zero denominator is
    /// refused at the door.
    pub fn new(escrow_account: AccountId, price_numerator: u64, price_denominator: u64, min_order_size: TokenAmount) -> (r: Result<DoubleAuction, EngineError>)
        ensures
            r is Err <==> price_denominator == 0,
            r is Err ==> r->Err_0 == EngineError::ZeroDenominator,
            r is Ok ==> {
                let e = r->Ok_0;
                &&& e.wf()
                &&& e.bid_entries() == Seq::<BookEntry>::empty()
                &&& e.ask_entries() == Seq::<BookEntry>::empty()
                &&& e.index_entries() == Seq::<CancelEntry>::empty()
                &&& e.numerator() == price_numerator
                &&& e.denominator() == price_denominator
                &&& e.min_size() == min_order_size
                &&& e.next_raw() == 0
                &&& e.escrow() == escrow_account
            },
    {
        if price_denominator == 0 {
            return Err(EngineError::ZeroDenominator);
        }
        let engine = DoubleAuction {
            price_numerator,
            price_denominator,
            min_order_size,
            next_order_id: LimitOrderId::initial_id(),
            escrow_account,
            bids: OrderBook::new(),
            asks: OrderBook::new(),
            cancelation_index: CancelIndex::new(),
        };
        proof {
            assert(lookup(engine.index_entries(), CancelationRequest { owner: 0, id: 0 }) is None);
        }
        Ok(engine)
    }

    /// Number of resting bids.
    pub fn bid_count(&self) -> (n: usize)
        ensures
            n == self.bid_entries().len(),
    {
        self.bids.len()
    }

    /// Number of resting asks.
    pub fn ask_count(&self) -> (n: usize)
        ensures
            n == self.ask_entries().len(),
    {
        self.asks.len()
    }

    /// The best (highest-price, then earliest) resting bid.
    pub fn best_bid(&self) -> (r: Option<BookEntry>)
        requires
            self.wf(),
        ensures
            self.bid_entries().len() == 0 ==> r is None,
            self.bid_entries().len() > 0 ==> r == Some(self.bid_entries()[0]),
    {
        self.bids.peek_best()
    }

    /// The best (lowest-price, then earliest) resting ask.
    pub fn best_ask(&self) -> (r: Option<BookEntry>)
        requires
            self.wf(),
        ensures
            self.ask_entries().len() == 0 ==> r is None,
            self.ask_entries().len() > 0 ==> r == Some(self.ask_entries()[0]),
    {
        self.asks.peek_best()
    }

    /// Why a submission on the given side would be refused, in the order the
    /// checks are made: input validation first, then a fill whose settlement
    /// value does not fit, then — only if a remainder would rest — a
    /// cancellation handle already in use, an exhausted identifier space, or
    /// an escrow value that does not fit. Nothing, exactly when the
    /// submission succeeds.
    pub open spec fn submit_error(self, is_bid: bool, owner: AccountId, price: Price, amount: TokenAmount, cancelation_id: u32) -> Option<EngineError> {
        let plan = match_plan(self.opposite_entries(is_bid), is_bid, price, amount);
        if amount < self.min_size() {
            Some(EngineError::OrderTooSmall)
        } else if amount >= quantity_limit() {
            Some(EngineError::OrderTooLarge)
        } else if price == 0 {
            Some(EngineError::InvalidPrice)
        } else if !fills_fit(plan.fills, self.numerator(), self.denominator()) {
            Some(EngineError::Overflow)
        } else if plan.remaining > 0 && has_request(self.index_entries(), (CancelationRequest { owner, id: cancelation_id })) {
            Some(EngineError::HandleInUse)
        } else if plan.remaining > 0 && self.next_raw() == u64::MAX {
            Some(EngineError::IdsExhausted)
        } else if plan.remaining > 0 && is_bid && !settlement_fits(plan.remaining, price, self.numerator(), self.denominator()) {
            Some(EngineError::Overflow)
        } else {
            None
        }
    }

    /// The entry a remainder of `remaining` units rests under after this
    /// submission: keyed by its side, limit price, and the next sequence
    /// identifier.
    pub open spec fn resting_entry(self, is_bid: bool, owner: AccountId, price: Price, remaining: TokenAmount, cancelation_id: u32) -> BookEntry {
        BookEntry {
            key: side_key(is_bid, price, self.next_raw()) as u128,
            order: LimitOrder {
                amount: remaining,
                price,
                id: LimitOrderId::spec_from_raw(self.next_raw()),
                owner,
                is_bid,
                cancelation_id,
            },
        }
    }

    /// The transfer that escrows a resting remainder: a bid escrows the
    /// settlement value of the remainder at its own limit price, an ask
    /// escrows the asset quantity itself.
    pub open spec fn escrow_transfer(self, is_bid: bool, owner: AccountId, price: Price, remaining: TokenAmount) -> Transfer {
        if is_bid {
            Transfer {
                from: owner,
                to: self.escrow(),
                token: Token::Currency,
                amount: settlement(remaining, price, self.numerator(), self.denominator()) as TokenAmount,
            }
        } else {
            Transfer { from: owner, to: self.escrow(), token: Token::Asset, amount: remaining }
        }
    }

    /// Submits a limit order on the given side: matches it against the
    /// opposite book under price-time priority, settling every fill at the
    /// resting order's price, and rests any remainder in this side's book
    /// under the next sequence identifier, escrowing what backs it.
    ///
    /// Returns the ledger transfers to apply, in order: two per fill, then
    /// the escrow of the remainder if one rests. On any error the engine is
    /// unchanged and no transfer is commanded.
    #[verifier::rlimit(100)]
    pub fn submit_limit_order(&mut self, is_bid: bool, owner: AccountId, price: Price, amount: TokenAmount, cancelation_id: u32) -> (r: Result<Vec<Transfer>, EngineError>)
        requires
            old(self).wf(),
        ensures
            final(self).wf(),
            final(self).same_config(*old(self)),
            r is Err <==> old(self).submit_error(is_bid, owner, price, amount, cancelation_id) is Some,
            r is Err ==> *final(self) == *old(self)
                && r->Err_0 == old(self).submit_error(is_bid, owner, price, amount, cancelation_id)->Some_0,
            r is Ok ==> ({
                let plan = match_plan(old(self).opposite_entries(is_bid), is_bid, price, amount);
                let fill_part = fills_transfers(plan.fills, owner, old(self).escrow(), is_bid, old(self).numerator(), old(self).denominator());
                &&& final(self).opposite_entries(is_bid) == plan.book
                &&& final(self).index_entries() == (if plan.remaining > 0 {
                    index_after_fills(old(self).index_entries(), plan.fills).push(
                        (CancelEntry {
                            request: CancelationRequest { owner, id: cancelation_id },
                            is_bid,
                            key: old(self).resting_entry(is_bid, owner, price, plan.remaining, cancelation_id).key,
                        }),
                    )
                } else {
                    index_after_fills(old(self).index_entries(), plan.fills)
                })
                &&& (plan.remaining == 0 ==> final(self).own_entries(is_bid) == old(self).own_entries(is_bid)
                        && final(self).next_raw() == old(self).next_raw()
                        && r->Ok_0@ == fill_part)
                &&& (plan.remaining > 0 ==> final(self).own_entries(is_bid) == inserted(
                        old(self).own_entries(is_bid),
                        old(self).resting_entry(is_bid, owner, price, plan.remaining, cancelation_id),
                    )
                        && final(self).next_raw() == old(self).next_raw() + 1
                        && r->Ok_0@ == fill_part.push(old(self).escrow_transfer(is_bid, owner, price, plan.remaining)))
            }),
    {
        let ghost book0 = old(self).opposite_entries(is_bid);
        let ghost index0 = old(self).index_entries();
        let ghost plan = match_plan(book0, is_bid, price, amount);

        if amount < self.min_order_size {
            return Err(EngineError::OrderTooSmall);
        }
        if amount >= 0x1_0000_0000_0000_0000u128 {
            return Err(EngineError::OrderTooLarge);
        }
        if price == 0 {
            return Err(EngineError::InvalidPrice);
        }

        let numer = self.price_numerator;
        let denom = self.price_denominator;
        let escrow_acc = self.escrow_account;
        let n = if is_bid {
            self.asks.len()
        } else {
            self.bids.len()
        };
        let mut transfers: Vec<Transfer> = Vec::new();
        let mut rest: TokenAmount = amount;
        let mut i: usize = 0;
        let mut has_partial: bool = false;
        let mut partial_new_amount: TokenAmount = 0;
        let ghost mut fills_done: Seq<Fill> = Seq::<Fill>::empty();
        proof {
            assert(book0.skip(0) =~= book0);
            assert(transfers@ =~= fills_transfers(fills_done, owner, escrow_acc, is_bid, numer, denom));
        }
        loop
            invariant_except_break
                !has_partial,
                book0 == old(self).opposite_entries(is_bid),
                index0 == old(self).index_entries(),
                plan == match_plan(book0, is_bid, price, amount),
                *self == *old(self),
                old(self).wf(),
                n == book0.len(),
                numer == old(self).numerator(),
                denom == old(self).denominator(),
                escrow_acc == old(self).escrow(),
                amount >= old(self).min_size(),
                amount < quantity_limit(),
                price > 0,
                0 <= i <= n,
                rest <= amount,
                fills_done.len() == i,
                forall|j: int| 0 <= j < i
                    ==> fills_done[j] == (Fill { maker: book0[j].order, quantity: book0[j].order.amount }),
                fills_fit(fills_done, numer, denom),
                plan.fills == fills_done + match_plan(book0.skip(i as int), is_bid, price, rest).fills,
                plan.remaining == match_plan(book0.skip(i as int), is_bid, price, rest).remaining,
                plan.book == match_plan(book0.skip(i as int), is_bid, price, rest).book,
                transfers@ == fills_transfers(fills_done, owner, escrow_acc, is_bid, numer, denom),
            ensures
                0 <= i <= n,
                rest <= amount,
                fills_done.len() == i,
                forall|j: int| 0 <= j < i
                    ==> fills_done[j] == (Fill { maker: book0[j].order, quantity: book0[j].order.amount }),
                has_partial ==> i < n && 0 < partial_new_amount < book0[i as int].order.amount && rest == 0,
                plan.fills == (if has_partial {
                    fills_done.push(
                        (Fill {
                            maker: book0[i as int].order,
                            quantity: (book0[i as int].order.amount - partial_new_amount) as TokenAmount,
                        }),
                    )
                } else {
                    fills_done
                }),
                plan.remaining == rest,
                plan.book == (if has_partial {
                    book0.skip(i as int).update(0, reduced_front(book0.skip(i as int), partial_new_amount))
                } else {
                    book0.skip(i as int)
                }),
                transfers@ == fills_transfers(plan.fills, owner, escrow_acc, is_bid, numer, denom),
                fills_fit(plan.fills, numer, denom),
            decreases n - i,
        {
            let ghost sub = match_plan(book0.skip(i as int), is_bid, price, rest);
            if !(rest > 0 && i < n) {
                proof {
                    if i == n {
                        assert(book0.skip(i as int).len() == 0);
                    }
                    assert(sub.fills == Seq::<Fill>::empty() && sub.remaining == rest && sub.book == book0.skip(i as int));
                    assert(fills_done + Seq::<Fill>::empty() =~= fills_done);
                }
                break;
            }
            proof {
                assert(book0.skip(i as int)[0] == book0[i as int]);
                assert(book0.skip(i as int).drop_first() =~= book0.skip(i + 1));
            }
            let e = if is_bid {
                self.asks.entry_at(i)
            } else {
                self.bids.entry_at(i)
            };
            let price_crosses = if is_bid {
                e.order.price <= price
            } else {
                e.order.price >= price
            };
            if !price_crosses {
                proof {
                    assert(!crosses(is_bid, book0[i as int].order.price, price));
                    assert(sub.fills == Seq::<Fill>::empty() && sub.remaining == rest && sub.book == book0.skip(i as int));
                    assert(fills_done + Seq::<Fill>::empty() =~= fills_done);
                }
                break;
            }
            proof {
                assert(entry_ok(book0[i as int], !is_bid));
            }
            let fill_qty = if e.order.amount > rest {
                rest
            } else {
                e.order.amount
            };
            let ghost f = Fill { maker: e.order, quantity: fill_qty };
            proof {
                assert(sub.fills[0] == f && sub.fills.len() >= 1);
            }
            let value: TokenAmount;
            if is_bid {
                match checked_total_price(fill_qty, e.order.price, numer, denom) {
                    Some(v) => {
                        value = v;
                    },
                    None => {
                        proof {
                            assert(plan.fills[fills_done.len() as int] == f);
                            assert(!fills_fit(plan.fills, numer, denom)) by {
                                if fills_fit(plan.fills, numer, denom) {
                                    assert(settlement_fits(
                                        plan.fills[fills_done.len() as int].quantity,
                                        plan.fills[fills_done.len() as int].maker.price,
                                        numer,
                                        denom,
                                    ));
                                }
                            }
                        }
                        return Err(EngineError::Overflow);
                    },
                }
            } else {
                proof {
                    assert(settlement_fits(e.order.amount, e.order.price, numer, denom));
                    lemma_settlement_monotone(fill_qty, e.order.amount, e.order.price, numer, denom);
                }
                value = total_price(fill_qty, e.order.price, numer, denom);
            }
            if is_bid {
                transfers.push(Transfer { from: owner, to: e.order.owner, token: Token::Currency, amount: value });
                transfers.push(Transfer { from: escrow_acc, to: owner, token: Token::Asset, amount: fill_qty });
            } else {
                transfers.push(Transfer { from: escrow_acc, to: owner, token: Token::Currency, amount: value });
                transfers.push(Transfer { from: owner, to: e.order.owner, token: Token::Asset, amount: fill_qty });
            }
            proof {
                assert(fills_transfers(seq![f], owner, escrow_acc, is_bid, numer, denom)
                    =~= fill_transfers(f, owner, escrow_acc, is_bid, numer, denom)) by {
                    assert(seq![f].drop_first() =~= Seq::<Fill>::empty());
                    assert(seq![f][0] == f);
                    assert(fills_transfers(Seq::<Fill>::empty(), owner, escrow_acc, is_bid, numer, denom)
                        == Seq::<Transfer>::empty());
                    assert(fill_transfers(f, owner, escrow_acc, is_bid, numer, denom) + Seq::<Transfer>::empty()
                        =~= fill_transfers(f, owner, escrow_acc, is_bid, numer, denom));
                }
                lemma_fills_transfers_concat(fills_done, seq![f], owner, escrow_acc, is_bid, numer, denom);
                assert(transfers@ =~= fills_transfers(fills_done + seq![f], owner, escrow_acc, is_bid, numer, denom));
            }
            if e.order.amount > rest {
                partial_new_amount = e.order.amount - rest;
                proof {
                    assert(sub.fills =~= seq![f]);
                    assert(plan.fills =~= fills_done.push(f)) by {
                        assert(fills_done + seq![f] =~= fills_done.push(f));
                    }
                    assert(sub.book == book0.skip(i as int).update(0, reduced_front(book0.skip(i as int), partial_new_amount as TokenAmount)));
                    assert(fills_fit(plan.fills, numer, denom)) by {
                        assert(forall|j: int| 0 <= j < plan.fills.len() - 1 ==> plan.fills[j] == fills_done[j]);
                        assert(plan.fills[plan.fills.len() - 1] == f);
                    }
                }
                has_partial = true;
                rest = 0;
                break;
            } else {
                proof {
                    let rec = match_plan(book0.skip(i + 1), is_bid, price, (rest - e.order.amount) as TokenAmount);
                    assert(sub.fills == seq![f] + rec.fills && sub.remaining == rec.remaining && sub.book == rec.book);
                    let prev = fills_done;
                    fills_done = fills_done.push(f);
                    assert(plan.fills =~= fills_done + rec.fills) by {
                        assert(prev + (seq![f] + rec.fills) =~= (prev + seq![f]) + rec.fills);
                        assert(prev + seq![f] =~= fills_done);
                    }
                    assert(fills_fit(fills_done, numer, denom)) by {
                        assert(forall|j: int| 0 <= j < fills_done.len() - 1 ==> fills_done[j] == prev[j]);
                        assert(fills_done[fills_done.len() - 1] == f);
                    }
                    assert(transfers@ == fills_transfers(fills_done, owner, escrow_acc, is_bid, numer, denom)) by {
                        assert(prev + seq![f] =~= fills_done);
                    }
                }
                rest = rest - e.order.amount;
                i = i + 1;
            }
        }

        let req = CancelationRequest { owner, id: cancelation_id };
        if rest > 0 {
            let existing = self.cancelation_index.get(req);
            if existing.is_some() {
                return Err(EngineError::HandleInUse);
            }
            if self.next_order_id.to_raw() == u64::MAX {
                return Err(EngineError::IdsExhausted);
            }
            if is_bid {
                match checked_total_price(rest, price, numer, denom) {
                    Some(v) => {
                        transfers.push(Transfer { from: owner, to: escrow_acc, token: Token::Currency, amount: v });
                    },
                    None => {
                        return Err(EngineError::Overflow);
                    },
                }
            } else {
                transfers.push(Transfer { from: owner, to: escrow_acc, token: Token::Asset, amount: rest });
            }
            proof {
                assert(transfers@ =~= fills_transfers(plan.fills, owner, escrow_acc, is_bid, numer, denom)
                    .push(old(self).escrow_transfer(is_bid, owner, price, plan.remaining)));
            }
        }
        proof {
            assert(old(self).submit_error(is_bid, owner, price, amount, cancelation_id) is None);
            assert(fills_done.take(0) =~= Seq::<Fill>::empty());
        }

        // Commit: the plan is final, no error can occur past this point.
        let mut j: usize = 0;
        #[verifier::loop_isolation(false)]
        while j < i
            invariant
                0 <= j <= i,
                self.wf(),
                self.same_config(*old(self)),
                self.next_raw() == old(self).next_raw(),
                self.own_entries(is_bid) == old(self).own_entries(is_bid),
                self.opposite_entries(is_bid) == book0.skip(j as int),
                self.index_entries() == index_after_fills(index0, fills_done.take(j as int)),
            decreases i - j,
        {
            let ghost cur = book0.skip(j as int);
            let ghost index_cur = self.index_entries();
            proof {
                assert(cur[0] == book0[j as int]);
                assert(cur.drop_first() =~= book0.skip(j + 1));
            }
            let front = if is_bid {
                self.asks.entry_at(0)
            } else {
                self.bids.entry_at(0)
            };
            let fr_req = CancelationRequest { owner: front.order.owner, id: front.order.cancelation_id };
            let ghost ce = CancelEntry { request: fr_req, is_bid: !is_bid, key: front.key };
            proof {
                assert(front == cur[0]);
                assert(lookup(index_cur, fr_req) == Some(ce));
                lemma_match_after_removal(index_cur, self.bid_entries(), self.ask_entries(), fr_req, ce);
                lemma_books_side_facts_after_removed(*self, !is_bid, front.key);
                lemma_removed_props(cur, front.key);
                assert(removed(cur, front.key) == cur.drop_first());
                lemma_index_after_fills_push(index0, fills_done.take(j as int), fills_done[j as int]);
                assert(fills_done.take(j + 1) =~= fills_done.take(j as int).push(fills_done[j as int]));
                assert(order_request(fills_done[j as int].maker) == fr_req);
                assert(fills_done[j as int].quantity == fills_done[j as int].maker.amount);
            }
            if is_bid {
                self.asks.remove(front.key);
            } else {
                self.bids.remove(front.key);
            }
            self.cancelation_index.remove(fr_req);
            j = j + 1;
        }

        if has_partial {
            let ghost cur = book0.skip(i as int);
            proof {
                assert(cur[0] == book0[i as int]);
                lemma_match_after_reduce(
                    self.index_entries(),
                    self.bid_entries(),
                    self.ask_entries(),
                    !is_bid,
                    partial_new_amount,
                );
                if !is_bid {
                    assert(settlement_fits(cur[0].order.amount, cur[0].order.price, numer, denom));
                    lemma_settlement_monotone(partial_new_amount, cur[0].order.amount, cur[0].order.price, numer, denom);
                }
            }
            if is_bid {
                self.asks.reduce_best(partial_new_amount);
            } else {
                self.bids.reduce_best(partial_new_amount);
            }
            proof {
                let upd = cur.update(0, reduced_front(cur, partial_new_amount));
                assert(upd[0] == reduced_front(cur, partial_new_amount));
                assert(forall|k: int| 0 < k < upd.len() ==> upd[k] == cur[k]);
                assert(sorted(upd)) by {
                    assert(forall|k: int| 0 <= k < upd.len() ==> upd[k].key == cur[k].key);
                }
                assert(entry_ok(upd[0], !is_bid));
            }
        }

        if rest > 0 {
            let ghost index_pre = self.index_entries();
            let ghost own0 = old(self).own_entries(is_bid);
            let raw = self.next_order_id.to_raw();
            let key = if is_bid {
                Priority::high_low(price, raw)
            } else {
                Priority::low_low(price, raw)
            };
            let new_order = LimitOrder {
                amount: rest,
                price,
                id: self.next_order_id,
                owner,
                is_bid,
                cancelation_id,
            };
            let ghost new_entry = BookEntry { key: key.key, order: new_order };
            proof {
                crate::order::lemma_id_raw(raw);
                assert(new_entry == old(self).resting_entry(is_bid, owner, price, plan.remaining, cancelation_id));
                assert(!contains_key(own0, key.key)) by {
                    if contains_key(own0, key.key) {
                        let k = choose|k: int| 0 <= k < own0.len() && own0[k].key == key.key;
                        assert(entry_ok(own0[k], is_bid));
                        lemma_side_key_injective(is_bid, own0[k].order.price, own0[k].order.id.raw(), price, raw);
                    }
                }
                assert(!has_request(index_pre, req)) by {
                    lemma_index_after_fills_props(index0, fills_done.take(i as int));
                    assert(fills_done.take(i as int) =~= fills_done);
                }
                lemma_match_after_insert(index_pre, self.bid_entries(), self.ask_entries(), new_entry, is_bid);
                lemma_inserted_props(own0, new_entry);
            }
            // The key is fresh — sequence identifiers are never reused — so
            // the book insertion cannot fail.
            let ok = if is_bid {
                self.bids.insert(key.key, new_order)
            } else {
                self.asks.insert(key.key, new_order)
            };
            self.cancelation_index.insert(CancelEntry { request: req, is_bid, key: key.key });
            let advanced = self.next_order_id.next();
            self.next_order_id = advanced;
            proof {
                assert forall|k: int| 0 <= k < self.own_entries(is_bid).len()
                    implies entry_ok(#[trigger] self.own_entries(is_bid)[k], is_bid)
                        && self.own_entries(is_bid)[k].order.id.raw() < self.next_raw()
                        && (!is_bid || settlement_fits(
                            self.own_entries(is_bid)[k].order.amount,
                            self.own_entries(is_bid)[k].order.price,
                            numer,
                            denom,
                        )) by {
                    let x = self.own_entries(is_bid)[k];
                    assert(self.own_entries(is_bid).contains(x));
                    if x == new_entry {
                    } else {
                        assert(own0.contains(x));
                        let k2 = choose|k2: int| 0 <= k2 < own0.len() && own0[k2] == x;
                        assert(entry_ok(own0[k2], is_bid));
                    }
                }
            }
        }
        proof {
            assert(fills_done.take(i as int) =~= fills_done);
            assert(index_after_fills(index0, plan.fills) == index_after_fills(index0, fills_done)) by {
                if has_partial {
                    let pf = Fill {
                        maker: book0[i as int].order,
                        quantity: (book0[i as int].order.amount - partial_new_amount) as TokenAmount,
                    };
                    lemma_index_after_fills_push(index0, fills_done, pf);
                    assert(pf.quantity != pf.maker.amount);
                }
            }
            assert(self.opposite_entries(is_bid) == plan.book);
            assert(self.index_entries() == (if plan.remaining > 0 {
                index_after_fills(index0, plan.fills).push(
                    (CancelEntry {
                        request: req,
                        is_bid,
                        key: old(self).resting_entry(is_bid, owner, price, plan.remaining, cancelation_id).key,
                    }),
                )
            } else {
                index_after_fills(index0, plan.fills)
            }));
        }
        Ok(transfers)
    }

    /// Submits a bid (buy order): matches against the ask book from the
    /// lowest ask upward while asks do not exceed the bid's limit price, and
    /// rests any remainder in the bid book, escrowing its currency value at
    /// the limit price.
    pub fn submit_bid(&mut self, owner: AccountId, price: Price, amount: TokenAmount, cancelation_id: u32) -> (r: Result<Vec<Transfer>, EngineError>)
        requires
            old(self).wf(),
        ensures
            final(self).wf(),
            final(self).same_config(*old(self)),
            r is Err <==> old(self).submit_error(true, owner, price, amount, cancelation_id) is Some,
            r is Err ==> *final(self) == *old(self)
                && r->Err_0 == old(self).submit_error(true, owner, price, amount, cancelation_id)->Some_0,
            r is Ok ==> ({
                let plan = match_plan(old(self).ask_entries(), true, price, amount);
                let fill_part = fills_transfers(plan.fills, owner, old(self).escrow(), true, old(self).numerator(), old(self).denominator());
                &&& final(self).ask_entries() == plan.book
                &&& final(self).index_entries() == (if plan.remaining > 0 {
                    index_after_fills(old(self).index_entries(), plan.fills).push(
                        (CancelEntry {
                            request: CancelationRequest { owner, id: cancelation_id },
                            is_bid: true,
                            key: old(self).resting_entry(true, owner, price, plan.remaining, cancelation_id).key,
                        }),
                    )
                } else {
                    index_after_fills(old(self).index_entries(), plan.fills)
                })
                &&& (plan.remaining == 0 ==> final(self).bid_entries() == old(self).bid_entries()
                        && final(self).next_raw() == old(self).next_raw()
                        && r->Ok_0@ == fill_part)
                &&& (plan.remaining > 0 ==> final(self).bid_entries() == inserted(
                        old(self).bid_entries(),
                        old(self).resting_entry(true, owner, price, plan.remaining, cancelation_id),
                    )
                        && final(self).next_raw() == old(self).next_raw() + 1
                        && r->Ok_0@ == fill_part.push(old(self).escrow_transfer(true, owner, price, plan.remaining)))
            }),
    {
        self.submit_limit_order(true, owner, price, amount, cancelation_id)
    }

    /// Submits an ask (sell order): matches against the bid book from the
    /// highest bid downward while bids are not below the ask's limit price,
    /// and rests any remainder in the ask book, escrowing the asset itself.
    pub fn submit_ask(&mut self, owner: AccountId, price: Price, amount: TokenAmount, cancelation_id: u32) -> (r: Result<Vec<Transfer>, EngineError>)
        requires
            old(self).wf(),
        ensures
            final(self).wf(),
            final(self).same_config(*old(self)),
            r is Err <==> old(self).submit_error(false, owner, price, amount, cancelation_id) is Some,
            r is Err ==> *final(self) == *old(self)
                && r->Err_0 == old(self).submit_error(false, owner, price, amount, cancelation_id)->Some_0,
            r is Ok ==> ({
                let plan = match_plan(old(self).bid_entries(), false, price, amount);
                let fill_part = fills_transfers(plan.fills, owner, old(self).escrow(), false, old(self).numerator(), old(self).denominator());
                &&& final(self).bid_entries() == plan.book
                &&& final(self).index_entries() == (if plan.remaining > 0 {
                    index_after_fills(old(self).index_entries(), plan.fills).push(
                        (CancelEntry {
                            request: CancelationRequest { owner, id: cancelation_id },
                            is_bid: false,
                            key: old(self).resting_entry(false, owner, price, plan.remaining, cancelation_id).key,
                        }),
                    )
                } else {
                    index_after_fills(old(self).index_entries(), plan.fills)
                })
                &&& (plan.remaining == 0 ==> final(self).ask_entries() == old(self).ask_entries()
                        && final(self).next_raw() == old(self).next_raw()
                        && r->Ok_0@ == fill_part)
                &&& (plan.remaining > 0 ==> final(self).ask_entries() == inserted(
                        old(self).ask_entries(),
                        old(self).resting_entry(false, owner, price, plan.remaining, cancelation_id),
                    )
                        && final(self).next_raw() == old(self).next_raw() + 1
                        && r->Ok_0@ == fill_part.push(old(self).escrow_transfer(false, owner, price, plan.remaining)))
            }),
    {
        self.submit_limit_order(false, owner, price, amount, cancelation_id)
    }

    /// Cancels the resting order that `owner` submitted under handle
    /// `cancelation_token`, removing it from its book and from the index, and
    /// commands the refund of what the order still has in escrow: the
    /// settlement value of the remaining quantity at the order's own limit
    /// price for a bid, the remaining quantity itself for an ask.
    ///
    /// Fails with a not-found error, changing nothing, exactly when no
    /// resting order carries the request — in particular on a second
    /// cancellation of the same handle.
    pub fn cancel_limit_order(&mut self, owner: AccountId, cancelation_token: u32) -> (r: Result<Transfer, EngineError>)
        requires
            old(self).wf(),
        ensures
            final(self).wf(),
            final(self).same_config(*old(self)),
            final(self).next_raw() == old(self).next_raw(),
            r is Err <==> lookup(old(self).index_entries(), CancelationRequest { owner, id: cancelation_token }) is None,
            r is Err ==> *final(self) == *old(self) && r->Err_0 == EngineError::NotFound,
            r is Ok ==> {
                let req = CancelationRequest { owner, id: cancelation_token };
                let ie = lookup(old(self).index_entries(), req)->Some_0;
                let entry = find_entry(old(self).opposite_entries(!ie.is_bid), ie.key)->Some_0;
                &&& final(self).index_entries() == removed_request(old(self).index_entries(), req)
                &&& ie.is_bid ==> final(self).bid_entries() == removed(old(self).bid_entries(), ie.key)
                        && final(self).ask_entries() == old(self).ask_entries()
                &&& !ie.is_bid ==> final(self).ask_entries() == removed(old(self).ask_entries(), ie.key)
                        && final(self).bid_entries() == old(self).bid_entries()
                &&& r->Ok_0 == (if ie.is_bid {
                    Transfer {
                        from: old(self).escrow(),
                        to: owner,
                        token: Token::Currency,
                        amount: settlement(entry.order.amount, entry.order.price, old(self).numerator(), old(self).denominator()) as TokenAmount,
                    }
                } else {
                    Transfer { from: old(self).escrow(), to: owner, token: Token::Asset, amount: entry.order.amount }
                })
            },
    {
        let req = CancelationRequest { owner, id: cancelation_token };
        let looked = self.cancelation_index.get(req);
        match looked {
            None => Err(EngineError::NotFound),
            Some(ie) => {
                proof {
                    lemma_lookup_has_request(self.index_entries(), req);
                }
                let removed_entry = if ie.is_bid {
                    self.bids.remove(ie.key)
                } else {
                    self.asks.remove(ie.key)
                };
                let entry = match removed_entry {
                    Some(e) => e,
                    None => {
                        proof {
                            lemma_find_entry_contains(
                                if ie.is_bid {
                                    old(self).bid_entries()
                                } else {
                                    old(self).ask_entries()
                                },
                                ie.key,
                            );
                        }
                        vstd::pervasive::unreached()
                    },
                };
                self.cancelation_index.remove(req);
                proof {
                    let index0 = old(self).index_entries();
                    let bids0 = old(self).bid_entries();
                    let asks0 = old(self).ask_entries();
                    lemma_match_after_removal(index0, bids0, asks0, req, ie);
                    lemma_removed_props(if ie.is_bid { bids0 } else { asks0 }, ie.key);
                    lemma_books_side_facts_after_removed(*old(self), ie.is_bid, ie.key);
                }
                let refund = if ie.is_bid {
                    proof {
                        lemma_find_entry_contains(old(self).bid_entries(), ie.key);
                        let j = choose|j: int| 0 <= j < old(self).bid_entries().len()
                            && old(self).bid_entries()[j] == entry;
                        assert(entry_ok(old(self).bid_entries()[j], true));
                        assert(settlement_fits(entry.order.amount, entry.order.price, old(self).numerator(), old(self).denominator()));
                    }
                    Transfer {
                        from: self.escrow_account,
                        to: owner,
                        token: Token::Currency,
                        amount: total_price(entry.order.amount, entry.order.price, self.price_numerator, self.price_denominator),
                    }
                } else {
                    Transfer { from: self.escrow_account, to: owner, token: Token::Asset, amount: entry.order.amount }
                };
                Ok(refund)
            },
        }
    }
}

/// Removing a resting order and its index entry together preserves the
/// book-index bijection.
proof fn lemma_match_after_removal(index: Seq<CancelEntry>, bids: Seq<BookEntry>, asks: Seq<BookEntry>, req: CancelationRequest, ie: CancelEntry)
    requires
        unique_requests(index),
        sorted(bids),
        sorted(asks),
        index_books_match(index, bids, asks),
        lookup(index, req) == Some(ie),
    ensures
        unique_requests(removed_request(index, req)),
        index_books_match(
            removed_request(index, req),
            if ie.is_bid { removed(bids, ie.key) } else { bids },
            if ie.is_bid { asks } else { removed(asks, ie.key) },
        ),
{
    lemma_unique_after_removal(index, req);
    lemma_lookup_has_request(index, req);
    let index1 = removed_request(index, req);
    let bids1 = if ie.is_bid { removed(bids, ie.key) } else { bids };
    let asks1 = if ie.is_bid { asks } else { removed(asks, ie.key) };
    let removed_book = if ie.is_bid { bids } else { asks };

    // Direction one: every surviving index entry still resolves.
    assert forall|r2: CancelationRequest| #[trigger] lookup(index1, r2) is Some implies {
        let ie2 = lookup(index1, r2)->Some_0;
        let found = find_entry(if ie2.is_bid { bids1 } else { asks1 }, ie2.key);
        &&& found is Some
        &&& found->Some_0.order.owner == r2.owner
        &&& found->Some_0.order.cancelation_id == r2.id
        &&& found->Some_0.order.is_bid == ie2.is_bid
    } by {
        lemma_lookup_after_removal(index, req, r2);
        assert(r2 != req);
        let ie2 = lookup(index1, r2)->Some_0;
        assert(lookup(index, r2) == Some(ie2));
        if ie2.is_bid == ie.is_bid {
            // Same side as the removal: the surviving entry's key differs,
            // because equal keys would resolve to the same book entry and
            // force the two requests to coincide.
            assert(ie2.key != ie.key) by {
                if ie2.key == ie.key {
                    assert(find_entry(removed_book, ie.key)->Some_0.order.owner == req.owner);
                    assert(find_entry(removed_book, ie2.key)->Some_0.order.owner == r2.owner);
                    assert(find_entry(removed_book, ie.key)->Some_0.order.cancelation_id == req.id);
                }
            }
            lemma_find_after_removed(removed_book, ie.key, ie2.key);
        }
    }

    // Direction two: every surviving book entry is still indexed.
    if ie.is_bid {
        lemma_removed_props(bids, ie.key);
        assert forall|j: int| 0 <= j < bids1.len() implies lookup(index1, order_request((#[trigger] bids1[j]).order))
            == Some(CancelEntry { request: order_request(bids1[j].order), is_bid: true, key: bids1[j].key }) by {
            assert(bids1.contains(bids1[j]));
            assert(bids.contains(bids1[j]));
            let k = choose|k: int| 0 <= k < bids.len() && bids[k] == bids1[j];
            let r2 = order_request(bids[k].order);
            assert(lookup(index, r2) == Some(CancelEntry { request: r2, is_bid: true, key: bids[k].key }));
            assert(r2 != req) by {
                if r2 == req {
                    // The removed request resolved to an entry of this very
                    // book under the removed key, so the surviving entry
                    // would carry the removed key — impossible after removal.
                    assert(ie == CancelEntry { request: r2, is_bid: true, key: bids[k].key });
                    lemma_find_after_removed(bids, ie.key, bids1[j].key);
                    lemma_find_entry_contains(bids1, bids1[j].key);
                    assert(contains_key(bids1, bids1[j].key)) by {
                        assert(bids1[j].key == bids1[j].key);
                    }
                }
            }
            lemma_lookup_after_removal(index, req, r2);
        }
        assert forall|j: int| 0 <= j < asks1.len() implies lookup(index1, order_request((#[trigger] asks1[j]).order))
            == Some(CancelEntry { request: order_request(asks1[j].order), is_bid: false, key: asks1[j].key }) by {
            let r2 = order_request(asks1[j].order);
            assert(lookup(index, r2) == Some(CancelEntry { request: r2, is_bid: false, key: asks1[j].key }));
            assert(r2 != req) by {
                if r2 == req {
                    assert(ie.is_bid && !ie.is_bid);
                }
            }
            lemma_lookup_after_removal(index, req, r2);
        }
    } else {
        lemma_removed_props(asks, ie.key);
        assert forall|j: int| 0 <= j < asks1.len() implies lookup(index1, order_request((#[trigger] asks1[j]).order))
            == Some(CancelEntry { request: order_request(asks1[j].order), is_bid: false, key: asks1[j].key }) by {
            assert(asks1.contains(asks1[j]));
            assert(asks.contains(asks1[j]));
            let k = choose|k: int| 0 <= k < asks.len() && asks[k] == asks1[j];
            let r2 = order_request(asks[k].order);
            assert(lookup(index, r2) == Some(CancelEntry { request: r2, is_bid: false, key: asks[k].key }));
            assert(r2 != req) by {
                if r2 == req {
                    assert(ie == CancelEntry { request: r2, is_bid: false, key: asks[k].key });
                    lemma_find_after_removed(asks, ie.key, asks1[j].key);
                    lemma_find_entry_contains(asks1, asks1[j].key);
                    assert(contains_key(asks1, asks1[j].key)) by {
                        assert(asks1[j].key == asks1[j].key);
                    }
                }
            }
            lemma_lookup_after_removal(index, req, r2);
        }
        assert forall|j: int| 0 <= j < bids1.len() implies lookup(index1, order_request((#[trigger] bids1[j]).order))
            == Some(CancelEntry { request: order_request(bids1[j].order), is_bid: true, key: bids1[j].key }) by {
            let r2 = order_request(bids1[j].order);
            assert(lookup(index, r2) == Some(CancelEntry { request: r2, is_bid: true, key: bids1[j].key }));
            assert(r2 != req) by {
                if r2 == req {
                    assert(!ie.is_bid && ie.is_bid);
                }
            }
            lemma_lookup_after_removal(index, req, r2);
        }
    }
}

/// The transfers of concatenated fill sequences are the concatenated
/// transfers.
proof fn lemma_fills_transfers_concat(a: Seq<Fill>, b: Seq<Fill>, taker: AccountId, escrow_account: AccountId, incoming_is_bid: bool, numerator: u64, denominator: u64)
    ensures
        fills_transfers(a + b, taker, escrow_account, incoming_is_bid, numerator, denominator)
            == fills_transfers(a, taker, escrow_account, incoming_is_bid, numerator, denominator)
                + fills_transfers(b, taker, escrow_account, incoming_is_bid, numerator, denominator),
    decreases a.len(),
{
    if a.len() == 0 {
        assert(a + b =~= b);
        assert(fills_transfers(a, taker, escrow_account, incoming_is_bid, numerator, denominator)
            =~= Seq::<Transfer>::empty());
        assert(Seq::<Transfer>::empty()
            + fills_transfers(b, taker, escrow_account, incoming_is_bid, numerator, denominator)
            =~= fills_transfers(b, taker, escrow_account, incoming_is_bid, numerator, denominator));
    } else {
        lemma_fills_transfers_concat(a.drop_first(), b, taker, escrow_account, incoming_is_bid, numerator, denominator);
        assert((a + b)[0] == a[0]);
        assert((a + b).len() > 0);
        assert((a + b).drop_first() =~= a.drop_first() + b);
        let f0 = fill_transfers(a[0], taker, escrow_account, incoming_is_bid, numerator, denominator);
        let ta = fills_transfers(a.drop_first(), taker, escrow_account, incoming_is_bid, numerator, denominator);
        let tb = fills_transfers(b, taker, escrow_account, incoming_is_bid, numerator, denominator);
        assert(f0 + (ta + tb) =~= (f0 + ta) + tb);
    }
}

/// Appending a fill applies its index step after all earlier ones.
proof fn lemma_index_after_fills_push(index: Seq<CancelEntry>, fills: Seq<Fill>, f: Fill)
    ensures
        index_after_fills(index, fills.push(f)) == fill_index_step(index_after_fills(index, fills), f),
    decreases fills.len(),
{
    if fills.len() == 0 {
        assert(fills.push(f)[0] == f);
        assert(fills.push(f).drop_first() =~= Seq::<Fill>::empty());
        assert(index_after_fills(fill_index_step(index, f), Seq::<Fill>::empty()) == fill_index_step(index, f));
    } else {
        lemma_index_after_fills_push(fill_index_step(index, fills[0]), fills.drop_first(), f);
        assert(fills.push(f)[0] == fills[0]);
        assert(fills.push(f).drop_first() =~= fills.drop_first().push(f));
    }
}

/// Fills only ever shrink the index, and keep its requests unique.
proof fn lemma_index_after_fills_props(index: Seq<CancelEntry>, fills: Seq<Fill>)
    requires
        unique_requests(index),
    ensures
        unique_requests(index_after_fills(index, fills)),
        forall|r: CancelationRequest| has_request(#[trigger] index_after_fills(index, fills), r)
            ==> has_request(index, r),
    decreases fills.len(),
{
    if fills.len() == 0 {
    } else {
        let step = fill_index_step(index, fills[0]);
        assert(unique_requests(step) && forall|r: CancelationRequest| has_request(step, r) ==> has_request(index, r)) by {
            if fills[0].quantity == fills[0].maker.amount {
                lemma_unique_after_removal(index, order_request(fills[0].maker));
                assert forall|r: CancelationRequest| has_request(step, r) implies has_request(index, r) by {
                    let j = choose|j: int| 0 <= j < step.len() && step[j].request == r;
                    assert(step.contains(step[j]));
                    assert(index.contains(step[j]));
                    let k = choose|k: int| 0 <= k < index.len() && index[k] == step[j];
                }
            }
        }
        lemma_index_after_fills_props(step, fills.drop_first());
    }
}

/// Reducing the front order of one book in place preserves the book-index
/// bijection: its request, side and key are unchanged.
proof fn lemma_match_after_reduce(index: Seq<CancelEntry>, bids: Seq<BookEntry>, asks: Seq<BookEntry>, reduce_bids: bool, new_amount: TokenAmount)
    requires
        index_books_match(index, bids, asks),
        reduce_bids ==> bids.len() > 0,
        !reduce_bids ==> asks.len() > 0,
    ensures
        index_books_match(
            index,
            if reduce_bids { bids.update(0, reduced_front(bids, new_amount)) } else { bids },
            if reduce_bids { asks } else { asks.update(0, reduced_front(asks, new_amount)) },
        ),
{
    let book = if reduce_bids { bids } else { asks };
    let book1 = book.update(0, reduced_front(book, new_amount));
    let bids1 = if reduce_bids { book1 } else { bids };
    let asks1 = if reduce_bids { asks } else { book1 };
    assert(book1[0] == reduced_front(book, new_amount));
    assert(forall|j: int| 0 < j < book1.len() ==> book1[j] == book[j]);

    assert forall|req: CancelationRequest| #[trigger] lookup(index, req) is Some implies {
        let ie = lookup(index, req)->Some_0;
        let found = find_entry(if ie.is_bid { bids1 } else { asks1 }, ie.key);
        &&& found is Some
        &&& found->Some_0.order.owner == req.owner
        &&& found->Some_0.order.cancelation_id == req.id
        &&& found->Some_0.order.is_bid == ie.is_bid
    } by {
        let ie = lookup(index, req)->Some_0;
        if ie.is_bid == reduce_bids {
            crate::book::lemma_find_after_front_update(book, reduced_front(book, new_amount), ie.key);
        }
    }

    assert forall|j: int| 0 <= j < book1.len() implies lookup(index, order_request((#[trigger] book1[j]).order))
        == Some(CancelEntry { request: order_request(book1[j].order), is_bid: reduce_bids, key: book1[j].key }) by {
        if j == 0 {
            assert(order_request(book1[0].order) == order_request(book[0].order));
            assert(book1[0].key == book[0].key);
        } else {
            assert(book1[j] == book[j]);
        }
    }
}

/// Inserting a fresh resting order into its book and appending its index
/// entry together preserve the book-index bijection.
proof fn lemma_match_after_insert(index: Seq<CancelEntry>, bids: Seq<BookEntry>, asks: Seq<BookEntry>, e: BookEntry, insert_bid: bool)
    requires
        unique_requests(index),
        index_books_match(index, bids, asks),
        sorted(if insert_bid { bids } else { asks }),
        !contains_key(if insert_bid { bids } else { asks }, e.key),
        !has_request(index, order_request(e.order)),
        e.order.is_bid == insert_bid,
    ensures
        unique_requests(index.push(CancelEntry { request: order_request(e.order), is_bid: insert_bid, key: e.key })),
        index_books_match(
            index.push(CancelEntry { request: order_request(e.order), is_bid: insert_bid, key: e.key }),
            if insert_bid { inserted(bids, e) } else { bids },
            if insert_bid { asks } else { inserted(asks, e) },
        ),
{
    let ce = CancelEntry { request: order_request(e.order), is_bid: insert_bid, key: e.key };
    let index1 = index.push(ce);
    let book = if insert_bid { bids } else { asks };
    let book1 = inserted(book, e);
    let bids1 = if insert_bid { book1 } else { bids };
    let asks1 = if insert_bid { asks } else { book1 };
    lemma_inserted_props(book, e);
    lemma_lookup_has_request(index, ce.request);

    assert(unique_requests(index1)) by {
        assert forall|i: int, j: int| 0 <= i < j < index1.len() implies index1[i].request != index1[j].request by {
            if j == index1.len() - 1 {
                assert(index1[i] == index[i]);
                assert(0 <= i < index.len() && index[i].request == index[i].request);
            } else {
                assert(index1[i] == index[i] && index1[j] == index[j]);
            }
        }
    }

    assert forall|req: CancelationRequest| #[trigger] lookup(index1, req) is Some implies {
        let ie = lookup(index1, req)->Some_0;
        let found = find_entry(if ie.is_bid { bids1 } else { asks1 }, ie.key);
        &&& found is Some
        &&& found->Some_0.order.owner == req.owner
        &&& found->Some_0.order.cancelation_id == req.id
        &&& found->Some_0.order.is_bid == ie.is_bid
    } by {
        lemma_lookup_after_push(index, ce, req);
        if req == ce.request {
            lemma_find_after_inserted(book, e, e.key);
        } else {
            let ie = lookup(index1, req)->Some_0;
            assert(lookup(index, req) == Some(ie));
            if ie.is_bid == insert_bid {
                lemma_find_entry_contains(book, ie.key);
                assert(ie.key != e.key);
                lemma_find_after_inserted(book, e, ie.key);
            }
        }
    }

    assert forall|j: int| 0 <= j < book1.len() implies lookup(index1, order_request((#[trigger] book1[j]).order))
        == Some(CancelEntry { request: order_request(book1[j].order), is_bid: insert_bid, key: book1[j].key }) by {
        assert(book1.contains(book1[j]));
        let x = book1[j];
        if x == e {
            lemma_lookup_after_push(index, ce, ce.request);
        } else {
            assert(book.contains(x));
            let k = choose|k: int| 0 <= k < book.len() && book[k] == x;
            let r2 = order_request(book[k].order);
            assert(lookup(index, r2) == Some(CancelEntry { request: r2, is_bid: insert_bid, key: book[k].key }));
            assert(r2 != ce.request) by {
                lemma_lookup_has_request(index, r2);
            }
            lemma_lookup_after_push(index, ce, r2);
        }
    }

    let other = if insert_bid { asks } else { bids };
    assert forall|j: int| 0 <= j < other.len() implies lookup(index1, order_request((#[trigger] other[j]).order))
        == Some(CancelEntry { request: order_request(other[j].order), is_bid: !insert_bid, key: other[j].key }) by {
        let r2 = order_request(other[j].order);
        assert(lookup(index, r2) == Some(CancelEntry { request: r2, is_bid: !insert_bid, key: other[j].key }));
        assert(r2 != ce.request) by {
            lemma_lookup_has_request(index, r2);
        }
        lemma_lookup_after_push(index, ce, r2);
    }
}

/// Removing an entry from one side keeps that side's per-entry facts: side
/// tag, positive bounded amounts, key encoding, identifier freshness, and —
/// on the bid side — representable settlement values.
proof fn lemma_books_side_facts_after_removed(engine: DoubleAuction, is_bid: bool, key: u128)
    requires
        engine.wf(),
    ensures
        forall|i: int| 0 <= i < removed(engine.own_entries(is_bid), key).len()
            ==> entry_ok(#[trigger] removed(engine.own_entries(is_bid), key)[i], is_bid),
        forall|i: int| 0 <= i < removed(engine.own_entries(is_bid), key).len()
            ==> (#[trigger] removed(engine.own_entries(is_bid), key)[i]).order.id.raw() < engine.next_raw(),
        forall|i: int| 0 <= i < removed(engine.own_entries(is_bid), key).len()
            ==> settlement_fits(
                (#[trigger] removed(engine.own_entries(is_bid), key)[i]).order.amount,
                removed(engine.own_entries(is_bid), key)[i].order.price,
                engine.numerator(),
                engine.denominator(),
            ) || !is_bid,
        sorted(removed(engine.own_entries(is_bid), key)),
{
    let s = engine.own_entries(is_bid);
    lemma_removed_props(s, key);
    let r = removed(s, key);
    assert forall|i: int| 0 <= i < r.len() implies entry_ok(#[trigger] r[i], is_bid)
        && r[i].order.id.raw() < engine.next_raw()
        && (settlement_fits(r[i].order.amount, r[i].order.price, engine.numerator(), engine.denominator()) || !is_bid) by {
        assert(r.contains(r[i]));
        assert(s.contains(r[i]));
        let k = choose|k: int| 0 <= k < s.len() && s[k] == r[i];
        assert(entry_ok(s[k], is_bid));
    }
}

} // verus!
