use double_auction::engine::DoubleAuction;
use double_auction::transfer::{Token, Transfer};

const ESCROW: u64 = 999;

fn engine() -> DoubleAuction {
    DoubleAuction::new(ESCROW, 1, 1, 1).unwrap()
}

#[test]
fn bid_rests_then_asks_consume_it() {
    let mut e = engine();

    // Book empty; a bid rests whole and escrows its currency value.
    let ts = e.submit_bid(1, 100, 50, 1).unwrap();
    assert_eq!(ts, vec![Transfer { from: 1, to: ESCROW, token: Token::Currency, amount: 5000 }]);
    assert_eq!(e.bid_count(), 1);
    let best = e.best_bid().unwrap();
    assert_eq!(best.order.price, 100);
    assert_eq!(best.order.amount, 50);

    // An ask at 90 matches 30 units at the maker's price 100, not at 90.
    let ts = e.submit_ask(2, 90, 30, 2).unwrap();
    assert_eq!(
        ts,
        vec![
            Transfer { from: ESCROW, to: 2, token: Token::Currency, amount: 3000 },
            Transfer { from: 2, to: 1, token: Token::Asset, amount: 30 },
        ]
    );
    assert_eq!(e.ask_count(), 0);
    assert_eq!(e.best_bid().unwrap().order.amount, 20);

    // An ask at exactly 100 consumes the remaining 20; the bid book empties.
    let ts = e.submit_ask(3, 100, 20, 3).unwrap();
    assert_eq!(
        ts,
        vec![
            Transfer { from: ESCROW, to: 3, token: Token::Currency, amount: 2000 },
            Transfer { from: 3, to: 1, token: Token::Asset, amount: 20 },
        ]
    );
    assert_eq!(e.bid_count(), 0);
    assert_eq!(e.ask_count(), 0);
}

#[test]
fn non_crossing_orders_rest_independently() {
    let mut e = engine();

    let ts = e.submit_ask(1, 50, 100, 1).unwrap();
    assert_eq!(ts, vec![Transfer { from: 1, to: ESCROW, token: Token::Asset, amount: 100 }]);

    // A bid at 40 cannot meet an ask at 50: both rest.
    let ts = e.submit_bid(2, 40, 10, 2).unwrap();
    assert_eq!(ts, vec![Transfer { from: 2, to: ESCROW, token: Token::Currency, amount: 400 }]);

    assert_eq!(e.ask_count(), 1);
    assert_eq!(e.bid_count(), 1);
    assert_eq!(e.best_ask().unwrap().order.price, 50);
    assert_eq!(e.best_ask().unwrap().order.amount, 100);
    assert_eq!(e.best_bid().unwrap().order.price, 40);
    assert_eq!(e.best_bid().unwrap().order.amount, 10);
}

#[test]
fn cancel_refunds_full_escrow_and_is_not_repeatable() {
    let mut e = engine();

    e.submit_bid(7, 10, 1000000, 1).unwrap();
    assert_eq!(e.bid_count(), 1);

    let refund = e.cancel_limit_order(7, 1).unwrap();
    assert_eq!(refund, Transfer { from: ESCROW, to: 7, token: Token::Currency, amount: 10000000 });
    assert_eq!(e.bid_count(), 0);

    // A second cancellation of the same handle finds nothing.
    assert!(e.cancel_limit_order(7, 1).is_err());
}

#[test]
fn cancel_refunds_reduced_quantity_after_partial_fill() {
    let mut e = engine();

    e.submit_bid(1, 100, 50, 1).unwrap();
    e.submit_ask(2, 90, 30, 2).unwrap();
    assert_eq!(e.best_bid().unwrap().order.amount, 20);

    // The refund is computed from the current quantity at the original price.
    let refund = e.cancel_limit_order(1, 1).unwrap();
    assert_eq!(refund, Transfer { from: ESCROW, to: 1, token: Token::Currency, amount: 2000 });
    assert_eq!(e.bid_count(), 0);
}

#[test]
fn cancel_refunds_asset_for_ask() {
    let mut e = engine();

    e.submit_ask(4, 75, 600, 9).unwrap();
    let refund = e.cancel_limit_order(4, 9).unwrap();
    assert_eq!(refund, Transfer { from: ESCROW, to: 4, token: Token::Asset, amount: 600 });
    assert_eq!(e.ask_count(), 0);
}

#[test]
fn equal_prices_fill_in_submission_order() {
    let mut e = engine();

    e.submit_ask(1, 50, 10, 1).unwrap();
    e.submit_ask(2, 50, 10, 2).unwrap();

    // The earlier ask at the same price is consumed first, then the later
    // one is partially filled.
    let ts = e.submit_bid(3, 50, 15, 3).unwrap();
    assert_eq!(
        ts,
        vec![
            Transfer { from: 3, to: 1, token: Token::Currency, amount: 500 },
            Transfer { from: ESCROW, to: 3, token: Token::Asset, amount: 10 },
            Transfer { from: 3, to: 2, token: Token::Currency, amount: 250 },
            Transfer { from: ESCROW, to: 3, token: Token::Asset, amount: 5 },
        ]
    );
    let rest = e.best_ask().unwrap();
    assert_eq!(rest.order.owner, 2);
    assert_eq!(rest.order.amount, 5);
    assert_eq!(e.bid_count(), 0);
}

#[test]
fn matching_takes_best_price_first() {
    let mut e = engine();

    e.submit_ask(1, 60, 10, 1).unwrap();
    e.submit_ask(2, 50, 10, 2).unwrap();

    // The cheaper ask fills first although it was submitted later.
    let ts = e.submit_bid(3, 70, 10, 3).unwrap();
    assert_eq!(ts[0], Transfer { from: 3, to: 2, token: Token::Currency, amount: 500 });
    assert_eq!(e.best_ask().unwrap().order.price, 60);
}

#[test]
fn bid_escrow_uses_limit_price_fills_use_maker_price() {
    let mut e = engine();

    e.submit_ask(1, 50, 10, 1).unwrap();

    // A bid limited to 80 fills 10 at the maker's 50, and escrows the
    // remaining 5 at its own limit price 80.
    let ts = e.submit_bid(2, 80, 15, 2).unwrap();
    assert_eq!(
        ts,
        vec![
            Transfer { from: 2, to: 1, token: Token::Currency, amount: 500 },
            Transfer { from: ESCROW, to: 2, token: Token::Asset, amount: 10 },
            Transfer { from: 2, to: ESCROW, token: Token::Currency, amount: 400 },
        ]
    );
    assert_eq!(e.best_bid().unwrap().order.amount, 5);
}

#[test]
fn scaled_prices_settle_with_floor_division() {
    // numerator 3, denominator 4: one unit at raw price 7 is worth 7*3/4.
    let mut e = DoubleAuction::new(ESCROW, 3, 4, 1).unwrap();
    let ts = e.submit_bid(1, 7, 10, 1).unwrap();
    // floor(10 * 7 / 4) * 3 = 51
    assert_eq!(ts, vec![Transfer { from: 1, to: ESCROW, token: Token::Currency, amount: 51 }]);
}

#[test]
fn zero_quantity_with_zero_minimum_is_a_no_op() {
    let mut e = DoubleAuction::new(ESCROW, 1, 1, 0).unwrap();
    let ts = e.submit_bid(1, 10, 0, 1).unwrap();
    assert!(ts.is_empty());
    assert_eq!(e.bid_count(), 0);
}
