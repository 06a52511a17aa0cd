use std::collections::HashMap;

use double_auction::engine::DoubleAuction;
use double_auction::transfer::{Token, Transfer};

const ESCROW: u64 = 999;

/// Applies transfers to signed balances; the net over all accounts must stay
/// zero per token, because every transfer debits one party exactly what it
/// credits the other.
fn apply(balances: &mut HashMap<(u64, Token), i128>, ts: &[Transfer]) {
    for t in ts {
        *balances.entry((t.from, t.token)).or_insert(0) -= t.amount as i128;
        *balances.entry((t.to, t.token)).or_insert(0) += t.amount as i128;
    }
}

fn net(balances: &HashMap<(u64, Token), i128>, token: Token) -> i128 {
    balances.iter().filter(|((_, tk), _)| *tk == token).map(|(_, v)| *v).sum()
}

#[test]
fn transfers_conserve_value_across_a_session() {
    let mut e = DoubleAuction::new(ESCROW, 3, 4, 1).unwrap();
    let mut balances: HashMap<(u64, Token), i128> = HashMap::new();

    apply(&mut balances, &e.submit_bid(1, 100, 50, 1).unwrap());
    apply(&mut balances, &e.submit_ask(2, 90, 30, 2).unwrap());
    apply(&mut balances, &e.submit_ask(3, 95, 40, 3).unwrap());
    apply(&mut balances, &e.submit_bid(4, 95, 15, 4).unwrap());
    let refund = e.cancel_limit_order(1, 1);
    if let Ok(t) = refund {
        apply(&mut balances, &[t]);
    }

    assert_eq!(net(&balances, Token::Currency), 0);
    assert_eq!(net(&balances, Token::Asset), 0);
}

#[test]
fn escrow_never_goes_negative_over_a_session() {
    // Seed the traders with funds, then check that applying every commanded
    // transfer in order never overdraws any account — the escrow in
    // particular only pays out what earlier transfers paid in.
    let mut e = DoubleAuction::new(ESCROW, 1, 1, 1).unwrap();
    let mut balances: HashMap<(u64, Token), i128> = HashMap::new();
    balances.insert((1, Token::Currency), 1_000_000);
    balances.insert((2, Token::Asset), 1_000_000);
    balances.insert((3, Token::Currency), 1_000_000);

    let mut session: Vec<Transfer> = Vec::new();
    session.extend(e.submit_bid(1, 100, 50, 1).unwrap());
    session.extend(e.submit_ask(2, 80, 70, 2).unwrap());
    session.extend(e.submit_bid(3, 85, 10, 3).unwrap());
    session.extend(e.cancel_limit_order(2, 2).map(|t| vec![t]).unwrap());

    for t in &session {
        let from = balances.entry((t.from, t.token)).or_insert(0);
        *from -= t.amount as i128;
        assert!(*from >= 0, "account overdrawn by a commanded transfer");
        *balances.entry((t.to, t.token)).or_insert(0) += t.amount as i128;
    }
}
