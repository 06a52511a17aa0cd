use double_auction::book::OrderBook;
use double_auction::index::{CancelEntry, CancelIndex};
use double_auction::order::{CancelationRequest, LimitOrder, LimitOrderId};
use double_auction::priority::Priority;

fn ask(price: u64, raw_id: u64, amount: u128) -> (u128, LimitOrder) {
    let key = Priority::low_low(price, raw_id).key;
    let order = LimitOrder {
        amount,
        price,
        id: LimitOrderId::from_raw(raw_id),
        owner: 1,
        is_bid: false,
        cancelation_id: raw_id as u32,
    };
    (key, order)
}

#[test]
fn book_keeps_entries_in_key_order() {
    let mut b = OrderBook::new();
    assert_eq!(b.len(), 0);
    assert!(b.peek_best().is_none());

    let (k60, o60) = ask(60, 0, 5);
    let (k50, o50) = ask(50, 1, 7);
    assert!(b.insert(k60, o60));
    assert!(b.insert(k50, o50));
    assert_eq!(b.len(), 2);

    // The cheaper ask carries the smaller key and surfaces first.
    let best = b.peek_best().unwrap();
    assert_eq!(best.key, k50);
    assert_eq!(best.order.price, 50);
    assert_eq!(b.entry_at(1).order.price, 60);
}

#[test]
fn book_insert_refuses_duplicate_keys() {
    let mut b = OrderBook::new();
    let (k, o) = ask(50, 1, 7);
    assert!(b.insert(k, o));
    assert!(!b.insert(k, o));
    assert_eq!(b.len(), 1);
}

#[test]
fn book_remove_and_get_by_key() {
    let mut b = OrderBook::new();
    let (k60, o60) = ask(60, 0, 5);
    let (k50, o50) = ask(50, 1, 7);
    b.insert(k60, o60);
    b.insert(k50, o50);

    assert_eq!(b.get(k60).unwrap().amount, 5);
    assert!(b.get(12345).is_none());

    let removed = b.remove(k50).unwrap();
    assert_eq!(removed.order.amount, 7);
    assert_eq!(b.len(), 1);
    assert!(b.remove(k50).is_none());
    assert_eq!(b.peek_best().unwrap().key, k60);
}

#[test]
fn index_resolves_and_removes_requests() {
    let mut ix = CancelIndex::new();
    assert_eq!(ix.len(), 0);
    let req = CancelationRequest { owner: 3, id: 8 };
    ix.insert(CancelEntry { request: req, is_bid: true, key: 42 });

    let hit = ix.get(req).unwrap();
    assert!(hit.is_bid);
    assert_eq!(hit.key, 42);
    assert!(ix.get(CancelationRequest { owner: 3, id: 9 }).is_none());
    assert!(ix.get(CancelationRequest { owner: 4, id: 8 }).is_none());

    let removed = ix.remove(req).unwrap();
    assert_eq!(removed.key, 42);
    assert_eq!(ix.len(), 0);
    assert!(ix.remove(req).is_none());
}
