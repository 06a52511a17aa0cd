//! One side of the order book: an ordered associative container from priority
//! key to resting order.
//!
//! Entries are held sorted by strictly increasing key, so the entry at index 0
//! always carries the numerically smallest key — by the priority encoding, the
//! best price for the side, and the earliest order at that price. The
//! well-formedness predicate ties every entry's key to its order's own price
//! and sequence identifier and keeps every resting quantity positive.

use vstd::prelude::*;

verus! {

use crate::order::LimitOrder;
use crate::price::quantity_limit;
use crate::priority::side_key;

/// A resting order together with the priority key it rests under.
#[derive(Copy, Clone, Debug, PartialEq, Eq, Structural)]
pub struct BookEntry {
    pub key: u128,
    pub order: LimitOrder,
}

/// Whether an entry belongs on the side given by `is_bid`: the order carries
/// that side, a positive quantity with 64-bit headroom, and rests under the
/// key its own price and sequence identifier encode to.
pub open spec fn entry_ok(e: BookEntry, is_bid: bool) -> bool {
    &&& e.order.is_bid == is_bid
    &&& 0 < e.order.amount < quantity_limit()
    &&& e.key == side_key(is_bid, e.order.price, e.order.id.raw())
}

/// Strictly increasing keys: sorted, and no key occurs twice.
pub open spec fn sorted(s: Seq<BookEntry>) -> bool {
    forall|i: int, j: int| 0 <= i < j < s.len() ==> s[i].key < s[j].key
}

/// Whether some entry rests under `key`.
pub open spec fn contains_key(s: Seq<BookEntry>, key: u128) -> bool {
    exists|i: int| 0 <= i < s.len() && s[i].key == key
}

/// The first entry resting under `key`, if any.
pub open spec fn find_entry(s: Seq<BookEntry>, key: u128) -> Option<BookEntry>
    decreases s.len(),
{
    if s.len() == 0 {
        None
    } else if s[0].key == key {
        Some(s[0])
    } else {
        find_entry(s.drop_first(), key)
    }
}

/// `s` with an entry placed before the first strictly larger key.
pub open spec fn inserted(s: Seq<BookEntry>, e: BookEntry) -> Seq<BookEntry>
    decreases s.len(),
{
    if s.len() == 0 {
        seq![e]
    } else if e.key < s[0].key {
        seq![e] + s
    } else {
        seq![s[0]] + inserted(s.drop_first(), e)
    }
}

/// `s` with the first entry under `key` dropped; `s` itself if none rests
/// under `key`.
pub open spec fn removed(s: Seq<BookEntry>, key: u128) -> Seq<BookEntry>
    decreases s.len(),
{
    if s.len() == 0 {
        s
    } else if s[0].key == key {
        s.drop_first()
    } else {
        seq![s[0]] + removed(s.drop_first(), key)
    }
}

/// One side of the order book.
#[derive(Debug)]
pub struct OrderBook {
    entries: Vec<BookEntry>,
}

impl View for OrderBook {
    type V = Seq<BookEntry>;

    closed spec fn view(&self) -> Seq<BookEntry> {
        self.entries@
    }
}

impl OrderBook {
    /// An empty book.
    pub fn new() -> (r: OrderBook)
        ensures
            r@ == Seq::<BookEntry>::empty(),
    {
        OrderBook { entries: Vec::new() }
    }

    /// Number of resting orders.
    pub fn len(&self) -> (n: usize)
        ensures
            n == self@.len(),
    {
        self.entries.len()
    }

    /// The entry with the numerically smallest key — the best-priced,
    /// earliest resting order on this side — or nothing if the book is empty.
    pub fn peek_best(&self) -> (r: Option<BookEntry>)
        requires
            sorted(self@),
        ensures
            self@.len() == 0 ==> r is None,
            self@.len() > 0 ==> r == Some(self@[0]),
    {
        if self.entries.len() == 0 {
            None
        } else {
            Some(self.entries[0])
        }
    }

    /// The entry at position `i` of the ascending key order.
    pub fn entry_at(&self, i: usize) -> (r: BookEntry)
        requires
            i < self@.len(),
        ensures
            r == self@[i as int],
    {
        self.entries[i]
    }

    /// The order resting under `key`, if any.
    pub fn get(&self, key: u128) -> (r: Option<LimitOrder>)
        requires
            sorted(self@),
        ensures
            r == match find_entry(self@, key) {
                Some(e) => Some(e.order),
                None => None::<LimitOrder>,
            },
    {
        let ghost s = self@;
        let n = self.entries.len();
        let mut i: usize = 0;
        proof {
            assert(s.skip(0) =~= s);
        }
        while i < n
            invariant
                n == s.len(),
                0 <= i <= n,
                s == self@,
                forall|j: int| 0 <= j < i ==> s[j].key != key,
                find_entry(s, key) == find_entry(s.skip(i as int), key),
            decreases n - i,
        {
            proof {
                assert(s.skip(i as int).drop_first() =~= s.skip(i + 1));
            }
            if self.entries[i].key == key {
                assert(s.skip(i as int)[0] == s[i as int]);
                return Some(self.entries[i].order);
            }
            assert(s.skip(i as int)[0] == s[i as int]);
            i = i + 1;
        }
        proof {
            assert(s.skip(n as int) =~= Seq::<BookEntry>::empty());
        }
        None
    }

    /// Inserts a resting order under `key`. Fails, leaving the book
    /// unchanged, exactly when some order already rests under `key` — which
    /// the engine's unique sequence identifiers rule out.
    pub fn insert(&mut self, key: u128, order: LimitOrder) -> (ok: bool)
        requires
            sorted(old(self)@),
        ensures
            ok <==> !contains_key(old(self)@, key),
            ok ==> final(self)@ == inserted(old(self)@, BookEntry { key, order }),
            !ok ==> final(self)@ == old(self)@,
    {
        let ghost s = self@;
        let ghost e = BookEntry { key, order };
        let n = self.entries.len();
        let mut i: usize = 0;
        while i < n && self.entries[i].key < key
            invariant
                n == s.len(),
                0 <= i <= n,
                s == self@,
                sorted(s),
                forall|j: int| 0 <= j < i ==> s[j].key < key,
            decreases n - i,
        {
            i = i + 1;
        }
        if i < n && self.entries[i].key == key {
            proof {
                assert(contains_key(s, key));
            }
            return false;
        }
        proof {
            assert(forall|j: int| i <= j < s.len() ==> s[j].key > key) by {
                assert forall|j: int| i <= j < s.len() implies s[j].key > key by {
                    if j > i {
                        assert(s[i as int].key < s[j].key);
                    }
                }
            }
            assert(!contains_key(s, key));
            lemma_inserted_at(s, e, i as int);
        }
        self.entries.insert(i, BookEntry { key, order });
        proof {
            assert(self@ =~= s.take(i as int) + seq![e] + s.skip(i as int));
        }
        true
    }

    /// Removes and returns the first entry under `key`; returns nothing and
    /// leaves the book unchanged if no order rests under `key`.
    pub fn remove(&mut self, key: u128) -> (r: Option<BookEntry>)
        requires
            sorted(old(self)@),
        ensures
            r == find_entry(old(self)@, key),
            final(self)@ == removed(old(self)@, key),
            r is Some <==> contains_key(old(self)@, key),
    {
        let ghost s = self@;
        let n = self.entries.len();
        let mut i: usize = 0;
        proof {
            assert(s.skip(0) =~= s);
            assert(s.take(0) + removed(s, key) =~= removed(s, key));
        }
        while i < n
            invariant
                n == s.len(),
                0 <= i <= n,
                s == old(self)@,
                self@ == s,
                forall|j: int| 0 <= j < i ==> s[j].key != key,
                find_entry(s, key) == find_entry(s.skip(i as int), key),
                removed(s, key) == s.take(i as int) + removed(s.skip(i as int), key),
            decreases n - i,
        {
            proof {
                assert(s.skip(i as int).drop_first() =~= s.skip(i + 1));
                assert(s.skip(i as int)[0] == s[i as int]);
            }
            if self.entries[i].key == key {
                let entry = self.entries.remove(i);
                proof {
                    assert(entry == s[i as int]);
                    assert(s.skip(i as int).len() > 0 && s.skip(i as int)[0].key == key);
                    assert(find_entry(s.skip(i as int), key) == Some(s.skip(i as int)[0]));
                    assert(removed(s.skip(i as int), key) == s.skip(i as int).drop_first());
                    assert(self@ =~= s.take(i as int) + removed(s.skip(i as int), key));
                    assert(contains_key(s, key));
                }
                return Some(entry);
            }
            proof {
                assert(s.take(i + 1) =~= s.take(i as int) + seq![s[i as int]]);
                assert(s.take(i as int) + removed(s.skip(i as int), key)
                    =~= s.take(i + 1) + removed(s.skip(i + 1), key));
            }
            i = i + 1;
        }
        proof {
            assert(s.skip(n as int) =~= Seq::<BookEntry>::empty());
            assert(s.take(n as int) =~= s);
            assert(removed(s, key) =~= s);
            assert(find_entry(s, key) is None);
            assert(!contains_key(s, key)) by {
                if contains_key(s, key) {
                    let j = choose|j: int| 0 <= j < s.len() && s[j].key == key;
                    assert(s[j].key != key);
                }
            }
        }
        None
    }

    /// Reduces the quantity of the best resting order in place, for a partial
    /// fill: price and sequence identifier — hence the key — are unchanged.
    pub fn reduce_best(&mut self, new_amount: u128)
        requires
            old(self)@.len() > 0,
        ensures
            final(self)@ == old(self)@.update(
                0,
                BookEntry {
                    key: old(self)@[0].key,
                    order: LimitOrder { amount: new_amount, ..old(self)@[0].order },
                },
            ),
    {
        let mut e = self.entries[0];
        e.order.amount = new_amount;
        self.entries.set(0, e);
    }
}

/// A search succeeds exactly when some entry rests under the key, and then
/// returns an entry of the book carrying that key.
pub proof fn lemma_find_entry_contains(s: Seq<BookEntry>, key: u128)
    ensures
        find_entry(s, key) is Some <==> contains_key(s, key),
        find_entry(s, key) is Some ==> {
            let e = find_entry(s, key)->Some_0;
            e.key == key && s.contains(e)
        },
    decreases s.len(),
{
    if s.len() == 0 {
    } else if s[0].key == key {
        assert(s[0].key == key && 0 <= 0 < s.len());
        assert(s.contains(s[0]));
    } else {
        lemma_find_entry_contains(s.drop_first(), key);
        assert forall|i: int| 0 <= i < s.len() && s[i].key == key implies contains_key(s.drop_first(), key) by {
            assert(s.drop_first()[i - 1] == s[i]);
        }
        if find_entry(s.drop_first(), key) is Some {
            let e = find_entry(s.drop_first(), key)->Some_0;
            let j = choose|j: int| 0 <= j < s.drop_first().len() && s.drop_first()[j] == e;
            assert(s[j + 1] == e);
        }
    }
}

/// Removing the order under one key does not disturb searches for any other,
/// and — keys being unique in a sorted book — makes a second search for the
/// removed key fail.
pub proof fn lemma_find_after_removed(s: Seq<BookEntry>, key: u128, other: u128)
    requires
        sorted(s),
    ensures
        other == key ==> find_entry(removed(s, key), other) is None,
        other != key ==> find_entry(removed(s, key), other) == find_entry(s, other),
    decreases s.len(),
{
    if s.len() == 0 {
    } else if s[0].key == key {
        if other == key {
            lemma_find_entry_contains(s.drop_first(), other);
            if contains_key(s.drop_first(), other) {
                let j = choose|j: int| 0 <= j < s.drop_first().len() && s.drop_first()[j].key == other;
                assert(s[j + 1].key == s[0].key);
            }
        }
    } else {
        let t = s.drop_first();
        assert(sorted(t)) by {
            assert forall|i: int, j: int| 0 <= i < j < t.len() implies t[i].key < t[j].key by {
                assert(t[i] == s[i + 1] && t[j] == s[j + 1]);
            }
        }
        lemma_find_after_removed(t, key, other);
        let r = seq![s[0]] + removed(t, key);
        assert(r[0] == s[0]);
        assert(r.drop_first() =~= removed(t, key));
        if other == s[0].key {
            assert(find_entry(r, other) == Some(s[0]) && find_entry(s, other) == Some(s[0]));
        }
    }
}

/// Inserting under a fresh key does not disturb searches for any other key,
/// and makes the fresh key resolve to the new entry.
pub proof fn lemma_find_after_inserted(s: Seq<BookEntry>, e: BookEntry, other: u128)
    requires
        sorted(s),
        !contains_key(s, e.key),
    ensures
        other == e.key ==> find_entry(inserted(s, e), other) == Some(e),
        other != e.key ==> find_entry(inserted(s, e), other) == find_entry(s, other),
    decreases s.len(),
{
    if s.len() == 0 {
        assert(inserted(s, e) == seq![e]);
        assert(inserted(s, e)[0] == e);
        assert(inserted(s, e).drop_first() =~= Seq::<BookEntry>::empty());
        assert(find_entry(Seq::<BookEntry>::empty(), other) is None);
    } else if e.key < s[0].key {
        let r = seq![e] + s;
        assert(r[0] == e);
        assert(r.drop_first() =~= s);
    } else {
        let t = s.drop_first();
        assert(sorted(t) && !contains_key(t, e.key)) by {
            assert forall|i: int, j: int| 0 <= i < j < t.len() implies t[i].key < t[j].key by {
                assert(t[i] == s[i + 1] && t[j] == s[j + 1]);
            }
            if contains_key(t, e.key) {
                let j = choose|j: int| 0 <= j < t.len() && t[j].key == e.key;
                assert(s[j + 1] == t[j]);
            }
        }
        lemma_find_after_inserted(t, e, other);
        let r = seq![s[0]] + inserted(t, e);
        assert(r[0] == s[0]);
        assert(r.drop_first() =~= inserted(t, e));
        assert(s[0].key != e.key);
        if other == s[0].key {
            assert(find_entry(r, other) == Some(s[0]) && find_entry(s, other) == Some(s[0]));
        }
    }
}

/// Reducing the front entry in place — same key — redirects only searches for
/// that key, to the reduced entry.
pub proof fn lemma_find_after_front_update(s: Seq<BookEntry>, e: BookEntry, other: u128)
    requires
        s.len() > 0,
        e.key == s[0].key,
    ensures
        other == s[0].key ==> find_entry(s.update(0, e), other) == Some(e),
        other != s[0].key ==> find_entry(s.update(0, e), other) == find_entry(s, other),
{
    let u = s.update(0, e);
    assert(u[0] == e);
    if other != s[0].key {
        assert(u.drop_first() =~= s.drop_first());
    }
}

/// Removal keeps a book sorted, shrinks it by exactly the removed entry, and
/// introduces no entry of its own.
pub proof fn lemma_removed_props(s: Seq<BookEntry>, key: u128)
    requires
        sorted(s),
    ensures
        sorted(removed(s, key)),
        removed(s, key).len() == if contains_key(s, key) { s.len() - 1 } else { s.len() as int },
        forall|x: BookEntry| #[trigger] removed(s, key).contains(x) ==> s.contains(x),
    decreases s.len(),
{
    lemma_find_entry_contains(s, key);
    if s.len() == 0 {
    } else if s[0].key == key {
        assert(contains_key(s, key));
        assert forall|x: BookEntry| s.drop_first().contains(x) implies s.contains(x) by {
            let j = choose|j: int| 0 <= j < s.drop_first().len() && s.drop_first()[j] == x;
            assert(s[j + 1] == x);
        }
        assert forall|i: int, j: int| 0 <= i < j < s.drop_first().len()
            implies s.drop_first()[i].key < s.drop_first()[j].key by {
            assert(s.drop_first()[i] == s[i + 1] && s.drop_first()[j] == s[j + 1]);
        }
    } else {
        let t = s.drop_first();
        assert(sorted(t)) by {
            assert forall|i: int, j: int| 0 <= i < j < t.len() implies t[i].key < t[j].key by {
                assert(t[i] == s[i + 1] && t[j] == s[j + 1]);
            }
        }
        lemma_removed_props(t, key);
        lemma_find_entry_contains(t, key);
        assert(contains_key(s, key) <==> contains_key(t, key)) by {
            if contains_key(s, key) {
                let j = choose|j: int| 0 <= j < s.len() && s[j].key == key;
                assert(j != 0);
                assert(t[j - 1] == s[j]);
            }
            if contains_key(t, key) {
                let j = choose|j: int| 0 <= j < t.len() && t[j].key == key;
                assert(s[j + 1] == t[j]);
            }
        }
        let r = seq![s[0]] + removed(t, key);
        assert forall|x: BookEntry| r.contains(x) implies s.contains(x) by {
            let j = choose|j: int| 0 <= j < r.len() && r[j] == x;
            if j == 0 {
                assert(s[0] == x);
                assert(s.contains(s[0]));
            } else {
                assert(removed(t, key).contains(x)) by {
                    assert(removed(t, key)[j - 1] == x);
                }
                assert(t.contains(x));
                let k = choose|k: int| 0 <= k < t.len() && t[k] == x;
                assert(s[k + 1] == x);
            }
        }
        assert forall|i: int, j: int| 0 <= i < j < r.len() implies r[i].key < r[j].key by {
            if i == 0 {
                assert(removed(t, key).contains(r[j])) by {
                    assert(removed(t, key)[j - 1] == r[j]);
                }
                assert(t.contains(r[j]));
                let k = choose|k: int| 0 <= k < t.len() && t[k] == r[j];
                assert(s[0].key < s[k + 1].key);
            } else {
                assert(r[i] == removed(t, key)[i - 1] && r[j] == removed(t, key)[j - 1]);
            }
        }
    }
}

/// Insertion under a fresh key keeps a book sorted and adds exactly the new
/// entry.
pub proof fn lemma_inserted_props(s: Seq<BookEntry>, e: BookEntry)
    requires
        sorted(s),
        !contains_key(s, e.key),
    ensures
        sorted(inserted(s, e)),
        inserted(s, e).len() == s.len() + 1,
        forall|x: BookEntry| #[trigger] inserted(s, e).contains(x) ==> s.contains(x) || x == e,
        inserted(s, e).contains(e),
        forall|x: BookEntry| s.contains(x) ==> #[trigger] inserted(s, e).contains(x),
    decreases s.len(),
{
    if s.len() == 0 {
        assert(inserted(s, e) == seq![e]);
        assert(inserted(s, e)[0] == e);
    } else if e.key < s[0].key {
        let r = seq![e] + s;
        assert(forall|j: int| 0 <= j < s.len() ==> r[j + 1] == s[j]);
        assert(r[0] == e);
        assert forall|x: BookEntry| r.contains(x) implies s.contains(x) || x == e by {
            let j = choose|j: int| 0 <= j < r.len() && r[j] == x;
            if j > 0 {
                assert(s[j - 1] == x);
            }
        }
        assert forall|x: BookEntry| s.contains(x) implies r.contains(x) by {
            let j = choose|j: int| 0 <= j < s.len() && s[j] == x;
            assert(r[j + 1] == x);
        }
        assert(r.contains(e)) by {
            assert(r[0] == e);
        }
    } else {
        let t = s.drop_first();
        assert(sorted(t) && !contains_key(t, e.key)) by {
            assert forall|i: int, j: int| 0 <= i < j < t.len() implies t[i].key < t[j].key by {
                assert(t[i] == s[i + 1] && t[j] == s[j + 1]);
            }
            if contains_key(t, e.key) {
                let j = choose|j: int| 0 <= j < t.len() && t[j].key == e.key;
                assert(s[j + 1] == t[j]);
            }
        }
        lemma_inserted_props(t, e);
        let r = seq![s[0]] + inserted(t, e);
        assert(r[0] == s[0]);
        assert(forall|j: int| 0 <= j < inserted(t, e).len() ==> r[j + 1] == inserted(t, e)[j]);
        assert(s[0].key != e.key);
        assert(e.key > s[0].key);
        assert forall|x: BookEntry| r.contains(x) implies s.contains(x) || x == e by {
            let j = choose|j: int| 0 <= j < r.len() && r[j] == x;
            if j == 0 {
                assert(s.contains(s[0]));
            } else {
                assert(inserted(t, e).contains(x)) by {
                    assert(inserted(t, e)[j - 1] == x);
                }
                if t.contains(x) {
                    let k = choose|k: int| 0 <= k < t.len() && t[k] == x;
                    assert(s[k + 1] == x);
                }
            }
        }
        assert forall|x: BookEntry| s.contains(x) implies r.contains(x) by {
            let j = choose|j: int| 0 <= j < s.len() && s[j] == x;
            if j == 0 {
                assert(r[0] == x);
            } else {
                assert(t[j - 1] == x);
                assert(inserted(t, e).contains(x));
                let k = choose|k: int| 0 <= k < inserted(t, e).len() && inserted(t, e)[k] == x;
                assert(r[k + 1] == x);
            }
        }
        assert(r.contains(e)) by {
            let k = choose|k: int| 0 <= k < inserted(t, e).len() && inserted(t, e)[k] == e;
            assert(r[k + 1] == e);
        }
        assert forall|i: int, j: int| 0 <= i < j < r.len() implies r[i].key < r[j].key by {
            if i == 0 {
                let x = r[j];
                assert(inserted(t, e).contains(x)) by {
                    assert(inserted(t, e)[j - 1] == x);
                }
                if t.contains(x) {
                    let k = choose|k: int| 0 <= k < t.len() && t[k] == x;
                    assert(s[0].key < s[k + 1].key);
                }
            } else {
                assert(r[i] == inserted(t, e)[i - 1] && r[j] == inserted(t, e)[j - 1]);
            }
        }
    }
}

/// Placing an entry whose key is absent inserts it exactly before the first
/// strictly larger key.
proof fn lemma_inserted_at(s: Seq<BookEntry>, e: BookEntry, i: int)
    requires
        sorted(s),
        0 <= i <= s.len(),
        forall|j: int| 0 <= j < i ==> s[j].key < e.key,
        forall|j: int| i <= j < s.len() ==> s[j].key > e.key,
    ensures
        inserted(s, e) == s.take(i) + seq![e] + s.skip(i),
    decreases i,
{
    if i == 0 {
        if s.len() == 0 {
            assert(inserted(s, e) =~= s.take(0) + seq![e] + s.skip(0));
        } else {
            assert(e.key < s[0].key);
            assert(inserted(s, e) =~= s.take(0) + seq![e] + s.skip(0));
        }
    } else {
        let t = s.drop_first();
        assert(forall|j: int| 0 <= j < i - 1 ==> #[trigger] t[j].key == s[j + 1].key);
        assert(forall|j: int| i - 1 <= j < t.len() ==> #[trigger] t[j].key == s[j + 1].key);
        lemma_inserted_at(t, e, i - 1);
        assert(inserted(s, e) == seq![s[0]] + inserted(t, e));
        assert(seq![s[0]] + (t.take(i - 1) + seq![e] + t.skip(i - 1)) =~= s.take(i) + seq![e] + s.skip(i));
    }
}

} // verus!
