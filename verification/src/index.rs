//! The cancellation index: resolves an owner's cancel request — owner plus the
//! handle chosen at submission — to the side and priority key under which the
//! order rests, without a price or side hint from the caller.
//!
//! While an order rests, the index holds exactly one entry for it; handles are
//! unique per owner only, and reusing a handle while a prior order with that
//! handle is still resting is refused at insertion time.

use vstd::prelude::*;

verus! {

use crate::order::CancelationRequest;

/// One resolution: a resting order's cancel request, its side, and the
/// priority key it rests under.
#[derive(Copy, Clone, Debug, PartialEq, Eq, Structural)]
pub struct CancelEntry {
    pub request: CancelationRequest,
    pub is_bid: bool,
    pub key: u128,
}

/// Whether some entry carries `req`.
pub open spec fn has_request(s: Seq<CancelEntry>, req: CancelationRequest) -> bool {
    exists|i: int| 0 <= i < s.len() && s[i].request == req
}

/// The first entry carrying `req`, if any.
pub open spec fn lookup(s: Seq<CancelEntry>, req: CancelationRequest) -> Option<CancelEntry>
    decreases s.len(),
{
    if s.len() == 0 {
        None
    } else if s[0].request == req {
        Some(s[0])
    } else {
        lookup(s.drop_first(), req)
    }
}

/// `s` with the first entry carrying `req` dropped; `s` itself if none does.
pub open spec fn removed_request(s: Seq<CancelEntry>, req: CancelationRequest) -> Seq<CancelEntry>
    decreases s.len(),
{
    if s.len() == 0 {
        s
    } else if s[0].request == req {
        s.drop_first()
    } else {
        seq![s[0]] + removed_request(s.drop_first(), req)
    }
}

/// No two entries carry the same request.
pub open spec fn unique_requests(s: Seq<CancelEntry>) -> bool {
    forall|i: int, j: int| 0 <= i < j < s.len() ==> s[i].request != s[j].request
}

/// The index over all resting orders of both books.
#[derive(Debug)]
pub struct CancelIndex {
    entries: Vec<CancelEntry>,
}

impl View for CancelIndex {
    type V = Seq<CancelEntry>;

    closed spec fn view(&self) -> Seq<CancelEntry> {
        self.entries@
    }
}

impl CancelIndex {
    /// An empty index.
    pub fn new() -> (r: CancelIndex)
        ensures
            r@ == Seq::<CancelEntry>::empty(),
    {
        CancelIndex { entries: Vec::new() }
    }

    /// Number of indexed orders.
    pub fn len(&self) -> (n: usize)
        ensures
            n == self@.len(),
    {
        self.entries.len()
    }

    /// Resolves a cancel request to the side and key of the resting order, if
    /// one carries it.
    pub fn get(&self, req: CancelationRequest) -> (r: Option<CancelEntry>)
        ensures
            r == lookup(self@, req),
            r is Some <==> has_request(self@, req),
    {
        let ghost s = self@;
        let n = self.entries.len();
        let mut i: usize = 0;
        proof {
            assert(s.skip(0) =~= s);
        }
        while i < n
            invariant
                n == s.len(),
                0 <= i <= n,
                s == self@,
                forall|j: int| 0 <= j < i ==> s[j].request != req,
                lookup(s, req) == lookup(s.skip(i as int), req),
            decreases n - i,
        {
            proof {
                assert(s.skip(i as int).drop_first() =~= s.skip(i + 1));
                assert(s.skip(i as int)[0] == s[i as int]);
            }
            if self.entries[i].request.owner == req.owner && self.entries[i].request.id == req.id {
                assert(s[i as int].request == req);
                return Some(self.entries[i]);
            }
            i = i + 1;
        }
        proof {
            assert(s.skip(n as int) =~= Seq::<CancelEntry>::empty());
            assert(!has_request(s, req)) by {
                if has_request(s, req) {
                    let j = choose|j: int| 0 <= j < s.len() && s[j].request == req;
                    assert(s[j].request != req);
                }
            }
        }
        None
    }

    /// Records a newly resting order. The caller has checked that no resting
    /// order already carries the request — reusing a live handle is refused
    /// before any state changes.
    pub fn insert(&mut self, entry: CancelEntry)
        requires
            !has_request(old(self)@, entry.request),
        ensures
            final(self)@ == old(self)@.push(entry),
    {
        self.entries.push(entry);
    }

    /// Drops and returns the entry carrying `req`; returns nothing and leaves
    /// the index unchanged if no resting order carries it.
    pub fn remove(&mut self, req: CancelationRequest) -> (r: Option<CancelEntry>)
        ensures
            r == lookup(old(self)@, req),
            final(self)@ == removed_request(old(self)@, req),
            r is Some <==> has_request(old(self)@, req),
    {
        let ghost s = self@;
        let n = self.entries.len();
        let mut i: usize = 0;
        proof {
            assert(s.skip(0) =~= s);
            assert(s.take(0) + removed_request(s, req) =~= removed_request(s, req));
        }
        while i < n
            invariant
                n == s.len(),
                0 <= i <= n,
                s == old(self)@,
                self@ == s,
                forall|j: int| 0 <= j < i ==> s[j].request != req,
                lookup(s, req) == lookup(s.skip(i as int), req),
                removed_request(s, req) == s.take(i as int) + removed_request(s.skip(i as int), req),
            decreases n - i,
        {
            proof {
                assert(s.skip(i as int).drop_first() =~= s.skip(i + 1));
                assert(s.skip(i as int)[0] == s[i as int]);
            }
            if self.entries[i].request.owner == req.owner && self.entries[i].request.id == req.id {
                let entry = self.entries.remove(i);
                proof {
                    assert(entry == s[i as int]);
                    assert(s.skip(i as int)[0].request == req);
                    assert(lookup(s.skip(i as int), req) == Some(s.skip(i as int)[0]));
                    assert(removed_request(s.skip(i as int), req) == s.skip(i as int).drop_first());
                    assert(self@ =~= s.take(i as int) + removed_request(s.skip(i as int), req));
                    assert(has_request(s, req));
                }
                return Some(entry);
            }
            proof {
                assert(s.take(i + 1) =~= s.take(i as int) + seq![s[i as int]]);
                assert(s.take(i as int) + removed_request(s.skip(i as int), req)
                    =~= s.take(i + 1) + removed_request(s.skip(i + 1), req));
            }
            i = i + 1;
        }
        proof {
            assert(s.skip(n as int) =~= Seq::<CancelEntry>::empty());
            assert(s.take(n as int) =~= s);
            assert(removed_request(s, req) =~= s);
            assert(!has_request(s, req)) by {
                if has_request(s, req) {
                    let j = choose|j: int| 0 <= j < s.len() && s[j].request == req;
                    assert(s[j].request != req);
                }
            }
        }
        None
    }
}

/// A lookup succeeds exactly when some entry carries the request.
pub proof fn lemma_lookup_has_request(s: Seq<CancelEntry>, req: CancelationRequest)
    ensures
        lookup(s, req) is Some <==> has_request(s, req),
        lookup(s, req) is Some ==> {
            let e = lookup(s, req)->Some_0;
            has_request(s, req) && e.request == req && s.contains(e)
        },
    decreases s.len(),
{
    if s.len() == 0 {
    } else if s[0].request == req {
        assert(s[0].request == req && 0 <= 0 < s.len());
    } else {
        lemma_lookup_has_request(s.drop_first(), req);
        assert forall|i: int| 0 <= i < s.len() && s[i].request == req implies has_request(s.drop_first(), req) by {
            assert(s.drop_first()[i - 1] == s[i]);
        }
        if lookup(s.drop_first(), req) is Some {
            let e = lookup(s.drop_first(), req)->Some_0;
            assert(s.drop_first().contains(e));
            let j = choose|j: int| 0 <= j < s.drop_first().len() && s.drop_first()[j] == e;
            assert(s[j + 1] == e);
        }
    }
}

/// Removing one request does not disturb lookups of any other, and — when
/// requests are unique — makes a second lookup of the removed request fail:
/// cancellation is not repeatable.
pub proof fn lemma_lookup_after_removal(s: Seq<CancelEntry>, req: CancelationRequest, other: CancelationRequest)
    requires
        unique_requests(s),
    ensures
        other == req ==> lookup(removed_request(s, req), other) is None,
        other != req ==> lookup(removed_request(s, req), other) == lookup(s, other),
    decreases s.len(),
{
    if s.len() == 0 {
    } else if s[0].request == req {
        if other == req {
            lemma_lookup_has_request(s.drop_first(), other);
            if has_request(s.drop_first(), other) {
                let j = choose|j: int| 0 <= j < s.drop_first().len() && s.drop_first()[j].request == other;
                assert(s[j + 1].request == s[0].request);
            }
        }
    } else {
        let t = s.drop_first();
        assert(unique_requests(t)) by {
            assert forall|i: int, j: int| 0 <= i < j < t.len() implies t[i].request != t[j].request by {
                assert(t[i] == s[i + 1] && t[j] == s[j + 1]);
            }
        }
        lemma_lookup_after_removal(t, req, other);
        let r = seq![s[0]] + removed_request(t, req);
        assert(r[0] == s[0]);
        assert(r.drop_first() =~= removed_request(t, req));
        if other == s[0].request {
            assert(lookup(r, other) == Some(s[0]) && lookup(s, other) == Some(s[0]));
        }
    }
}

/// Requests stay unique when one is removed.
pub proof fn lemma_unique_after_removal(s: Seq<CancelEntry>, req: CancelationRequest)
    requires
        unique_requests(s),
    ensures
        unique_requests(removed_request(s, req)),
        removed_request(s, req).len() == if has_request(s, req) { s.len() - 1 } else { s.len() as int },
        forall|e: CancelEntry| removed_request(s, req).contains(e) ==> s.contains(e),
    decreases s.len(),
{
    lemma_lookup_has_request(s, req);
    if s.len() == 0 {
    } else if s[0].request == req {
        assert(has_request(s, req));
        assert forall|e: CancelEntry| s.drop_first().contains(e) implies s.contains(e) by {
            let j = choose|j: int| 0 <= j < s.drop_first().len() && s.drop_first()[j] == e;
            assert(s[j + 1] == e);
        }
        assert forall|i: int, j: int| 0 <= i < j < s.drop_first().len()
            implies s.drop_first()[i].request != s.drop_first()[j].request by {
            assert(s.drop_first()[i] == s[i + 1] && s.drop_first()[j] == s[j + 1]);
        }
    } else {
        let t = s.drop_first();
        assert(unique_requests(t)) by {
            assert forall|i: int, j: int| 0 <= i < j < t.len() implies t[i].request != t[j].request by {
                assert(t[i] == s[i + 1] && t[j] == s[j + 1]);
            }
        }
        lemma_unique_after_removal(t, req);
        lemma_lookup_has_request(t, req);
        let r = seq![s[0]] + removed_request(t, req);
        assert(has_request(s, req) <==> has_request(t, req)) by {
            if has_request(s, req) {
                let j = choose|j: int| 0 <= j < s.len() && s[j].request == req;
                assert(j != 0);
                assert(t[j - 1] == s[j]);
            }
            if has_request(t, req) {
                let j = choose|j: int| 0 <= j < t.len() && t[j].request == req;
                assert(s[j + 1] == t[j]);
            }
        }
        assert forall|e: CancelEntry| r.contains(e) implies s.contains(e) by {
            let j = choose|j: int| 0 <= j < r.len() && r[j] == e;
            if j == 0 {
                assert(s[0] == e);
            } else {
                assert(removed_request(t, req).contains(e));
                assert(t.contains(e));
                let k = choose|k: int| 0 <= k < t.len() && t[k] == e;
                assert(s[k + 1] == e);
            }
        }
        assert forall|i: int, j: int| 0 <= i < j < r.len() implies r[i].request != r[j].request by {
            if i == 0 {
                assert(removed_request(t, req).contains(r[j])) by {
                    assert(r[j] == removed_request(t, req)[j - 1]);
                }
                assert(t.contains(r[j]));
                let k = choose|k: int| 0 <= k < t.len() && t[k] == r[j];
                assert(s[0].request != s[k + 1].request);
            } else {
                assert(r[i] == removed_request(t, req)[i - 1] && r[j] == removed_request(t, req)[j - 1]);
            }
        }
    }
}

/// Appending a fresh request leaves every earlier lookup unchanged and makes
/// the new request resolve to the appended entry.
pub proof fn lemma_lookup_after_push(s: Seq<CancelEntry>, e: CancelEntry, other: CancelationRequest)
    requires
        !has_request(s, e.request),
    ensures
        other == e.request ==> lookup(s.push(e), other) == Some(e),
        other != e.request ==> lookup(s.push(e), other) == lookup(s, other),
    decreases s.len(),
{
    if s.len() == 0 {
        assert(s.push(e)[0] == e);
        assert(s.push(e).drop_first() =~= Seq::<CancelEntry>::empty());
        assert(lookup(Seq::<CancelEntry>::empty(), other) is None);
    } else {
        assert(s[0].request != e.request);
        let t = s.drop_first();
        assert(!has_request(t, e.request)) by {
            if has_request(t, e.request) {
                let j = choose|j: int| 0 <= j < t.len() && t[j].request == e.request;
                assert(s[j + 1] == t[j]);
            }
        }
        lemma_lookup_after_push(t, e, other);
        assert(s.push(e)[0] == s[0]);
        assert(s.push(e).drop_first() =~= t.push(e));
    }
}

} // verus!
