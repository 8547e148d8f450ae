use vstd::prelude::*;

use crate::order::opposite_of;
use crate::order::OrderSide;

verus! {

/// A non-owning handle to a resting order: its id, its limit price and what is left of it.
#[derive(Clone, Copy, Debug, PartialEq, Eq, Structural)]
pub struct BookEntry {
    pub id: u64,
    pub price: u64,
    pub remaining: u64,
}

/// Whether a resting price `a` is served no later than a resting price `b` on `side`:
/// the lowest ask and the highest bid come first.
pub open spec fn ranks_before(side: OrderSide, a: u64, b: u64) -> bool {
    match side {
        OrderSide::Ask => a <= b,
        OrderSide::Bid => a >= b,
    }
}

/// A side is kept in the order in which it is served: best price first.
pub open spec fn sorted_side(side: OrderSide, s: Seq<BookEntry>) -> bool {
    forall|i: int, j: int| 0 <= i < j < s.len() ==> ranks_before(side, #[trigger] s[i].price, #[trigger] s[j].price)
}

/// The sum of the remaining quantities of a sequence of entries.
pub open spec fn total(s: Seq<BookEntry>) -> nat
    decreases s.len(),
{
    if s.len() == 0 {
        0
    } else {
        (s[0].remaining + total(s.drop_first())) as nat
    }
}

/// The side `s` once `e` has joined it: behind every entry of equal or better price,
/// ahead of every worse one.
pub open spec fn queue_entry(side: OrderSide, s: Seq<BookEntry>, e: BookEntry) -> Seq<BookEntry>
    decreases s.len(),
{
    if s.len() == 0 {
        seq![e]
    } else if ranks_before(side, s[0].price, e.price) {
        seq![s[0]] + queue_entry(side, s.drop_first(), e)
    } else {
        seq![e] + s
    }
}

/// The number of price levels in a side kept best first: one for each run of equal prices.
pub open spec fn level_count_of(s: Seq<BookEntry>) -> nat
    decreases s.len(),
{
    if s.len() == 0 {
        0
    } else if s.len() == 1 {
        1
    } else {
        level_count_of(s.drop_last()) + if s.last().price != s[s.len() - 2].price {
            1nat
        } else {
            0nat
        }
    }
}

/// What a well-formed side holds: sorted, no empty entry, and a total that is the cached depth.
pub open spec fn side_ok(side: OrderSide, s: Seq<BookEntry>, depth: nat) -> bool {
    &&& sorted_side(side, s)
    &&& forall|i: int| 0 <= i < s.len() ==> (#[trigger] s[i]).remaining > 0
    &&& depth == total(s)
}

pub proof fn lemma_total_concat(a: Seq<BookEntry>, b: Seq<BookEntry>)
    ensures
        total(a + b) == total(a) + total(b),
    decreases a.len(),
{
    if a.len() == 0 {
        assert(a + b =~= b);
    } else {
        assert((a + b).drop_first() =~= a.drop_first() + b);
        lemma_total_concat(a.drop_first(), b);
    }
}

pub proof fn lemma_total_single(e: BookEntry)
    ensures
        total(seq![e]) == e.remaining,
{
    assert(seq![e].drop_first() =~= Seq::<BookEntry>::empty());
    assert(total(Seq::<BookEntry>::empty()) == 0);
}

pub proof fn lemma_total_remove(s: Seq<BookEntry>, i: int)
    requires
        0 <= i < s.len(),
    ensures
        total(s.remove(i)) + s[i].remaining == total(s),
{
    let a = s.subrange(0, i);
    let b = s.subrange(i + 1, s.len() as int);
    assert(s =~= a + (seq![s[i]] + b));
    assert(s.remove(i) =~= a + b);
    lemma_total_concat(a, seq![s[i]] + b);
    lemma_total_concat(seq![s[i]], b);
    lemma_total_concat(a, b);
    lemma_total_single(s[i]);
}

pub proof fn lemma_total_update(s: Seq<BookEntry>, i: int, e: BookEntry)
    requires
        0 <= i < s.len(),
    ensures
        total(s.update(i, e)) + s[i].remaining == total(s) + e.remaining,
{
    lemma_total_remove(s, i);
    lemma_total_remove(s.update(i, e), i);
    assert(s.update(i, e).remove(i) =~= s.remove(i));
}

pub proof fn lemma_queue_entry(side: OrderSide, s: Seq<BookEntry>, e: BookEntry, p: int)
    requires
        sorted_side(side, s),
        0 <= p <= s.len(),
        forall|i: int| 0 <= i < p ==> ranks_before(side, #[trigger] s[i].price, e.price),
        forall|i: int| p <= i < s.len() ==> !ranks_before(side, #[trigger] s[i].price, e.price),
    ensures
        queue_entry(side, s, e) == s.insert(p, e),
        total(queue_entry(side, s, e)) == total(s) + e.remaining,
    decreases s.len(),
{
    if s.len() == 0 {
        assert(s.insert(p, e) =~= seq![e]);
        lemma_total_single(e);
    } else if p == 0 {
        assert(!ranks_before(side, s[0].price, e.price));
        assert(s.insert(0, e) =~= seq![e] + s);
        lemma_total_concat(seq![e], s);
        lemma_total_single(e);
    } else {
        let t = s.drop_first();
        assert forall|i: int| 0 <= i < p - 1 implies ranks_before(side, #[trigger] t[i].price, e.price) by {
            assert(t[i] == s[i + 1]);
        }
        assert forall|i: int| p - 1 <= i < t.len() implies !ranks_before(side, #[trigger] t[i].price, e.price) by {
            assert(t[i] == s[i + 1]);
        }
        assert forall|i: int, j: int| 0 <= i < j < t.len() implies ranks_before(side, #[trigger] t[i].price, #[trigger] t[j].price) by {
            assert(t[i] == s[i + 1] && t[j] == s[j + 1]);
        }
        lemma_queue_entry(side, t, e, p - 1);
        assert(seq![s[0]] + t.insert(p - 1, e) =~= s.insert(p, e));
        lemma_total_concat(seq![s[0]], queue_entry(side, t, e));
        lemma_total_single(s[0]);
        assert(s =~= seq![s[0]] + t);
        lemma_total_concat(seq![s[0]], t);
    }
}

pub proof fn lemma_sorted_insert(side: OrderSide, s: Seq<BookEntry>, e: BookEntry, p: int)
    requires
        sorted_side(side, s),
        0 <= p <= s.len(),
        forall|i: int| 0 <= i < p ==> ranks_before(side, #[trigger] s[i].price, e.price),
        forall|i: int| p <= i < s.len() ==> !ranks_before(side, #[trigger] s[i].price, e.price),
    ensures
        sorted_side(side, s.insert(p, e)),
{
    let t = s.insert(p, e);
    assert forall|i: int, j: int| 0 <= i < j < t.len() implies ranks_before(side, #[trigger] t[i].price, #[trigger] t[j].price) by {
        if j < p {
            assert(t[i] == s[i] && t[j] == s[j]);
        } else if j == p {
            assert(t[i] == s[i]);
        } else if i == p {
            assert(t[j] == s[j - 1]);
        } else if i < p {
            assert(t[i] == s[i] && t[j] == s[j - 1]);
        } else {
            assert(t[i] == s[i - 1] && t[j] == s[j - 1]);
        }
    }
}

pub proof fn lemma_sorted_remove(side: OrderSide, s: Seq<BookEntry>, k: int)
    requires
        sorted_side(side, s),
        0 <= k < s.len(),
    ensures
        sorted_side(side, s.remove(k)),
{
    let t = s.remove(k);
    assert forall|i: int, j: int| 0 <= i < j < t.len() implies ranks_before(side, #[trigger] t[i].price, #[trigger] t[j].price) by {
        if j < k {
            assert(t[i] == s[i] && t[j] == s[j]);
        } else if i < k {
            assert(t[i] == s[i] && t[j] == s[j + 1]);
        } else {
            assert(t[i] == s[i + 1] && t[j] == s[j + 1]);
        }
    }
}

/// The first position at which an entry of price `price` joins a sorted side.
fn queue_position(v: &Vec<BookEntry>, side: OrderSide, price: u64) -> (p: usize)
    requires
        sorted_side(side, v@),
    ensures
        p <= v@.len(),
        forall|i: int| 0 <= i < p ==> ranks_before(side, #[trigger] v@[i].price, price),
        forall|i: int| p <= i < v@.len() ==> !ranks_before(side, #[trigger] v@[i].price, price),
{
    let mut p: usize = 0;
    while p < v.len()
        invariant
            p <= v@.len(),
            sorted_side(side, v@),
            forall|i: int| 0 <= i < p ==> ranks_before(side, #[trigger] v@[i].price, price),
        decreases v@.len() - p,
    {
        let before = match side {
            OrderSide::Ask => v[p].price <= price,
            OrderSide::Bid => v[p].price >= price,
        };
        if !before {
            assert forall|i: int| p <= i < v@.len() implies !ranks_before(side, #[trigger] v@[i].price, price) by {
                if i > p {
                    assert(ranks_before(side, v@[p as int].price, v@[i].price));
                }
            }
            return p;
        }
        p = p + 1;
    }
    p
}

/// The first position of the entry with id `id` in `v`, if any.
fn id_position(v: &Vec<BookEntry>, id: u64) -> (r: Option<usize>)
    ensures
        match r {
            Some(i) => i < v@.len() && v@[i as int].id == id && forall|j: int| 0 <= j < i ==> (#[trigger] v@[j]).id != id,
            None => forall|j: int| 0 <= j < v@.len() ==> (#[trigger] v@[j]).id != id,
        },
{
    let mut i: usize = 0;
    while i < v.len()
        invariant
            i <= v@.len(),
            forall|j: int| 0 <= j < i ==> (#[trigger] v@[j]).id != id,
        decreases v@.len() - i,
    {
        if v[i].id == id {
            return Some(i);
        }
        i = i + 1;
    }
    None
}

/// The resting orders of both sides, each side in the order in which it is served,
/// with the total remaining quantity of each side.
pub struct Orderbook {
    asks: Vec<BookEntry>,
    bids: Vec<BookEntry>,
    ask_length: u64,
    bid_length: u64,
}

impl Default for Orderbook {
    fn default() -> (r: Orderbook)
        ensures
            r.wf(),
            r.side_view(OrderSide::Ask) == Seq::<BookEntry>::empty(),
            r.side_view(OrderSide::Bid) == Seq::<BookEntry>::empty(),
    {
        Orderbook::new()
    }
}

impl Orderbook {
    /// The entries of one side, best first; equal prices in arrival order.
    pub closed spec fn side_view(&self, side: OrderSide) -> Seq<BookEntry> {
        match side {
            OrderSide::Ask => self.asks@,
            OrderSide::Bid => self.bids@,
        }
    }

    /// The cached total remaining quantity of one side.
    pub closed spec fn depth_view(&self, side: OrderSide) -> nat {
        match side {
            OrderSide::Ask => self.ask_length as nat,
            OrderSide::Bid => self.bid_length as nat,
        }
    }

    pub open spec fn wf(&self) -> bool {
        &&& side_ok(OrderSide::Ask, self.side_view(OrderSide::Ask), self.depth_view(OrderSide::Ask))
        &&& side_ok(OrderSide::Bid, self.side_view(OrderSide::Bid), self.depth_view(OrderSide::Bid))
    }

    pub fn new() -> (r: Orderbook)
        ensures
            r.wf(),
            r.side_view(OrderSide::Ask) == Seq::<BookEntry>::empty(),
            r.side_view(OrderSide::Bid) == Seq::<BookEntry>::empty(),
    {
        let r = Orderbook { asks: Vec::new(), bids: Vec::new(), ask_length: 0, bid_length: 0 };
        assert(r.asks@ =~= Seq::<BookEntry>::empty());
        assert(r.bids@ =~= Seq::<BookEntry>::empty());
        r
    }

    pub fn depth(&self, side: OrderSide) -> (r: u64)
        ensures
            r == self.depth_view(side),
    {
        match side {
            OrderSide::Ask => self.ask_length,
            OrderSide::Bid => self.bid_length,
        }
    }

    /// The entry served first on `side`.
    pub fn best(&self, side: OrderSide) -> (r: Option<BookEntry>)
        ensures
            r == (if self.side_view(side).len() == 0 {
                None
            } else {
                Some(self.side_view(side)[0])
            }),
    {
        let v = match side {
            OrderSide::Ask => &self.asks,
            OrderSide::Bid => &self.bids,
        };
        if v.len() == 0 {
            None
        } else {
            Some(v[0])
        }
    }

    /// The number of price levels on `side`.
    pub fn level_count(&self, side: OrderSide) -> (r: usize)
        ensures
            r == level_count_of(self.side_view(side)),
    {
        let v = match side {
            OrderSide::Ask => &self.asks,
            OrderSide::Bid => &self.bids,
        };
        let mut count: usize = 0;
        let mut i: usize = 0;
        while i < v.len()
            invariant
                i <= v@.len(),
                count <= i,
                count == level_count_of(v@.subrange(0, i as int)),
                v@ == self.side_view(side),
            decreases v@.len() - i,
        {
            proof {
                assert(v@.subrange(0, i + 1).drop_last() =~= v@.subrange(0, i as int));
            }
            if i == 0 || v[i].price != v[i - 1].price {
                count = count + 1;
            }
            i = i + 1;
        }
        proof {
            assert(v@.subrange(0, v@.len() as int) =~= v@);
        }
        count
    }

    /// The first position of the entry with id `id` on `side`, if any.
    pub fn position(&self, side: OrderSide, id: u64) -> (r: Option<usize>)
        ensures
            match r {
                Some(i) => i < self.side_view(side).len() && self.side_view(side)[i as int].id == id
                    && forall|j: int| 0 <= j < i ==> (#[trigger] self.side_view(side)[j]).id != id,
                None => forall|j: int| 0 <= j < self.side_view(side).len() ==> (#[trigger] self.side_view(side)[j]).id != id,
            },
    {
        match side {
            OrderSide::Ask => id_position(&self.asks, id),
            OrderSide::Bid => id_position(&self.bids, id),
        }
    }
    /// Queues `e` on `side` behind every entry of equal or better price.
    pub fn insert(&mut self, side: OrderSide, e: BookEntry) -> (p: usize)
        requires
            old(self).wf(),
            e.remaining > 0,
            old(self).depth_view(side) + e.remaining <= u64::MAX,
        ensures
            final(self).wf(),
            final(self).side_view(side) == queue_entry(side, old(self).side_view(side), e),
            p <= old(self).side_view(side).len(),
            final(self).side_view(side) == old(self).side_view(side).insert(p as int, e),
            final(self).side_view(opposite_of(side)) == old(self).side_view(opposite_of(side)),
    {
        match side {
            OrderSide::Ask => {
                let p = queue_position(&self.asks, side, e.price);
                proof {
                    lemma_queue_entry(side, self.asks@, e, p as int);
                    lemma_sorted_insert(side, self.asks@, e, p as int);
                }
                self.asks.insert(p, e);
                self.ask_length = self.ask_length + e.remaining;
                p
            },
            OrderSide::Bid => {
                let p = queue_position(&self.bids, side, e.price);
                proof {
                    lemma_queue_entry(side, self.bids@, e, p as int);
                    lemma_sorted_insert(side, self.bids@, e, p as int);
                }
                self.bids.insert(p, e);
                self.bid_length = self.bid_length + e.remaining;
                p
            },
        }
    }

    /// Takes the entry at position `k` off `side`.
    pub fn remove_at(&mut self, side: OrderSide, k: usize) -> (r: BookEntry)
        requires
            old(self).wf(),
            k < old(self).side_view(side).len(),
        ensures
            final(self).wf(),
            r == old(self).side_view(side)[k as int],
            final(self).side_view(side) == old(self).side_view(side).remove(k as int),
            final(self).side_view(opposite_of(side)) == old(self).side_view(opposite_of(side)),
    {
        match side {
            OrderSide::Ask => {
                proof {
                    lemma_total_remove(self.asks@, k as int);
                    lemma_sorted_remove(side, self.asks@, k as int);
                }
                let r = self.asks.remove(k);
                self.ask_length = self.ask_length - r.remaining;
                r
            },
            OrderSide::Bid => {
                proof {
                    lemma_total_remove(self.bids@, k as int);
                    lemma_sorted_remove(side, self.bids@, k as int);
                }
                let r = self.bids.remove(k);
                self.bid_length = self.bid_length - r.remaining;
                r
            },
        }
    }

    /// Takes the entry served first off `side`.
    pub fn pop_best(&mut self, side: OrderSide) -> (r: BookEntry)
        requires
            old(self).wf(),
            old(self).side_view(side).len() > 0,
        ensures
            final(self).wf(),
            r == old(self).side_view(side)[0],
            final(self).side_view(side) == old(self).side_view(side).drop_first(),
            final(self).side_view(opposite_of(side)) == old(self).side_view(opposite_of(side)),
    {
        proof {
            assert(old(self).side_view(side).drop_first() =~= old(self).side_view(side).remove(0));
        }
        self.remove_at(side, 0)
    }

    /// Fills `m` of the entry served first on `side`, which stays in place.
    pub fn fill_best(&mut self, side: OrderSide, m: u64)
        requires
            old(self).wf(),
            old(self).side_view(side).len() > 0,
            m < old(self).side_view(side)[0].remaining,
        ensures
            final(self).wf(),
            final(self).side_view(side) == old(self).side_view(side).update(
                0,
                BookEntry {
                    remaining: (old(self).side_view(side)[0].remaining - m) as u64,
                    ..old(self).side_view(side)[0]
                },
            ),
            final(self).side_view(opposite_of(side)) == old(self).side_view(opposite_of(side)),
    {
        match side {
            OrderSide::Ask => {
                let head = self.asks[0];
                let e = BookEntry { remaining: head.remaining - m, ..head };
                proof {
                    lemma_total_update(self.asks@, 0, e);
                }
                self.asks.set(0, e);
                self.ask_length = self.ask_length - m;
                proof {
                    assert forall|i: int, j: int| 0 <= i < j < self.asks@.len() implies ranks_before(side, #[trigger] self.asks@[i].price, #[trigger] self.asks@[j].price) by {
                        assert(self.asks@[i].price == old(self).asks@[i].price);
                        assert(self.asks@[j].price == old(self).asks@[j].price);
                    }
                }
            },
            OrderSide::Bid => {
                let head = self.bids[0];
                let e = BookEntry { remaining: head.remaining - m, ..head };
                proof {
                    lemma_total_update(self.bids@, 0, e);
                }
                self.bids.set(0, e);
                self.bid_length = self.bid_length - m;
                proof {
                    assert forall|i: int, j: int| 0 <= i < j < self.bids@.len() implies ranks_before(side, #[trigger] self.bids@[i].price, #[trigger] self.bids@[j].price) by {
                        assert(self.bids@[i].price == old(self).bids@[i].price);
                        assert(self.bids@[j].price == old(self).bids@[j].price);
                    }
                }
            },
        }
    }
}

} // verus!
