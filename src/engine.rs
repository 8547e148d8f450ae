use vstd::prelude::*;

use crate::book::queue_entry;
use crate::book::BookEntry;
use crate::book::Orderbook;
use crate::index::index_contents;
use crate::index::index_get;
use crate::index::index_insert;
use crate::index::index_remove;
use crate::index::index_with_capacity;
use crate::index::OrderMap;
use crate::order::min_u64;
use crate::order::opposite_of;
use crate::order::prices_cross;
use crate::order::Amount;
use crate::order::Exchangeable;
use crate::order::LimitPrice;
use crate::order::Order;
use crate::order::OrderId;
use crate::order::OrderKind;
use crate::order::OrderSide;
use crate::order::OrderStatus;
use crate::order::Trade;

verus! {

/// A lifecycle event, appended to the engine's log as it happens.
#[derive(Clone, Copy, Debug, PartialEq, Eq, Structural)]
pub enum TradingEngineResponse {
    OrderReceived { id: OrderId },
    OrderAddedToOrderbook { id: OrderId },
    OrderPartiallyFilled { id: OrderId, previous_remaining: Amount, current_remaining: Amount },
    OrderCompleted { id: OrderId },
    OrderReceivedCompletedBeforeEnterInOrderbook { id: OrderId },
    OrderRemovedFromOrderbook { id: OrderId },
}

/// Why a submission was refused.
#[derive(Clone, Copy, Debug, PartialEq, Eq, Structural)]
pub enum EngineError {
    /// An order with the same id is already indexed.
    DuplicateId,
    /// The amount is zero, or part of it is already filled.
    InvalidOrder,
    /// Only limit orders are matched.
    UnsupportedKind,
}

/// What an order resting in the book looks like: something left, nothing more than its
/// size, `Open` exactly while nothing of it was filled, and of kind `Limit`.
pub open spec fn resting_ok(o: Order) -> bool {
    &&& 0 < o.remaining.0 <= o.amount.0
    &&& o.status == (if o.remaining.0 == o.amount.0 {
        OrderStatus::Open
    } else {
        OrderStatus::Partial
    })
    &&& o.current_kind == OrderKind::Limit
}

/// A book entry on `side` stands for an indexed order at its place, with its remaining quantity.
pub open spec fn entry_agrees(index: Map<u64, Order>, side: OrderSide, e: BookEntry) -> bool {
    &&& index.contains_key(e.id)
    &&& index[e.id].side == side
    &&& index[e.id].limit_price.0 == e.price
    &&& index[e.id].remaining.0 == e.remaining
}

pub open spec fn side_agrees(index: Map<u64, Order>, side: OrderSide, s: Seq<BookEntry>) -> bool {
    &&& forall|i: int| 0 <= i < s.len() ==> entry_agrees(index, side, #[trigger] s[i])
    &&& forall|i: int, j: int| 0 <= i < j < s.len() ==> #[trigger] s[i].id != #[trigger] s[j].id
}

pub open spec fn side_holds(s: Seq<BookEntry>, id: u64) -> bool {
    exists|i: int| 0 <= i < s.len() && #[trigger] s[i].id == id
}

/// The index and the book agree: every indexed order rests in the book on its side, and
/// every book entry stands for exactly one indexed order.
pub open spec fn state_ok(index: Map<u64, Order>, book: Orderbook) -> bool {
    &&& book.wf()
    &&& forall|id: u64| #[trigger] index.contains_key(id) ==> {
        &&& index[id].id.0 == id
        &&& resting_ok(index[id])
        &&& side_holds(book.side_view(index[id].side), id)
    }
    &&& side_agrees(index, OrderSide::Ask, book.side_view(OrderSide::Ask))
    &&& side_agrees(index, OrderSide::Bid, book.side_view(OrderSide::Bid))
}

/// The book entry that stands for a resting order.
pub open spec fn entry_of(o: Order) -> BookEntry {
    BookEntry { id: o.id.0, price: o.limit_price.0, remaining: o.remaining.0 }
}

pub proof fn lemma_agrees_at(index: Map<u64, Order>, book: Orderbook, side: OrderSide, i: int)
    requires
        state_ok(index, book),
        0 <= i < book.side_view(side).len(),
    ensures
        entry_agrees(index, side, book.side_view(side)[i]),
        resting_ok(index[book.side_view(side)[i].id]),
        index[book.side_view(side)[i].id].id.0 == book.side_view(side)[i].id,
        book.side_view(side)[i].remaining > 0,
{
    let e = book.side_view(side)[i];
    assert(entry_agrees(index, side, e));
    assert(index.contains_key(e.id));
}

/// Taking the entry at position `k` off a side, together with its order out of the index,
/// keeps the index and the book in agreement.
pub proof fn lemma_remove_entry(index: Map<u64, Order>, book: Orderbook, after: Orderbook, side: OrderSide, k: int)
    requires
        state_ok(index, book),
        0 <= k < book.side_view(side).len(),
        after.wf(),
        after.side_view(side) == book.side_view(side).remove(k),
        after.side_view(opposite_of(side)) == book.side_view(opposite_of(side)),
    ensures
        state_ok(index.remove(book.side_view(side)[k].id), after),
{
    let s = book.side_view(side);
    let id = s[k].id;
    let idx = index.remove(id);
    let other = opposite_of(side);
    lemma_agrees_at(index, book, side, k);
    let t = after.side_view(side);
    assert forall|i: int| 0 <= i < t.len() implies entry_agrees(idx, side, #[trigger] t[i]) by {
        if i < k {
            assert(t[i] == s[i]);
            assert(s[i].id != s[k].id);
        } else {
            assert(t[i] == s[i + 1]);
            assert(s[k].id != s[i + 1].id);
        }
        assert(entry_agrees(index, side, s[if i < k { i } else { i + 1 }]));
    }
    assert forall|i: int, j: int| 0 <= i < j < t.len() implies #[trigger] t[i].id != #[trigger] t[j].id by {
        let a = if i < k { i } else { i + 1 };
        let b = if j < k { j } else { j + 1 };
        assert(t[i] == s[a] && t[j] == s[b]);
        assert(s[a].id != s[b].id);
    }
    let u = after.side_view(other);
    assert forall|i: int| 0 <= i < u.len() implies entry_agrees(idx, other, #[trigger] u[i]) by {
        lemma_agrees_at(index, book, other, i);
    }
    assert forall|x: u64| #[trigger] idx.contains_key(x) implies {
        &&& idx[x].id.0 == x
        &&& resting_ok(idx[x])
        &&& side_holds(after.side_view(idx[x].side), x)
    } by {
        assert(index.contains_key(x));
        let sx = index[x].side;
        let bs = book.side_view(sx);
        assert(side_holds(bs, x));
        let i = choose|i: int| 0 <= i < bs.len() && #[trigger] bs[i].id == x;
        if sx == side {
            if i < k {
                assert(t[i] == s[i]);
            } else {
                assert(t[i - 1] == s[i]);
            }
        } else {
            assert(sx == other);
            assert(u[i] == bs[i]);
        }
    }
    if side == OrderSide::Ask {
        assert(state_ok(idx, after));
    } else {
        assert(state_ok(idx, after));
    }
}

/// Filling part of the first entry of a side, with its order updated in the index, keeps the
/// index and the book in agreement.
pub proof fn lemma_fill_head(index: Map<u64, Order>, book: Orderbook, after: Orderbook, side: OrderSide, o: Order)
    requires
        state_ok(index, book),
        book.side_view(side).len() > 0,
        o.id == index[book.side_view(side)[0].id].id,
        o.side == side,
        o.limit_price.0 == book.side_view(side)[0].price,
        resting_ok(o),
        after.wf(),
        after.side_view(side) == book.side_view(side).update(0, BookEntry { remaining: o.remaining.0, ..book.side_view(side)[0] }),
        after.side_view(opposite_of(side)) == book.side_view(opposite_of(side)),
    ensures
        state_ok(index.insert(book.side_view(side)[0].id, o), after),
{
    let s = book.side_view(side);
    let id = s[0].id;
    let idx = index.insert(id, o);
    let other = opposite_of(side);
    lemma_agrees_at(index, book, side, 0);
    let t = after.side_view(side);
    assert forall|i: int| 0 <= i < t.len() implies entry_agrees(idx, side, #[trigger] t[i]) by {
        if i > 0 {
            assert(t[i] == s[i]);
            assert(s[0].id != s[i].id);
            lemma_agrees_at(index, book, side, i);
        }
    }
    assert forall|i: int, j: int| 0 <= i < j < t.len() implies #[trigger] t[i].id != #[trigger] t[j].id by {
        assert(s[i].id != s[j].id);
    }
    let u = after.side_view(other);
    assert forall|i: int| 0 <= i < u.len() implies entry_agrees(idx, other, #[trigger] u[i]) by {
        lemma_agrees_at(index, book, other, i);
    }
    assert forall|x: u64| #[trigger] idx.contains_key(x) implies {
        &&& idx[x].id.0 == x
        &&& resting_ok(idx[x])
        &&& side_holds(after.side_view(idx[x].side), x)
    } by {
        assert(index.contains_key(x));
        let sx = index[x].side;
        let bs = book.side_view(sx);
        assert(side_holds(bs, x));
        let i = choose|i: int| 0 <= i < bs.len() && #[trigger] bs[i].id == x;
        if sx == side {
            assert(t[i].id == s[i].id);
        } else {
            assert(sx == other);
            assert(u[i] == bs[i]);
        }
    }
    if side == OrderSide::Ask {
        assert(state_ok(idx, after));
    } else {
        assert(state_ok(idx, after));
    }
}

/// Queueing a new resting order, together with indexing it, keeps the index and the book in
/// agreement.
pub proof fn lemma_add_entry(index: Map<u64, Order>, book: Orderbook, after: Orderbook, o: Order, p: int)
    requires
        state_ok(index, book),
        !index.contains_key(o.id.0),
        resting_ok(o),
        0 <= p <= book.side_view(o.side).len(),
        after.wf(),
        after.side_view(o.side) == book.side_view(o.side).insert(p, entry_of(o)),
        after.side_view(opposite_of(o.side)) == book.side_view(opposite_of(o.side)),
    ensures
        state_ok(index.insert(o.id.0, o), after),
{
    let side = o.side;
    let s = book.side_view(side);
    let id = o.id.0;
    let idx = index.insert(id, o);
    let other = opposite_of(side);
    let t = after.side_view(side);
    assert forall|i: int| 0 <= i < t.len() implies entry_agrees(idx, side, #[trigger] t[i]) by {
        if i < p {
            assert(t[i] == s[i]);
            lemma_agrees_at(index, book, side, i);
        } else if i > p {
            assert(t[i] == s[i - 1]);
            lemma_agrees_at(index, book, side, i - 1);
        }
    }
    assert forall|i: int, j: int| 0 <= i < j < t.len() implies #[trigger] t[i].id != #[trigger] t[j].id by {
        if i != p && j != p {
            let a = if i < p { i } else { i - 1 };
            let b = if j < p { j } else { j - 1 };
            assert(t[i] == s[a] && t[j] == s[b]);
            assert(s[a].id != s[b].id);
        } else if i == p {
            assert(t[j] == s[j - 1]);
            lemma_agrees_at(index, book, side, j - 1);
        } else {
            assert(t[i] == s[i]);
            lemma_agrees_at(index, book, side, i);
        }
    }
    let u = after.side_view(other);
    assert forall|i: int| 0 <= i < u.len() implies entry_agrees(idx, other, #[trigger] u[i]) by {
        lemma_agrees_at(index, book, other, i);
    }
    assert forall|x: u64| #[trigger] idx.contains_key(x) implies {
        &&& idx[x].id.0 == x
        &&& resting_ok(idx[x])
        &&& side_holds(after.side_view(idx[x].side), x)
    } by {
        if x == id {
            assert(t[p].id == x);
        } else {
            assert(index.contains_key(x));
            let sx = index[x].side;
            let bs = book.side_view(sx);
            assert(side_holds(bs, x));
            let i = choose|i: int| 0 <= i < bs.len() && #[trigger] bs[i].id == x;
            if sx == side {
                if i < p {
                    assert(t[i] == s[i]);
                } else {
                    assert(t[i + 1] == s[i]);
                }
            } else {
                assert(sx == other);
                assert(u[i] == bs[i]);
            }
        }
    }
    if side == OrderSide::Ask {
        assert(state_ok(idx, after));
    } else {
        assert(state_ok(idx, after));
    }
}

/// What taking `id` out of the engine does: the order leaves the index and its entry leaves
/// the book; nothing else changes. An unknown id changes nothing.
pub open spec fn removal(before: TradingEngine, id: u64, r: Option<Order>, after: TradingEngine) -> bool {
    &&& after.wf()
    &&& after.trade_log() == before.trade_log()
    &&& match r {
        None => {
            &&& !before.index().contains_key(id)
            &&& after.index() == before.index()
            &&& after.book() == before.book()
        },
        Some(o) => {
            let s = before.book().side_view(o.side);
            &&& before.index().contains_key(id)
            &&& o == before.index()[id]
            &&& after.index() == before.index().remove(id)
            &&& exists|k: int| 0 <= k < s.len() && #[trigger] s[k].id == id && after.book().side_view(o.side) == s.remove(k)
            &&& after.book().side_view(opposite_of(o.side)) == before.book().side_view(opposite_of(o.side))
        },
    }
}

/// What cancelling `id` does: as `removal`, with the order handed back `Cancelled` when
/// nothing of it was filled and `Closed` otherwise, and one `OrderRemovedFromOrderbook` event.
pub open spec fn cancellation(before: TradingEngine, id: u64, r: Option<Order>, after: TradingEngine) -> bool {
    match r {
        None => removal(before, id, None, after) && after.log() == before.log(),
        Some(o) => {
            let was = before.index()[id];
            &&& removal(before, id, Some(was), after)
            &&& o == (Order {
                status: if was.remaining == was.amount {
                    OrderStatus::Cancelled
                } else {
                    OrderStatus::Closed
                },
                ..was
            })
            &&& after.log() == before.log().push(TradingEngineResponse::OrderRemovedFromOrderbook { id: OrderId(id) })
        },
    }
}

/// A matching run of an incoming order `taker` on `side` at `price`, with `rem` left, against
/// the opposite side `opp` (best first). It gives the events emitted, the trades executed, the
/// opposite side afterwards and what is left of the incoming order.
///
/// While the best resting entry crosses: a resting order that is used up is completed and
/// leaves the book, and the run goes on; one that survives is partially filled and keeps its
/// place, and the incoming order is completed. Every trade is at the resting order's price.
pub open spec fn run_match(taker: u64, side: OrderSide, price: u64, rem: u64, opp: Seq<BookEntry>) -> (
    Seq<TradingEngineResponse>,
    Seq<Trade>,
    Seq<BookEntry>,
    u64,
)
    decreases opp.len(),
{
    if rem == 0 || opp.len() == 0 || !prices_cross(side, price, opp[0].price) {
        (seq![], seq![], opp, rem)
    } else {
        let head = opp[0];
        let trade = Trade {
            maker_id: OrderId(head.id),
            taker_id: OrderId(taker),
            price: head.price,
            amount: Amount(min_u64(rem, head.remaining)),
            created_at: 0,
        };
        if head.remaining > rem {
            (
                seq![
                    TradingEngineResponse::OrderPartiallyFilled {
                        id: OrderId(head.id),
                        previous_remaining: Amount(head.remaining),
                        current_remaining: Amount((head.remaining - rem) as u64),
                    },
                    TradingEngineResponse::OrderCompleted { id: OrderId(taker) },
                ],
                seq![trade],
                opp.update(0, BookEntry { remaining: (head.remaining - rem) as u64, ..head }),
                0,
            )
        } else if head.remaining == rem {
            (
                seq![
                    TradingEngineResponse::OrderCompleted { id: OrderId(head.id) },
                    TradingEngineResponse::OrderRemovedFromOrderbook { id: OrderId(head.id) },
                    TradingEngineResponse::OrderCompleted { id: OrderId(taker) },
                ],
                seq![trade],
                opp.drop_first(),
                0,
            )
        } else {
            let next = run_match(taker, side, price, (rem - head.remaining) as u64, opp.drop_first());
            (
                seq![
                    TradingEngineResponse::OrderPartiallyFilled {
                        id: OrderId(taker),
                        previous_remaining: Amount(rem),
                        current_remaining: Amount((rem - head.remaining) as u64),
                    },
                    TradingEngineResponse::OrderCompleted { id: OrderId(head.id) },
                    TradingEngineResponse::OrderRemovedFromOrderbook { id: OrderId(head.id) },
                ] + next.0,
                seq![trade] + next.1,
                next.2,
                next.3,
            )
        }
    }
}

/// Why a submission is refused, if it is.
pub open spec fn submission_error(index: Map<u64, Order>, order: Order) -> Option<EngineError> {
    if index.contains_key(order.id.0) {
        Some(EngineError::DuplicateId)
    } else if order.amount.0 == 0 || order.remaining.0 != order.amount.0 {
        Some(EngineError::InvalidOrder)
    } else if order.current_kind != OrderKind::Limit {
        Some(EngineError::UnsupportedKind)
    } else {
        None
    }
}

/// `x` was indexed before and, but for its remaining quantity and status, is indexed unchanged.
pub open spec fn kept_but_fills(before: Map<u64, Order>, after: Map<u64, Order>, x: u64) -> bool {
    &&& before.contains_key(x)
    &&& after[x] == (Order { remaining: after[x].remaining, status: after[x].status, ..before[x] })
}

/// What submitting `order` does. A refused order changes nothing. An accepted one is received,
/// matched as `run_match` says against the opposite side, and then what is left of it, if
/// anything and if it was submitted as a limit order, joins its own side of the book.
pub open spec fn submission(before: TradingEngine, order: Order, r: Result<(), EngineError>, after: TradingEngine) -> bool {
    let err = submission_error(before.index(), order);
    let id = order.id.0;
    let side = order.side;
    let run = run_match(id, side, order.limit_price.0, order.amount.0, before.book().side_view(opposite_of(side)));
    let left = run.3;
    let rests = left > 0 && order.initial_kind == OrderKind::Limit;
    &&& after.wf()
    &&& match r {
        Err(e) => {
            &&& err == Some(e)
            &&& after.index() == before.index()
            &&& after.book() == before.book()
            &&& after.log() == before.log()
            &&& after.trade_log() == before.trade_log()
        },
        Ok(()) => {
            &&& err.is_none()
            &&& after.log() == before.log() + seq![TradingEngineResponse::OrderReceived { id: order.id }] + run.0 + seq![
                if rests {
                    TradingEngineResponse::OrderAddedToOrderbook { id: order.id }
                } else {
                    TradingEngineResponse::OrderReceivedCompletedBeforeEnterInOrderbook { id: order.id }
                },
            ]
            &&& after.trade_log() == before.trade_log() + run.1
            &&& after.book().side_view(opposite_of(side)) == run.2
            &&& after.book().side_view(side) == if rests {
                queue_entry(side, before.book().side_view(side), BookEntry { id, price: order.limit_price.0, remaining: left })
            } else {
                before.book().side_view(side)
            }
            &&& after.index().contains_key(id) == rests
            &&& forall|x: u64| #[trigger] after.index().contains_key(x) && x != id ==> kept_but_fills(before.index(), after.index(), x)
            &&& rests ==> after.index()[id] == (Order {
                remaining: Amount(left),
                status: if left == order.amount.0 {
                    OrderStatus::Open
                } else {
                    OrderStatus::Partial
                },
                ..order
            })
        },
    }
}

/// The matching engine of one instrument: the order index, the book of resting orders, the
/// event log and the trades executed.
pub struct TradingEngine {
    orders: OrderMap,
    orderbook: Orderbook,
    events: Vec<TradingEngineResponse>,
    trades: Vec<Trade>,
}

impl Default for TradingEngine {
    /// The engine keeps no order as it starts.
    fn default() -> (r: TradingEngine)
        ensures
            r.wf(),
            r.index().dom() == Set::<u64>::empty(),
            r.book().side_view(OrderSide::Ask) == Seq::<BookEntry>::empty(),
            r.book().side_view(OrderSide::Bid) == Seq::<BookEntry>::empty(),
            r.log() == Seq::<TradingEngineResponse>::empty(),
            r.trade_log() == Seq::<Trade>::empty(),
    {
        TradingEngine::with_capacity(1024)
    }
}

impl TradingEngine {
    /// The resting orders, by id.
    pub closed spec fn index(&self) -> Map<u64, Order> {
        index_contents(self.orders)
    }

    pub closed spec fn book(&self) -> Orderbook {
        self.orderbook
    }

    /// The events emitted so far and not yet drained.
    pub closed spec fn log(&self) -> Seq<TradingEngineResponse> {
        self.events@
    }

    /// The trades executed so far and not yet drained.
    pub closed spec fn trade_log(&self) -> Seq<Trade> {
        self.trades@
    }

    pub open spec fn wf(&self) -> bool {
        state_ok(self.index(), self.book())
    }

    pub fn with_capacity(capacity: usize) -> (r: TradingEngine)
        ensures
            r.wf(),
            r.index().dom() == Set::<u64>::empty(),
            r.book().side_view(OrderSide::Ask) == Seq::<BookEntry>::empty(),
            r.book().side_view(OrderSide::Bid) == Seq::<BookEntry>::empty(),
            r.log() == Seq::<TradingEngineResponse>::empty(),
            r.trade_log() == Seq::<Trade>::empty(),
    {
        let r = TradingEngine {
            orders: index_with_capacity(capacity),
            orderbook: Orderbook::new(),
            events: Vec::new(),
            trades: Vec::new(),
        };
        proof {
            assert(r.events@ =~= Seq::<TradingEngineResponse>::empty());
            assert(r.trades@ =~= Seq::<Trade>::empty());
            assert forall|id: u64| #[trigger] r.index().contains_key(id) implies false by {
                assert(r.index().dom().contains(id));
            }
        }
        r
    }

    pub fn new() -> (r: TradingEngine)
        ensures
            r.wf(),
            r.index().dom() == Set::<u64>::empty(),
            r.book().side_view(OrderSide::Ask) == Seq::<BookEntry>::empty(),
            r.book().side_view(OrderSide::Bid) == Seq::<BookEntry>::empty(),
            r.log() == Seq::<TradingEngineResponse>::empty(),
            r.trade_log() == Seq::<Trade>::empty(),
    {
        TradingEngine::with_capacity(1024)
    }

    /// The indexed order with this id.
    pub fn get(&self, order_id: &OrderId) -> (r: Option<&Order>)
        ensures
            match r {
                Some(o) => self.index().contains_key(order_id.0) && *o == self.index()[order_id.0],
                None => !self.index().contains_key(order_id.0),
            },
    {
        index_get(&self.orders, order_id.0)
    }

    /// The total remaining quantity resting on `side`.
    pub fn depth(&self, side: OrderSide) -> (r: Amount)
        ensures
            r.0 == self.book().depth_view(side),
    {
        Amount(self.orderbook.depth(side))
    }

    /// The best resting price on `side`: the lowest ask, or the highest bid.
    pub fn best_price(&self, side: OrderSide) -> (r: Option<LimitPrice>)
        ensures
            r == (if self.book().side_view(side).len() == 0 {
                None
            } else {
                Some(LimitPrice(self.book().side_view(side)[0].price))
            }),
    {
        match self.orderbook.best(side) {
            Some(e) => Some(LimitPrice(e.price)),
            None => None,
        }
    }

    /// The number of price levels on `side`.
    pub fn level_count(&self, side: OrderSide) -> (r: usize)
        ensures
            r == crate::book::level_count_of(self.book().side_view(side)),
    {
        self.orderbook.level_count(side)
    }

    /// The events emitted so far.
    pub fn events(&self) -> (r: &Vec<TradingEngineResponse>)
        ensures
            r@ == self.log(),
    {
        &self.events
    }

    /// The trades executed so far.
    pub fn trades(&self) -> (r: &Vec<Trade>)
        ensures
            r@ == self.trade_log(),
    {
        &self.trades
    }

    /// Hands out the event log and leaves it empty.
    pub fn drain_events(&mut self) -> (r: Vec<TradingEngineResponse>)
        requires
            old(self).wf(),
        ensures
            final(self).wf(),
            r@ == old(self).log(),
            final(self).log() == Seq::<TradingEngineResponse>::empty(),
            final(self).index() == old(self).index(),
            final(self).book() == old(self).book(),
            final(self).trade_log() == old(self).trade_log(),
    {
        let mut out: Vec<TradingEngineResponse> = Vec::new();
        std::mem::swap(&mut self.events, &mut out);
        proof {
            assert(self.events@ =~= Seq::<TradingEngineResponse>::empty());
        }
        out
    }

    /// Hands out the trades executed so far and leaves that record empty.
    pub fn drain_trades(&mut self) -> (r: Vec<Trade>)
        requires
            old(self).wf(),
        ensures
            final(self).wf(),
            r@ == old(self).trade_log(),
            final(self).trade_log() == Seq::<Trade>::empty(),
            final(self).index() == old(self).index(),
            final(self).book() == old(self).book(),
            final(self).log() == old(self).log(),
    {
        let mut out: Vec<Trade> = Vec::new();
        std::mem::swap(&mut self.trades, &mut out);
        proof {
            assert(self.trades@ =~= Seq::<Trade>::empty());
        }
        out
    }
    /// Takes an order out of the index and the book, as it is.
    pub fn remove(&mut self, order_id: &OrderId) -> (r: Option<Order>)
        requires
            old(self).wf(),
        ensures
            removal(*old(self), order_id.0, r, *final(self)),
            final(self).log() == old(self).log(),
    {
        let id = order_id.0;
        let ghost idx = self.index();
        let ghost book = self.orderbook;
        let got = index_remove(&mut self.orders, id);
        match got {
            None => {
                proof {
                    assert(self.index() =~= idx);
                }
                None
            },
            Some(o) => {
                proof {
                    assert(idx.contains_key(id));
                }
                let k = self.orderbook.position(o.side, id);
                match k {
                    Some(k) => {
                        self.orderbook.remove_at(o.side, k);
                        proof {
                            lemma_remove_entry(idx, book, self.orderbook, o.side, k as int);
                            assert(book.side_view(o.side)[k as int].id == id);
                        }
                    },
                    None => {
                        proof {
                            let s = book.side_view(o.side);
                            assert(side_holds(s, id));
                            let i = choose|i: int| 0 <= i < s.len() && #[trigger] s[i].id == id;
                            assert(s[i].id != id);
                        }
                    },
                }
                Some(o)
            },
        }
    }

    /// Cancels an order: it leaves the index and the book, and comes back `Cancelled` when
    /// nothing of it was filled, `Closed` otherwise.
    pub fn cancel(&mut self, order_id: &OrderId) -> (r: Option<Order>)
        requires
            old(self).wf(),
        ensures
            cancellation(*old(self), order_id.0, r, *final(self)),
    {
        let r = self.remove(order_id);
        match r {
            Some(o) => {
                let mut o = o;
                o.cancel();
                self.events.push(TradingEngineResponse::OrderRemovedFromOrderbook { id: OrderId(order_id.0) });
                Some(o)
            },
            None => None,
        }
    }

    /// Takes the resting order served first against `opposite_order` out of the book and the
    /// index.
    pub fn pop_from_orderbook(&mut self, opposite_order: &Order) -> (r: Option<Order>)
        requires
            old(self).wf(),
        ensures
            final(self).wf(),
            final(self).log() == old(self).log(),
            final(self).trade_log() == old(self).trade_log(),
            ({
                let side = opposite_of(opposite_order.side);
                let s = old(self).book().side_view(side);
                if s.len() == 0 {
                    r.is_none() && final(self).index() == old(self).index() && final(self).book() == old(self).book()
                } else {
                    &&& r == Some(old(self).index()[s[0].id])
                    &&& final(self).index() == old(self).index().remove(s[0].id)
                    &&& final(self).book().side_view(side) == s.drop_first()
                    &&& final(self).book().side_view(opposite_order.side) == old(self).book().side_view(opposite_order.side)
                }
            }),
    {
        let side = opposite_order.side.opposite();
        let ghost idx = self.index();
        let ghost book = self.orderbook;
        match self.orderbook.best(side) {
            None => None,
            Some(head) => {
                self.orderbook.pop_best(side);
                proof {
                    lemma_agrees_at(idx, book, side, 0);
                    assert(book.side_view(side).drop_first() =~= book.side_view(side).remove(0));
                    lemma_remove_entry(idx, book, self.orderbook, side, 0);
                    assert(opposite_of(side) == opposite_order.side);
                }
                index_remove(&mut self.orders, head.id)
            },
        }
    }
    /// Submits an order: it is checked, matched against the opposite side under price-time
    /// priority, and what is left of it rests in the book.
    pub fn try_insert(&mut self, order: Order) -> (r: Result<(), EngineError>)
        requires
            old(self).wf(),
            old(self).book().depth_view(order.side) + order.amount.0 <= u64::MAX,
        ensures
            submission(*old(self), order, r, *final(self)),
    {
        let id = order.id.0;
        let side = order.side;
        let price = order.limit_price.0;
        let opp = side.opposite();
        if index_get(&self.orders, id).is_some() {
            return Err(EngineError::DuplicateId);
        }
        if order.amount.0 == 0 || order.remaining.0 != order.amount.0 {
            return Err(EngineError::InvalidOrder);
        }
        if order.current_kind != OrderKind::Limit {
            return Err(EngineError::UnsupportedKind);
        }
        let mut order = order;
        order.status = OrderStatus::Open;
        let ghost orig = order;
        self.events.push(TradingEngineResponse::OrderReceived { id: order.id });
        let ghost ev0 = self.events@;
        let ghost tr0 = self.trades@;
        let ghost target = run_match(id, side, price, order.amount.0, self.orderbook.side_view(opp));
        loop
            invariant_except_break
                0 < order.remaining.0 <= order.amount.0,
                order.status == (if order.remaining.0 == order.amount.0 {
                    OrderStatus::Open
                } else {
                    OrderStatus::Partial
                }),
                ({
                    let cur = run_match(id, side, price, order.remaining.0, self.orderbook.side_view(opp));
                    &&& self.events@ + cur.0 == ev0 + target.0
                    &&& self.trades@ + cur.1 == tr0 + target.1
                    &&& cur.2 == target.2
                    &&& cur.3 == target.3
                }),
            invariant
                state_ok(self.index(), self.orderbook),
                !self.index().contains_key(id),
                opp == opposite_of(side),
                self.orderbook.side_view(side) == old(self).book().side_view(side),
                order == (Order { remaining: order.remaining, status: order.status, ..orig }),
                orig.id.0 == id && orig.side == side && orig.limit_price.0 == price,
                orig.current_kind == OrderKind::Limit,
                orig.amount.0 > 0,
                forall|x: u64| #[trigger] self.index().contains_key(x) ==> kept_but_fills(old(self).index(), self.index(), x),
            ensures
                state_ok(self.index(), self.orderbook),
                !self.index().contains_key(id),
                forall|x: u64| #[trigger] self.index().contains_key(x) ==> kept_but_fills(old(self).index(), self.index(), x),
                self.orderbook.side_view(side) == old(self).book().side_view(side),
                order == (Order { remaining: order.remaining, status: order.status, ..orig }),
                order.remaining.0 <= order.amount.0,
                order.status == (if order.remaining.0 == 0 {
                    OrderStatus::Completed
                } else if order.remaining.0 == order.amount.0 {
                    OrderStatus::Open
                } else {
                    OrderStatus::Partial
                }),
                self.events@ == ev0 + target.0,
                self.trades@ == tr0 + target.1,
                self.orderbook.side_view(opp) == target.2,
                order.remaining.0 == target.3,
            decreases self.orderbook.side_view(opp).len(),
        {
            let ghost idx = self.index();
            let ghost book = self.orderbook;
            let ghost rem = order.remaining.0;
            let ghost cur = run_match(id, side, price, rem, book.side_view(opp));
            let head = match self.orderbook.best(opp) {
                Some(head) => head,
                None => {
                    proof {
                        assert(self.events@ + cur.0 =~= self.events@);
                        assert(self.trades@ + cur.1 =~= self.trades@);
                    }
                    break;
                },
            };
            let crosses = match side {
                OrderSide::Ask => price <= head.price,
                OrderSide::Bid => price >= head.price,
            };
            if !crosses {
                proof {
                    assert(self.events@ + cur.0 =~= self.events@);
                    assert(self.trades@ + cur.1 =~= self.trades@);
                }
                break;
            }
            proof {
                lemma_agrees_at(idx, book, opp, 0);
            }
            let mut resting = match index_get(&self.orders, head.id) {
                Some(o) => *o,
                None => {
                    proof {
                        assert(false);
                    }
                    break;
                },
            };
            let ghost resting0 = resting;
            let m: u64 = if order.remaining.0 <= resting.remaining.0 {
                order.remaining.0
            } else {
                resting.remaining.0
            };
            let traded = order.trade(&mut resting);
            match traded {
                Some(t) => {
                    self.trades.push(t);
                },
                None => {},
            }
            if resting.remaining.0 == 0 {
                self.orderbook.pop_best(opp);
                let _ = index_remove(&mut self.orders, head.id);
                proof {
                    assert(book.side_view(opp).drop_first() =~= book.side_view(opp).remove(0));
                    lemma_remove_entry(idx, book, self.orderbook, opp, 0);
                }
                if order.remaining.0 == 0 {
                    self.events.push(TradingEngineResponse::OrderCompleted { id: OrderId(head.id) });
                    self.events.push(TradingEngineResponse::OrderRemovedFromOrderbook { id: OrderId(head.id) });
                    self.events.push(TradingEngineResponse::OrderCompleted { id: order.id });
                    proof {
                        assert(self.events@ =~= ev0 + target.0);
                        assert(self.trades@ =~= tr0 + target.1);
                    }
                    break;
                }
                self.events.push(
                    TradingEngineResponse::OrderPartiallyFilled {
                        id: order.id,
                        previous_remaining: Amount(order.remaining.0 + m),
                        current_remaining: order.remaining,
                    },
                );
                self.events.push(TradingEngineResponse::OrderCompleted { id: OrderId(head.id) });
                self.events.push(TradingEngineResponse::OrderRemovedFromOrderbook { id: OrderId(head.id) });
                proof {
                    let next = run_match(id, side, price, order.remaining.0, self.orderbook.side_view(opp));
                    assert(self.events@ + next.0 =~= ev0 + target.0);
                    assert(self.trades@ + next.1 =~= tr0 + target.1);
                }
            } else {
                self.orderbook.fill_best(opp, m);
                let _ = index_insert(&mut self.orders, head.id, resting);
                proof {
                    lemma_fill_head(idx, book, self.orderbook, opp, resting);
                }
                self.events.push(
                    TradingEngineResponse::OrderPartiallyFilled {
                        id: OrderId(head.id),
                        previous_remaining: Amount(resting.remaining.0 + m),
                        current_remaining: resting.remaining,
                    },
                );
                self.events.push(TradingEngineResponse::OrderCompleted { id: order.id });
                proof {
                    assert(self.events@ =~= ev0 + target.0);
                    assert(self.trades@ =~= tr0 + target.1);
                }
                break;
            }
        }
        if order.status != OrderStatus::Completed && order.initial_kind == OrderKind::Limit {
            self.events.push(TradingEngineResponse::OrderAddedToOrderbook { id: order.id });
            let ghost idx = self.index();
            let ghost book = self.orderbook;
            let entry = BookEntry { id, price, remaining: order.remaining.0 };
            let p = self.orderbook.insert(side, entry);
            let _ = index_insert(&mut self.orders, id, order);
            proof {
                lemma_add_entry(idx, book, self.orderbook, order, p as int);
                assert(self.index()[id] == order);
            }
        } else {
            self.events.push(
                TradingEngineResponse::OrderReceivedCompletedBeforeEnterInOrderbook { id: order.id },
            );
        }
        proof {
            let run = target;
            let last = self.events@.last();
            assert(self.events@ =~= old(self).log() + seq![TradingEngineResponse::OrderReceived { id: orig.id }] + run.0 + seq![last]);
        }
        Ok(())
    }
}

/// The sum of the remaining quantities of the indexed orders that the entries stand for.
pub open spec fn resting_total(index: Map<u64, Order>, s: Seq<BookEntry>) -> nat
    decreases s.len(),
{
    if s.len() == 0 {
        0
    } else {
        (index[s[0].id].remaining.0 + resting_total(index, s.drop_first())) as nat
    }
}

/// The quantity resting on a side, best first, that an order on `side` at `price` can reach:
/// the entries up to the first whose price does not cross.
pub open spec fn crossable_total(side: OrderSide, price: u64, opp: Seq<BookEntry>) -> nat
    decreases opp.len(),
{
    if opp.len() == 0 || !prices_cross(side, price, opp[0].price) {
        0
    } else {
        (opp[0].remaining + crossable_total(side, price, opp.drop_first())) as nat
    }
}

/// The sum of the traded quantities.
pub open spec fn traded_total(ts: Seq<Trade>) -> nat
    decreases ts.len(),
{
    if ts.len() == 0 {
        0
    } else {
        (ts[0].amount.0 + traded_total(ts.drop_first())) as nat
    }
}

pub open spec fn min_nat(a: nat, b: nat) -> nat {
    if a <= b { a } else { b }
}

/// Every indexed order has no more left than its size, and is completed exactly when nothing
/// is left of it.
pub proof fn lemma_indexed_orders_consistent(e: TradingEngine)
    requires
        e.wf(),
    ensures
        forall|id: u64| #[trigger] e.index().contains_key(id) ==> {
            &&& e.index()[id].remaining.0 <= e.index()[id].amount.0
            &&& (e.index()[id].status == OrderStatus::Completed <==> e.index()[id].remaining.0 == 0)
        },
{
}

pub proof fn lemma_resting_total(index: Map<u64, Order>, side: OrderSide, s: Seq<BookEntry>)
    requires
        forall|i: int| 0 <= i < s.len() ==> entry_agrees(index, side, #[trigger] s[i]),
    ensures
        resting_total(index, s) == crate::book::total(s),
    decreases s.len(),
{
    if s.len() > 0 {
        let t = s.drop_first();
        assert forall|i: int| 0 <= i < t.len() implies entry_agrees(index, side, #[trigger] t[i]) by {
            assert(t[i] == s[i + 1]);
        }
        assert(entry_agrees(index, side, s[0]));
        lemma_resting_total(index, side, t);
    }
}

/// The depth of a side is the sum of the remaining quantities of the orders resting on it.
pub proof fn lemma_depth_is_resting_total(e: TradingEngine, side: OrderSide)
    requires
        e.wf(),
    ensures
        e.book().depth_view(side) == resting_total(e.index(), e.book().side_view(side)),
{
    lemma_resting_total(e.index(), side, e.book().side_view(side));
}

/// No order resting in the book is completed, cancelled or closed.
pub proof fn lemma_resting_orders_live(e: TradingEngine, side: OrderSide, i: int)
    requires
        e.wf(),
        0 <= i < e.book().side_view(side).len(),
    ensures
        e.index().contains_key(e.book().side_view(side)[i].id),
        e.index()[e.book().side_view(side)[i].id].status == OrderStatus::Open
            || e.index()[e.book().side_view(side)[i].id].status == OrderStatus::Partial,
{
    lemma_agrees_at(e.index(), e.book(), side, i);
}

/// The best ask is no higher than any resting ask, and the best bid no lower than any
/// resting bid.
pub proof fn lemma_best_price_bounds(e: TradingEngine, i: int, j: int)
    requires
        e.wf(),
        0 <= i < e.book().side_view(OrderSide::Ask).len(),
        0 <= j < e.book().side_view(OrderSide::Bid).len(),
    ensures
        e.book().side_view(OrderSide::Ask)[0].price <= e.book().side_view(OrderSide::Ask)[i].price,
        e.book().side_view(OrderSide::Bid)[0].price >= e.book().side_view(OrderSide::Bid)[j].price,
{
    let a = e.book().side_view(OrderSide::Ask);
    let b = e.book().side_view(OrderSide::Bid);
    if i > 0 {
        assert(crate::book::ranks_before(OrderSide::Ask, a[0].price, a[i].price));
    }
    if j > 0 {
        assert(crate::book::ranks_before(OrderSide::Bid, b[0].price, b[j].price));
    }
}

/// A matching run trades the smaller of what the incoming order has left and what it can
/// reach on the opposite side, and the `k`-th trade is at the price of the `k`-th resting entry,
/// with that entry's order as maker.
pub proof fn lemma_run_trades(taker: u64, side: OrderSide, price: u64, rem: u64, opp: Seq<BookEntry>)
    ensures
        traded_total(run_match(taker, side, price, rem, opp).1) == min_nat(rem as nat, crossable_total(side, price, opp)),
        run_match(taker, side, price, rem, opp).3 == rem - min_nat(rem as nat, crossable_total(side, price, opp)),
        run_match(taker, side, price, rem, opp).1.len() <= opp.len(),
        forall|k: int| 0 <= k < run_match(taker, side, price, rem, opp).1.len() ==> {
            &&& (#[trigger] run_match(taker, side, price, rem, opp).1[k]).price == opp[k].price
            &&& run_match(taker, side, price, rem, opp).1[k].maker_id == OrderId(opp[k].id)
            &&& run_match(taker, side, price, rem, opp).1[k].taker_id == OrderId(taker)
        },
    decreases opp.len(),
{
    let run = run_match(taker, side, price, rem, opp);
    if rem == 0 || opp.len() == 0 || !prices_cross(side, price, opp[0].price) {
        assert(traded_total(run.1) == 0);
    } else {
        let head = opp[0];
        let rest = opp.drop_first();
        if head.remaining >= rem {
            let t = run.1;
            assert(t.drop_first() =~= Seq::<Trade>::empty());
            assert(traded_total(t) == rem + traded_total(t.drop_first()));
        } else {
            lemma_run_trades(taker, side, price, (rem - head.remaining) as u64, rest);
            let next = run_match(taker, side, price, (rem - head.remaining) as u64, rest);
            let t = run.1;
            assert(t.drop_first() =~= next.1);
            assert forall|k: int| 0 <= k < t.len() implies {
                &&& (#[trigger] t[k]).price == opp[k].price
                &&& t[k].maker_id == OrderId(opp[k].id)
                &&& t[k].taker_id == OrderId(taker)
            } by {
                if k > 0 {
                    assert(t[k] == next.1[k - 1]);
                    assert(opp[k] == rest[k - 1]);
                }
            }
        }
    }
}

/// An accepted submission trades the smaller of its amount and the crossing quantity resting
/// on the opposite side, each trade at a resting order's price, that order being the maker.
pub proof fn lemma_submission_trades(before: TradingEngine, order: Order, after: TradingEngine)
    requires
        before.wf(),
        submission(before, order, Ok(()), after),
    ensures
        ({
            let opp = before.book().side_view(opposite_of(order.side));
            let new_trades = after.trade_log().skip(before.trade_log().len() as int);
            &&& traded_total(new_trades) == min_nat(order.amount.0 as nat, crossable_total(order.side, order.limit_price.0, opp))
            &&& forall|k: int| 0 <= k < new_trades.len() ==> {
                &&& (#[trigger] new_trades[k]).price == opp[k].price
                &&& new_trades[k].maker_id == OrderId(opp[k].id)
                &&& new_trades[k].taker_id == order.id
            }
        }),
{
    let opp = before.book().side_view(opposite_of(order.side));
    let run = run_match(order.id.0, order.side, order.limit_price.0, order.amount.0, opp);
    lemma_run_trades(order.id.0, order.side, order.limit_price.0, order.amount.0, opp);
    assert(after.trade_log().skip(before.trade_log().len() as int) =~= run.1);
}

/// Cancelling an indexed order hands it back the first time and nothing the second time; the
/// engine stays well formed throughout.
pub proof fn lemma_cancel_twice(
    e0: TradingEngine,
    id: u64,
    r1: Option<Order>,
    e1: TradingEngine,
    r2: Option<Order>,
    e2: TradingEngine,
)
    requires
        e0.wf(),
        e0.index().contains_key(id),
        cancellation(e0, id, r1, e1),
        cancellation(e1, id, r2, e2),
    ensures
        r1.is_some(),
        r1.unwrap().id == e0.index()[id].id,
        r2.is_none(),
        e1.wf(),
        e2.wf(),
{
    assert(!e1.index().contains_key(id));
}

/// An order submitted to an empty book and then cancelled leaves the book empty, with no
/// depth on either side.
pub proof fn lemma_submit_then_cancel(
    e0: TradingEngine,
    order: Order,
    e1: TradingEngine,
    r: Option<Order>,
    e2: TradingEngine,
)
    requires
        e0.wf(),
        e0.book().side_view(OrderSide::Ask).len() == 0,
        e0.book().side_view(OrderSide::Bid).len() == 0,
        submission(e0, order, Ok(()), e1),
        cancellation(e1, order.id.0, r, e2),
    ensures
        e2.book().side_view(OrderSide::Ask).len() == 0,
        e2.book().side_view(OrderSide::Bid).len() == 0,
        e2.book().depth_view(OrderSide::Ask) == 0,
        e2.book().depth_view(OrderSide::Bid) == 0,
{
    let side = order.side;
    let opp = opposite_of(side);
    let id = order.id.0;
    let run = run_match(id, side, order.limit_price.0, order.amount.0, e0.book().side_view(opp));
    assert(run.2 == e0.book().side_view(opp));
    let entry = BookEntry { id, price: order.limit_price.0, remaining: run.3 };
    if run.3 > 0 && order.initial_kind == OrderKind::Limit {
        assert(e1.book().side_view(side) == seq![entry]);
        assert(e1.index().contains_key(id));
        let s = e1.book().side_view(side);
        let k = choose|k: int| 0 <= k < s.len() && #[trigger] s[k].id == id && e2.book().side_view(side) == s.remove(k);
        assert(k == 0);
        assert(e2.book().side_view(side).len() == 0);
    } else {
        assert(!e1.index().contains_key(id));
    }
    if side == OrderSide::Ask {
        assert(e2.book().side_view(OrderSide::Bid).len() == 0);
    } else {
        assert(e2.book().side_view(OrderSide::Ask).len() == 0);
    }
    assert(e2.book().side_view(OrderSide::Ask) =~= Seq::<BookEntry>::empty());
    assert(e2.book().side_view(OrderSide::Bid) =~= Seq::<BookEntry>::empty());
}

} // verus!
