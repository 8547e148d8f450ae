use vstd::prelude::*;

verus! {

/// How an order is meant to execute. Only `Limit` orders are matched and rest in the book.
#[derive(Clone, Copy, Debug, PartialEq, Eq, Structural, Hash)]
pub enum OrderKind {
    Limit,
    Market,
    Stop,
    Trailing,
}

/// The side of the book an order belongs to.
#[derive(Clone, Copy, Debug, PartialEq, Eq, Structural, Hash)]
pub enum OrderSide {
    Ask,
    Bid,
}

pub open spec fn opposite_of(side: OrderSide) -> OrderSide {
    match side {
        OrderSide::Ask => OrderSide::Bid,
        OrderSide::Bid => OrderSide::Ask,
    }
}

impl OrderSide {
    pub fn opposite(&self) -> (r: OrderSide)
        ensures
            r == opposite_of(*self),
    {
        match self {
            OrderSide::Ask => OrderSide::Bid,
            OrderSide::Bid => OrderSide::Ask,
        }
    }
}

/// Lifecycle state of an order.
#[derive(Clone, Copy, Debug, PartialEq, Eq, Structural, Hash)]
pub enum OrderStatus {
    Open,
    Partial,
    Completed,
    Closed,
    Cancelled,
}

impl Default for OrderStatus {
    fn default() -> (r: OrderStatus)
        ensures
            r == OrderStatus::Open,
    {
        OrderStatus::Open
    }
}

#[derive(Clone, Copy, Debug, PartialEq, Eq, Structural, Hash, PartialOrd, Ord)]
pub struct OrderId(pub u64);

impl OrderId {
    pub fn new(order_id: u64) -> (r: OrderId)
        ensures
            r.0 == order_id,
    {
        OrderId(order_id)
    }
}

#[derive(Clone, Copy, Debug, PartialEq, Eq, Structural, Hash, PartialOrd, Ord)]
pub struct LimitPrice(pub u64);

impl LimitPrice {
    pub fn new(limit_price: u64) -> (r: LimitPrice)
        ensures
            r.0 == limit_price,
    {
        LimitPrice(limit_price)
    }
}

/// A quantity of the traded instrument.
#[derive(Clone, Copy, Debug, PartialEq, Eq, Structural, Hash, PartialOrd, Ord)]
pub struct Amount(pub u64);

impl Amount {
    pub fn new(amount: u64) -> (r: Amount)
        ensures
            r.0 == amount,
    {
        Amount(amount)
    }

    pub fn is_zero(&self) -> (r: bool)
        ensures
            r == (self.0 == 0),
    {
        self.0 == 0
    }
}

/// `+` on amounts: callers must show that the sum fits.
impl core::ops::Add for Amount {
    type Output = Amount;

    fn add(self, rhs: Amount) -> (r: Amount) {
        Amount(self.0 + rhs.0)
    }
}

impl vstd::std_specs::ops::AddSpecImpl for Amount {
    open spec fn obeys_add_spec() -> bool {
        true
    }

    open spec fn add_req(self, rhs: Amount) -> bool {
        self.0 + rhs.0 <= u64::MAX
    }

    open spec fn add_spec(self, rhs: Amount) -> Amount {
        Amount((self.0 + rhs.0) as u64)
    }
}

/// `-` on amounts: callers must show that the right operand does not exceed the left.
impl core::ops::Sub for Amount {
    type Output = Amount;

    fn sub(self, rhs: Amount) -> (r: Amount) {
        Amount(self.0 - rhs.0)
    }
}

impl vstd::std_specs::ops::SubSpecImpl for Amount {
    open spec fn obeys_sub_spec() -> bool {
        true
    }

    open spec fn sub_req(self, rhs: Amount) -> bool {
        rhs.0 <= self.0
    }

    open spec fn sub_spec(self, rhs: Amount) -> Amount {
        Amount((self.0 - rhs.0) as u64)
    }
}

/// `+=` saturates at the largest amount.
impl core::ops::AddAssign for Amount {
    fn add_assign(&mut self, rhs: Amount)
        ensures
            final(self).0 == if old(self).0 + rhs.0 <= u64::MAX {
                (old(self).0 + rhs.0) as u64
            } else {
                u64::MAX
            },
    {
        self.0 = self.0.saturating_add(rhs.0);
    }
}

/// `-=` saturates at zero.
impl core::ops::SubAssign for Amount {
    fn sub_assign(&mut self, rhs: Amount)
        ensures
            final(self).0 == if rhs.0 <= old(self).0 {
                (old(self).0 - rhs.0) as u64
            } else {
                0
            },
    {
        self.0 = self.0.saturating_sub(rhs.0);
    }
}

/// The ledger entry of one order.
#[derive(Clone, Copy, Debug)]
pub struct Order {
    pub id: OrderId,
    pub initial_kind: OrderKind,
    pub current_kind: OrderKind,
    pub side: OrderSide,
    pub amount: Amount,
    pub remaining: Amount,
    pub limit_price: LimitPrice,
    pub status: OrderStatus,
    pub created_at: u128,
}

/// An executed exchange between a resting order (maker) and an incoming one (taker).
#[derive(Clone, Copy, Debug, PartialEq, Eq, Structural)]
pub struct Trade {
    pub maker_id: OrderId,
    pub taker_id: OrderId,
    pub price: u64,
    pub amount: Amount,
    pub created_at: u128,
}

/// Whether an order on `side` at `price` crosses a resting order on the other side at `other`.
pub open spec fn prices_cross(side: OrderSide, price: u64, other: u64) -> bool {
    match side {
        OrderSide::Ask => price <= other,
        OrderSide::Bid => price >= other,
    }
}

/// Two orders match when they stand on opposite sides and their prices cross.
pub open spec fn orders_match(a: Order, b: Order) -> bool {
    a.side != b.side && prices_cross(a.side, a.limit_price.0, b.limit_price.0)
}

pub open spec fn min_u64(a: u64, b: u64) -> u64 {
    if a <= b { a } else { b }
}

pub open spec fn max_u64(a: u64, b: u64) -> u64 {
    if a >= b { a } else { b }
}

/// The order after `m` of its remaining quantity has been filled.
pub open spec fn filled(o: Order, m: u64) -> Order {
    let rem = (o.remaining.0 - m) as u64;
    Order {
        remaining: Amount(rem),
        status: if rem == 0 { OrderStatus::Completed } else { OrderStatus::Partial },
        ..o
    }
}

/// What trading `taker` against `maker` gives: the trade, and both orders afterwards.
pub open spec fn exchange(taker: Order, maker: Order) -> (Option<Trade>, Order, Order) {
    if orders_match(taker, maker) {
        let m = min_u64(taker.remaining.0, maker.remaining.0);
        let price = match taker.side {
            OrderSide::Ask => max_u64(taker.limit_price.0, maker.limit_price.0),
            OrderSide::Bid => min_u64(taker.limit_price.0, maker.limit_price.0),
        };
        (
            Some(
                Trade {
                    maker_id: maker.id,
                    taker_id: taker.id,
                    price,
                    amount: Amount(m),
                    created_at: 0,
                },
            ),
            filled(taker, m),
            filled(maker, m),
        )
    } else {
        (None, taker, maker)
    }
}

/// The result of a trade attempt: when the two sides accept each other, exactly what
/// `exchange` gives; otherwise no trade and both orders unchanged.
pub open spec fn trade_outcome(
    taker: Order,
    maker: Order,
    accepted: bool,
    r: Option<Trade>,
    taker_after: Order,
    maker_after: Order,
) -> bool {
    if accepted {
        (r, taker_after, maker_after) == exchange(taker, maker)
    } else {
        r.is_none() && taker_after == taker && maker_after == maker
    }
}

impl Order {
    pub fn new(
        id: OrderId,
        kind: OrderKind,
        side: OrderSide,
        amount: Amount,
        limit_price: LimitPrice,
    ) -> (r: Order)
        ensures
            r == (Order {
                id,
                initial_kind: kind,
                current_kind: kind,
                side,
                amount,
                remaining: amount,
                limit_price,
                status: OrderStatus::Open,
                created_at: 0,
            }),
    {
        Order {
            id,
            initial_kind: kind,
            current_kind: kind,
            side,
            amount,
            remaining: amount,
            limit_price,
            status: OrderStatus::Open,
            created_at: 0,
        }
    }

    /// Marks the order `Cancelled` when nothing of it was filled, `Closed` otherwise.
    pub fn cancel(&mut self)
        ensures
            *final(self) == (Order {
                status: if old(self).remaining == old(self).amount {
                    OrderStatus::Cancelled
                } else {
                    OrderStatus::Closed
                },
                ..*old(self)
            }),
    {
        self.status = if self.remaining.0 == self.amount.0 {
            OrderStatus::Cancelled
        } else {
            OrderStatus::Closed
        };
    }

    fn fill(&mut self, m: u64)
        requires
            m <= old(self).remaining.0,
        ensures
            *final(self) == filled(*old(self), m),
    {
        self.remaining = Amount(self.remaining.0 - m);
        self.status = if self.remaining.0 == 0 {
            OrderStatus::Completed
        } else {
            OrderStatus::Partial
        };
    }
}

/// Two orders are equal when they carry the same id.
impl PartialEq for Order {
    fn eq(&self, other: &Order) -> (r: bool) {
        self.id.0 == other.id.0
    }
}

impl vstd::std_specs::cmp::PartialEqSpecImpl for Order {
    open spec fn obeys_eq_spec() -> bool {
        true
    }

    open spec fn eq_spec(&self, other: &Order) -> bool {
        self.id.0 == other.id.0
    }
}

impl Eq for Order {

}

/// Orders are ranked by limit price, then by id.
pub open spec fn order_rank(a: Order, b: Order) -> core::cmp::Ordering {
    if a.limit_price.0 < b.limit_price.0 {
        core::cmp::Ordering::Less
    } else if a.limit_price.0 > b.limit_price.0 {
        core::cmp::Ordering::Greater
    } else if a.id.0 < b.id.0 {
        core::cmp::Ordering::Less
    } else if a.id.0 > b.id.0 {
        core::cmp::Ordering::Greater
    } else {
        core::cmp::Ordering::Equal
    }
}

impl PartialOrd for Order {
    fn partial_cmp(&self, other: &Order) -> (r: Option<core::cmp::Ordering>) {
        if self.limit_price.0 < other.limit_price.0 {
            Some(core::cmp::Ordering::Less)
        } else if self.limit_price.0 > other.limit_price.0 {
            Some(core::cmp::Ordering::Greater)
        } else if self.id.0 < other.id.0 {
            Some(core::cmp::Ordering::Less)
        } else if self.id.0 > other.id.0 {
            Some(core::cmp::Ordering::Greater)
        } else {
            Some(core::cmp::Ordering::Equal)
        }
    }
}

impl vstd::std_specs::cmp::PartialOrdSpecImpl for Order {
    open spec fn obeys_partial_cmp_spec() -> bool {
        true
    }

    open spec fn partial_cmp_spec(&self, other: &Order) -> Option<core::cmp::Ordering> {
        Some(order_rank(*self, *other))
    }
}

/// Something that can be traded against an order of the opposite kind.
pub trait Exchangeable: Sized {
    type Opposite;

    /// The order this value stands for.
    spec fn as_order(&self) -> Order;

    /// The order an opposite value stands for.
    spec fn opposite_order(other: &Self::Opposite) -> Order;

    /// Whether `self` accepts a trade with `other`.
    spec fn accepts(&self, other: &Self::Opposite) -> bool;

    fn matches_with(&self, other: &Self::Opposite) -> (r: bool)
        ensures
            r == self.accepts(other),
    ;

    /// Trades `self`, the taker, against `other`, the maker, when they accept each other.
    fn trade(&mut self, other: &mut Self::Opposite) -> (r: Option<Trade>)
        ensures
            trade_outcome(old(self).as_order(), Self::opposite_order(old(other)), old(self).accepts(old(other)), r, final(self).as_order(), Self::opposite_order(final(other))),
    ;
}

impl Exchangeable for Order {
    type Opposite = Order;

    open spec fn opposite_order(other: &Order) -> Order {
        *other
    }

    open spec fn as_order(&self) -> Order {
        *self
    }

    open spec fn accepts(&self, other: &Order) -> bool {
        orders_match(*self, *other)
    }

    fn matches_with(&self, other: &Order) -> (r: bool) {
        match (self.side, other.side) {
            (OrderSide::Ask, OrderSide::Bid) => self.limit_price.0 <= other.limit_price.0,
            (OrderSide::Bid, OrderSide::Ask) => self.limit_price.0 >= other.limit_price.0,
            _ => false,
        }
    }

    fn trade(&mut self, other: &mut Order) -> (r: Option<Trade>) {
        if self.matches_with(other) {
            let amount = if self.remaining.0 <= other.remaining.0 {
                self.remaining.0
            } else {
                other.remaining.0
            };
            let price = match self.side {
                OrderSide::Ask => if self.limit_price.0 >= other.limit_price.0 {
                    self.limit_price.0
                } else {
                    other.limit_price.0
                },
                OrderSide::Bid => if self.limit_price.0 <= other.limit_price.0 {
                    self.limit_price.0
                } else {
                    other.limit_price.0
                },
            };
            self.fill(amount);
            other.fill(amount);
            Some(
                Trade {
                    maker_id: other.id,
                    taker_id: self.id,
                    price,
                    amount: Amount(amount),
                    created_at: 0,
                },
            )
        } else {
            None
        }
    }
}

/// An order known to stand on the ask side.
#[derive(Clone, Copy, Debug)]
pub struct AskOrder(pub Order);

/// An order known to stand on the bid side.
#[derive(Clone, Copy, Debug)]
pub struct BidOrder(pub Order);

impl Exchangeable for AskOrder {
    type Opposite = BidOrder;

    open spec fn opposite_order(other: &BidOrder) -> Order {
        other.0
    }

    open spec fn as_order(&self) -> Order {
        self.0
    }

    open spec fn accepts(&self, other: &BidOrder) -> bool {
        self.0.limit_price.0 <= other.0.limit_price.0
    }

    fn matches_with(&self, other: &BidOrder) -> (r: bool) {
        self.0.limit_price.0 <= other.0.limit_price.0
    }

    fn trade(&mut self, other: &mut BidOrder) -> (r: Option<Trade>) {
        if self.matches_with(other) {
            self.0.trade(&mut other.0)
        } else {
            None
        }
    }
}

impl Exchangeable for BidOrder {
    type Opposite = AskOrder;

    open spec fn opposite_order(other: &AskOrder) -> Order {
        other.0
    }

    open spec fn as_order(&self) -> Order {
        self.0
    }

    open spec fn accepts(&self, other: &AskOrder) -> bool {
        self.0.limit_price.0 >= other.0.limit_price.0
    }

    fn matches_with(&self, other: &AskOrder) -> (r: bool) {
        self.0.limit_price.0 >= other.0.limit_price.0
    }

    fn trade(&mut self, other: &mut AskOrder) -> (r: Option<Trade>) {
        if self.matches_with(other) {
            self.0.trade(&mut other.0)
        } else {
            None
        }
    }
}

impl From<Order> for AskOrder {
    fn from(order: Order) -> (r: AskOrder) {
        AskOrder(order)
    }
}

impl vstd::std_specs::convert::FromSpecImpl<Order> for AskOrder {
    open spec fn obeys_from_spec() -> bool {
        true
    }

    open spec fn from_spec(order: Order) -> AskOrder {
        AskOrder(order)
    }
}

impl From<Order> for BidOrder {
    fn from(order: Order) -> (r: BidOrder) {
        BidOrder(order)
    }
}

impl vstd::std_specs::convert::FromSpecImpl<Order> for BidOrder {
    open spec fn obeys_from_spec() -> bool {
        true
    }

    open spec fn from_spec(order: Order) -> BidOrder {
        BidOrder(order)
    }
}

impl From<AskOrder> for Order {
    fn from(order: AskOrder) -> (r: Order) {
        order.0
    }
}

impl vstd::std_specs::convert::FromSpecImpl<AskOrder> for Order {
    open spec fn obeys_from_spec() -> bool {
        true
    }

    open spec fn from_spec(order: AskOrder) -> Order {
        order.0
    }
}

impl From<BidOrder> for Order {
    fn from(order: BidOrder) -> (r: Order) {
        order.0
    }
}

impl vstd::std_specs::convert::FromSpecImpl<BidOrder> for Order {
    open spec fn obeys_from_spec() -> bool {
        true
    }

    open spec fn from_spec(order: BidOrder) -> Order {
        order.0
    }
}

impl Trade {
    /// Trades `maker` against `taker` through their `Exchangeable` impls.
    pub fn try_new<T: Exchangeable>(maker: &mut T, taker: &mut T::Opposite) -> (r: Option<Trade>)
        ensures
            trade_outcome(old(maker).as_order(), T::opposite_order(old(taker)), old(maker).accepts(old(taker)), r, final(maker).as_order(), T::opposite_order(final(taker))),
    {
        maker.trade(taker)
    }
}

} // verus!
