use std::any::Any;
use std::any::TypeId;

use unsafe_trading::Amount;
use unsafe_trading::AskOrder;
use unsafe_trading::BidOrder;
use unsafe_trading::Exchangeable;
use unsafe_trading::LimitPrice;
use unsafe_trading::Order;
use unsafe_trading::OrderId;
use unsafe_trading::OrderKind;
use unsafe_trading::OrderSide;
use unsafe_trading::OrderStatus;
use unsafe_trading::Trade;

const EXAMPLE_ORDER: Order = Order {
    id: OrderId(1),
    side: OrderSide::Ask,
    amount: Amount(100),
    remaining: Amount(100),
    limit_price: LimitPrice(500),
    initial_kind: OrderKind::Limit,
    current_kind: OrderKind::Limit,
    status: OrderStatus::Open,
    created_at: 0,
};

fn example(id: u64, side: OrderSide, price: u64) -> Order {
    let mut order = EXAMPLE_ORDER;
    order.id = OrderId(id);
    order.side = side;
    order.limit_price = LimitPrice(price);
    order
}

#[test]
fn amount_add_sub_ops() {
    let mut amount_1 = Amount(10);
    let amount_2 = Amount(20);

    assert_eq!(amount_1 + amount_2, Amount(30));
    assert_eq!(amount_2 - amount_1, Amount(10));

    amount_1 += amount_2;

    assert_eq!(amount_1, Amount(30));

    amount_1 -= amount_2;

    assert_eq!(amount_1, Amount(10));
}

#[test]
fn amount_assign_ops_saturate() {
    let mut a = Amount(u64::MAX - 1);
    a += Amount(5);
    assert_eq!(a, Amount(u64::MAX));
    let mut b = Amount(3);
    b -= Amount(5);
    assert_eq!(b, Amount(0));
    assert!(b.is_zero());
    assert!(!Amount::new(1).is_zero());
}

#[test]
fn scalar_constructors() {
    assert_eq!(OrderId::new(7), OrderId(7));
    assert_eq!(LimitPrice::new(8), LimitPrice(8));
    assert_eq!(Amount::new(9), Amount(9));
    assert_eq!(OrderStatus::default(), OrderStatus::Open);
}

#[test]
fn order_new_is_open_and_whole() {
    let o = Order::new(OrderId(3), OrderKind::Limit, OrderSide::Bid, Amount(40), LimitPrice(12));
    assert_eq!(o.id, OrderId(3));
    assert_eq!(o.initial_kind, OrderKind::Limit);
    assert_eq!(o.current_kind, OrderKind::Limit);
    assert_eq!(o.side, OrderSide::Bid);
    assert_eq!(o.amount, Amount(40));
    assert_eq!(o.remaining, Amount(40));
    assert_eq!(o.limit_price, LimitPrice(12));
    assert_eq!(o.status, OrderStatus::Open);
    assert_eq!(o.created_at, 0);
}

#[test]
fn matching() {
    // Perfect matching
    {
        let mut ask_order = example(101, OrderSide::Ask, 500);
        let mut bid_order = example(102, OrderSide::Bid, 500);

        assert!(ask_order.matches_with(&bid_order));
        assert!(ask_order.trade(&mut bid_order).is_some());
    }

    // Taker advantage
    {
        let trade_1a = {
            let mut ask_order = example(103, OrderSide::Ask, 400);
            let mut bid_order = example(104, OrderSide::Bid, 500);
            ask_order.trade(&mut bid_order).unwrap()
        };

        let trade_2a = {
            let mut ask_order = example(105, OrderSide::Ask, 400);
            let mut bid_order = example(106, OrderSide::Bid, 500);
            bid_order.trade(&mut ask_order).unwrap()
        };

        let trade_1b = {
            let mut ask_order = AskOrder(example(107, OrderSide::Ask, 400));
            let mut bid_order = BidOrder(example(108, OrderSide::Bid, 500));
            ask_order.trade(&mut bid_order).unwrap()
        };

        let trade_2b = {
            let mut ask_order = AskOrder(example(109, OrderSide::Ask, 400));
            let mut bid_order = BidOrder(example(110, OrderSide::Bid, 500));
            bid_order.trade(&mut ask_order).unwrap()
        };

        assert_eq!(trade_1a.price, 500);
        assert_eq!(trade_2a.price, 400);
        assert_eq!(trade_1b.price, 500);
        assert_eq!(trade_2b.price, 400);
    }
}

#[test]
fn no_matching() {
    let trade_1a = {
        let mut ask_order = example(201, OrderSide::Ask, 500);
        let mut bid_order = example(202, OrderSide::Bid, 400);
        ask_order.trade(&mut bid_order)
    };

    let trade_2a = {
        let mut ask_order = example(203, OrderSide::Ask, 500);
        let mut bid_order = example(204, OrderSide::Bid, 400);
        bid_order.trade(&mut ask_order)
    };

    let trade_3 = {
        let mut ask_order_1 = example(205, OrderSide::Ask, 500);
        let mut ask_order_2 = example(206, OrderSide::Ask, 500);
        ask_order_1.trade(&mut ask_order_2)
    };

    let trade_1b = {
        let mut ask_order = AskOrder(example(207, OrderSide::Ask, 500));
        let mut bid_order = BidOrder(example(208, OrderSide::Bid, 400));
        ask_order.trade(&mut bid_order)
    };

    let trade_2b = {
        let mut ask_order = AskOrder(example(209, OrderSide::Ask, 500));
        let mut bid_order = BidOrder(example(210, OrderSide::Bid, 400));
        bid_order.trade(&mut ask_order)
    };

    assert!(trade_1a.is_none());
    assert!(trade_2a.is_none());
    assert!(trade_1b.is_none());
    assert!(trade_2b.is_none());
    assert!(trade_3.is_none());
}

#[test]
fn partial_match() {
    let mut ask_order = example(301, OrderSide::Ask, 500);
    ask_order.amount = Amount(50);
    ask_order.remaining = ask_order.amount;

    let mut bid_order = example(302, OrderSide::Bid, 500);
    bid_order.amount = Amount(100);
    bid_order.remaining = bid_order.amount;

    let _trade = Trade::try_new(&mut ask_order, &mut bid_order);

    assert_eq!(ask_order.status, OrderStatus::Completed);
    assert_eq!(bid_order.status, OrderStatus::Partial);

    let mut ask_order = example(303, OrderSide::Ask, 500);
    ask_order.amount = Amount(50);
    ask_order.remaining = ask_order.amount;

    let mut bid_order = example(304, OrderSide::Bid, 500);
    bid_order.amount = Amount(100);
    bid_order.remaining = bid_order.amount;

    let _trade = Trade::try_new(&mut bid_order, &mut ask_order);

    assert_eq!(ask_order.status, OrderStatus::Completed);
    assert_eq!(bid_order.status, OrderStatus::Partial);
}

#[test]
fn trade_records_amounts_and_labels() {
    let mut taker = example(11, OrderSide::Bid, 500);
    taker.amount = Amount(30);
    taker.remaining = Amount(30);
    let mut maker = example(12, OrderSide::Ask, 450);
    let t = taker.trade(&mut maker).unwrap();
    assert_eq!(t.maker_id, OrderId(12));
    assert_eq!(t.taker_id, OrderId(11));
    assert_eq!(t.price, 450);
    assert_eq!(t.amount, Amount(30));
    assert_eq!(taker.remaining, Amount(0));
    assert_eq!(taker.status, OrderStatus::Completed);
    assert_eq!(maker.remaining, Amount(70));
    assert_eq!(maker.status, OrderStatus::Partial);
}

#[test]
fn side_wrappers_compare_prices_only() {
    let ask = AskOrder(example(21, OrderSide::Ask, 400));
    let bid = BidOrder(example(22, OrderSide::Bid, 400));
    assert!(ask.matches_with(&bid));
    assert!(bid.matches_with(&ask));
    let high_ask = AskOrder(example(23, OrderSide::Ask, 401));
    assert!(!high_ask.matches_with(&bid));
    assert!(!bid.matches_with(&high_ask));
}

#[test]
fn closed_and_cancelled() {
    let mut open_order = {
        let mut order = EXAMPLE_ORDER;
        order.id = OrderId(401);
        order.amount = Amount(100);
        order.remaining = order.amount;
        order.status = OrderStatus::Open;
        order
    };
    let mut partial_order = {
        let mut order = open_order;
        order.id = OrderId(402);
        order.remaining = Amount(50);
        order.status = OrderStatus::Partial;
        order
    };

    assert_eq!(open_order.status, OrderStatus::Open);
    assert_eq!(partial_order.status, OrderStatus::Partial);

    open_order.cancel();
    partial_order.cancel();

    assert_eq!(open_order.status, OrderStatus::Cancelled);
    assert_eq!(partial_order.status, OrderStatus::Closed);
}

#[test]
fn new_trade() {
    let mut ask_order = example(501, OrderSide::Ask, 500);
    let mut bid_order = example(502, OrderSide::Bid, 500);

    assert!(Trade::try_new(&mut ask_order, &mut bid_order).is_some());

    let mut ask_order_1 = example(503, OrderSide::Ask, 500);
    let mut ask_order_2 = example(504, OrderSide::Ask, 500);

    assert!(Trade::try_new(&mut ask_order_1, &mut ask_order_2).is_none());
}

#[test]
fn opposite_side() {
    assert_eq!(OrderSide::opposite(&OrderSide::Ask), OrderSide::Bid);
    assert_eq!(OrderSide::opposite(&OrderSide::Bid), OrderSide::Ask);
}

#[test]
fn ordering() {
    let order_1 = {
        let mut order = EXAMPLE_ORDER;
        order.id = OrderId(1);
        order.limit_price = LimitPrice(100);
        order
    };

    let order_2 = {
        let mut order = EXAMPLE_ORDER;
        order.id = OrderId(2);
        order.limit_price = LimitPrice(200);
        order
    };

    let order_3 = {
        let mut order = EXAMPLE_ORDER;
        order.id = OrderId(3);
        order.limit_price = LimitPrice(100);
        order
    };

    assert_eq!(order_1, order_1);
    assert_ne!(order_1, order_2);
    assert_ne!(order_1, order_3);

    assert!(order_1 < order_2);
    assert!(order_1 < order_3);
    assert!(order_2 > order_3);
}

#[test]
fn ask_order_from_into() {
    let (order, ask_order) = {
        let mut order = EXAMPLE_ORDER;
        order.side = OrderSide::Ask;

        let ask_order: AskOrder = order.into();
        let order: Order = ask_order.clone().into();

        (order, ask_order)
    };

    assert_eq!(ask_order.type_id(), TypeId::of::<AskOrder>());
    assert_eq!(order.type_id(), TypeId::of::<Order>());
}

#[test]
fn bid_order_from_into() {
    let (order, bid_order) = {
        let mut order = EXAMPLE_ORDER;
        order.side = OrderSide::Bid;

        let bid_order: BidOrder = order.into();
        let order: Order = bid_order.clone().into();

        (order, bid_order)
    };

    assert_eq!(bid_order.type_id(), TypeId::of::<BidOrder>());
    assert_eq!(order.type_id(), TypeId::of::<Order>());
}
