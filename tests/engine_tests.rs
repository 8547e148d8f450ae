use unsafe_trading::Amount;
use unsafe_trading::EngineError;
use unsafe_trading::LimitPrice;
use unsafe_trading::Order;
use unsafe_trading::OrderId;
use unsafe_trading::OrderKind;
use unsafe_trading::OrderSide;
use unsafe_trading::OrderStatus;
use unsafe_trading::TradingEngine;
use unsafe_trading::TradingEngineResponse as R;

const EXAMPLE_ORDER: Order = Order {
    id: OrderId(1),
    side: OrderSide::Ask,
    amount: Amount(100),
    remaining: Amount(100),
    limit_price: LimitPrice(500),
    initial_kind: OrderKind::Limit,
    current_kind: OrderKind::Limit,
    status: OrderStatus::Open,
    created_at: 0,
};

fn limit(id: u64, side: OrderSide, amount: u64, price: u64) -> Order {
    Order::new(OrderId(id), OrderKind::Limit, side, Amount(amount), LimitPrice(price))
}

fn id(n: u64) -> OrderId {
    OrderId(n)
}

#[test]
fn it_works() {
    let mut trading_engine = TradingEngine::with_capacity(1024);
    for i in 1..=11 {
        let mut order = EXAMPLE_ORDER;
        order.id = OrderId(i);
        assert!(trading_engine.try_insert(order).is_ok());
    }

    for i in 12..=17 {
        let mut order = EXAMPLE_ORDER;
        order.id = OrderId(i);
        order.side = OrderSide::Bid;
        order.amount = Amount(200);
        order.remaining = order.amount;
        assert!(trading_engine.try_insert(order).is_ok());
    }

    for event in trading_engine.events() {
        println!("{:?}", event);
    }
}

#[test]
fn many_asks_then_bids_settle_as_expected() {
    let mut e = TradingEngine::with_capacity(1024);
    for i in 1..=11 {
        let mut order = EXAMPLE_ORDER;
        order.id = OrderId(i);
        e.try_insert(order).unwrap();
    }
    assert_eq!(e.depth(OrderSide::Ask), Amount(1100));
    for i in 12..=17 {
        let mut order = EXAMPLE_ORDER;
        order.id = OrderId(i);
        order.side = OrderSide::Bid;
        order.amount = Amount(200);
        order.remaining = order.amount;
        e.try_insert(order).unwrap();
    }
    // 1100 offered, 1200 bid: the last bid keeps 100.
    assert_eq!(e.depth(OrderSide::Ask), Amount(0));
    assert_eq!(e.depth(OrderSide::Bid), Amount(100));
    let last = e.get(&id(17)).unwrap();
    assert_eq!(last.remaining, Amount(100));
    assert_eq!(last.status, OrderStatus::Partial);
    assert_eq!(e.trades().len(), 11);
}

#[test]
fn perfect_match_at_equal_prices() {
    let mut e = TradingEngine::new();
    e.try_insert(limit(1, OrderSide::Ask, 100, 500)).unwrap();
    e.try_insert(limit(2, OrderSide::Bid, 100, 500)).unwrap();
    let events = e.drain_events();
    assert_eq!(
        events,
        vec![
            R::OrderReceived { id: id(1) },
            R::OrderAddedToOrderbook { id: id(1) },
            R::OrderReceived { id: id(2) },
            R::OrderCompleted { id: id(1) },
            R::OrderRemovedFromOrderbook { id: id(1) },
            R::OrderCompleted { id: id(2) },
            R::OrderReceivedCompletedBeforeEnterInOrderbook { id: id(2) },
        ]
    );
    assert!(e.events().is_empty());
    let trades = e.drain_trades();
    assert_eq!(trades.len(), 1);
    assert_eq!(trades[0].maker_id, id(1));
    assert_eq!(trades[0].taker_id, id(2));
    assert_eq!(trades[0].price, 500);
    assert_eq!(trades[0].amount, Amount(100));
    assert!(e.trades().is_empty());
    assert_eq!(e.depth(OrderSide::Ask), Amount(0));
    assert_eq!(e.depth(OrderSide::Bid), Amount(0));
    assert!(e.get(&id(1)).is_none());
    assert!(e.get(&id(2)).is_none());
}

#[test]
fn taker_gets_the_makers_price() {
    let mut e = TradingEngine::new();
    e.try_insert(limit(1, OrderSide::Ask, 10, 400)).unwrap();
    e.try_insert(limit(2, OrderSide::Bid, 10, 500)).unwrap();
    let trades = e.trades();
    assert_eq!(trades.len(), 1);
    assert_eq!(trades[0].price, 400);
    assert_eq!(trades[0].amount, Amount(10));
    assert!(e.get(&id(1)).is_none());
    assert!(e.get(&id(2)).is_none());
}

#[test]
fn same_side_orders_do_not_cross() {
    let mut e = TradingEngine::new();
    e.try_insert(limit(1, OrderSide::Ask, 100, 500)).unwrap();
    e.try_insert(limit(2, OrderSide::Ask, 100, 400)).unwrap();
    assert!(e.trades().is_empty());
    assert_eq!(e.best_price(OrderSide::Ask), Some(LimitPrice(400)));
    assert_eq!(e.best_price(OrderSide::Bid), None);
    assert_eq!(e.level_count(OrderSide::Ask), 2);
    assert_eq!(e.level_count(OrderSide::Bid), 0);
    assert_eq!(e.depth(OrderSide::Ask), Amount(200));
    assert_eq!(e.get(&id(1)).unwrap().status, OrderStatus::Open);
    assert_eq!(e.get(&id(2)).unwrap().status, OrderStatus::Open);
}

#[test]
fn partial_fill_of_taker_rests_the_residual() {
    let mut e = TradingEngine::new();
    e.try_insert(limit(1, OrderSide::Ask, 50, 500)).unwrap();
    e.try_insert(limit(2, OrderSide::Ask, 50, 500)).unwrap();
    e.drain_events();
    e.try_insert(limit(3, OrderSide::Bid, 200, 500)).unwrap();
    assert_eq!(
        e.events().clone(),
        vec![
            R::OrderReceived { id: id(3) },
            R::OrderPartiallyFilled { id: id(3), previous_remaining: Amount(200), current_remaining: Amount(150) },
            R::OrderCompleted { id: id(1) },
            R::OrderRemovedFromOrderbook { id: id(1) },
            R::OrderPartiallyFilled { id: id(3), previous_remaining: Amount(150), current_remaining: Amount(100) },
            R::OrderCompleted { id: id(2) },
            R::OrderRemovedFromOrderbook { id: id(2) },
            R::OrderAddedToOrderbook { id: id(3) },
        ]
    );
    assert_eq!(e.trades().len(), 2);
    let o = e.get(&id(3)).unwrap();
    assert_eq!(o.remaining, Amount(100));
    assert_eq!(o.status, OrderStatus::Partial);
    assert_eq!(e.depth(OrderSide::Ask), Amount(0));
    assert_eq!(e.depth(OrderSide::Bid), Amount(100));
    assert_eq!(e.best_price(OrderSide::Bid), Some(LimitPrice(500)));

    // Cancelling the partially filled order closes it.
    let c = e.cancel(&id(3)).unwrap();
    assert_eq!(c.status, OrderStatus::Closed);
    assert_eq!(c.remaining, Amount(100));
    assert!(e.get(&id(3)).is_none());
    assert_eq!(e.depth(OrderSide::Bid), Amount(0));
    assert_eq!(e.best_price(OrderSide::Bid), None);
    assert_eq!(e.events().last(), Some(&R::OrderRemovedFromOrderbook { id: id(3) }));
}

#[test]
fn fifo_time_priority_at_a_level() {
    let mut e = TradingEngine::new();
    e.try_insert(limit(1, OrderSide::Ask, 50, 500)).unwrap();
    e.try_insert(limit(2, OrderSide::Ask, 50, 500)).unwrap();
    e.try_insert(limit(3, OrderSide::Bid, 50, 500)).unwrap();
    assert_eq!(e.trades().len(), 1);
    assert_eq!(e.trades()[0].maker_id, id(1));
    assert!(e.get(&id(1)).is_none());
    assert!(e.get(&id(2)).is_some());
    assert_eq!(e.depth(OrderSide::Ask), Amount(50));
}

#[test]
fn fifo_is_arrival_order_not_id_order() {
    let mut e = TradingEngine::new();
    e.try_insert(limit(9, OrderSide::Bid, 10, 300)).unwrap();
    e.try_insert(limit(4, OrderSide::Bid, 10, 300)).unwrap();
    e.try_insert(limit(5, OrderSide::Ask, 10, 300)).unwrap();
    assert_eq!(e.trades()[0].maker_id, id(9));
    assert!(e.get(&id(4)).is_some());
}

#[test]
fn best_price_is_served_first() {
    let mut e = TradingEngine::new();
    e.try_insert(limit(1, OrderSide::Bid, 10, 100)).unwrap();
    e.try_insert(limit(2, OrderSide::Bid, 10, 300)).unwrap();
    e.try_insert(limit(3, OrderSide::Bid, 10, 200)).unwrap();
    assert_eq!(e.best_price(OrderSide::Bid), Some(LimitPrice(300)));
    e.try_insert(limit(4, OrderSide::Ask, 25, 150)).unwrap();
    let trades = e.trades();
    assert_eq!(trades.len(), 2);
    assert_eq!((trades[0].maker_id, trades[0].price, trades[0].amount), (id(2), 300, Amount(10)));
    assert_eq!((trades[1].maker_id, trades[1].price, trades[1].amount), (id(3), 200, Amount(10)));
    // 5 left at 150 does not cross the bid at 100, so it rests.
    assert_eq!(e.get(&id(4)).unwrap().remaining, Amount(5));
    assert_eq!(e.best_price(OrderSide::Ask), Some(LimitPrice(150)));
    assert_eq!(e.best_price(OrderSide::Bid), Some(LimitPrice(100)));
}

#[test]
fn resting_order_partially_filled_keeps_its_place() {
    let mut e = TradingEngine::new();
    e.try_insert(limit(1, OrderSide::Ask, 100, 500)).unwrap();
    e.try_insert(limit(2, OrderSide::Ask, 100, 500)).unwrap();
    e.drain_events();
    e.try_insert(limit(3, OrderSide::Bid, 30, 500)).unwrap();
    assert_eq!(
        e.events().clone(),
        vec![
            R::OrderReceived { id: id(3) },
            R::OrderPartiallyFilled { id: id(1), previous_remaining: Amount(100), current_remaining: Amount(70) },
            R::OrderCompleted { id: id(3) },
            R::OrderReceivedCompletedBeforeEnterInOrderbook { id: id(3) },
        ]
    );
    let o = e.get(&id(1)).unwrap();
    assert_eq!(o.remaining, Amount(70));
    assert_eq!(o.status, OrderStatus::Partial);
    assert_eq!(e.depth(OrderSide::Ask), Amount(170));
    e.try_insert(limit(4, OrderSide::Bid, 10, 500)).unwrap();
    assert_eq!(e.trades()[1].maker_id, id(1));
}

#[test]
fn submission_errors() {
    let mut e = TradingEngine::new();
    e.try_insert(limit(1, OrderSide::Ask, 10, 500)).unwrap();
    let before = e.events().len();
    assert_eq!(e.try_insert(limit(1, OrderSide::Bid, 10, 500)), Err(EngineError::DuplicateId));
    assert_eq!(e.try_insert(limit(2, OrderSide::Bid, 0, 500)), Err(EngineError::InvalidOrder));
    let mut part = limit(3, OrderSide::Bid, 10, 500);
    part.remaining = Amount(5);
    assert_eq!(e.try_insert(part), Err(EngineError::InvalidOrder));
    let market = Order::new(id(4), OrderKind::Market, OrderSide::Bid, Amount(10), LimitPrice(500));
    assert_eq!(e.try_insert(market), Err(EngineError::UnsupportedKind));
    assert_eq!(e.events().len(), before);
    assert_eq!(e.depth(OrderSide::Ask), Amount(10));
    assert!(e.trades().is_empty());
}

#[test]
fn submitted_status_is_normalised_to_open() {
    let mut e = TradingEngine::default();
    let mut o = limit(1, OrderSide::Bid, 10, 500);
    o.status = OrderStatus::Completed;
    e.try_insert(o).unwrap();
    assert_eq!(e.get(&id(1)).unwrap().status, OrderStatus::Open);
}

#[test]
fn cancel_twice_gives_the_order_then_nothing() {
    let mut e = TradingEngine::new();
    e.try_insert(limit(1, OrderSide::Ask, 10, 500)).unwrap();
    let first = e.cancel(&id(1));
    assert_eq!(first.map(|o| o.status), Some(OrderStatus::Cancelled));
    assert_eq!(e.cancel(&id(1)), None);
    assert_eq!(e.depth(OrderSide::Ask), Amount(0));
}

#[test]
fn submit_then_cancel_leaves_an_empty_book() {
    let mut e = TradingEngine::new();
    e.try_insert(limit(1, OrderSide::Bid, 70, 300)).unwrap();
    assert_eq!(e.depth(OrderSide::Bid), Amount(70));
    assert!(e.cancel(&id(1)).is_some());
    assert_eq!(e.depth(OrderSide::Ask), Amount(0));
    assert_eq!(e.depth(OrderSide::Bid), Amount(0));
    assert_eq!(e.best_price(OrderSide::Ask), None);
    assert_eq!(e.best_price(OrderSide::Bid), None);
}

#[test]
fn depth_is_the_sum_of_resting_remaining() {
    let mut e = TradingEngine::new();
    e.try_insert(limit(1, OrderSide::Ask, 30, 510)).unwrap();
    e.try_insert(limit(2, OrderSide::Ask, 20, 520)).unwrap();
    e.try_insert(limit(3, OrderSide::Bid, 40, 400)).unwrap();
    e.try_insert(limit(4, OrderSide::Bid, 35, 515)).unwrap();
    let a = e.get(&id(2)).unwrap().remaining.0;
    let b = e.get(&id(3)).unwrap().remaining.0 + e.get(&id(4)).unwrap().remaining.0;
    assert_eq!(e.depth(OrderSide::Ask), Amount(a));
    assert_eq!(e.depth(OrderSide::Bid), Amount(b));
    assert_eq!(e.depth(OrderSide::Bid), Amount(45));
}

#[test]
fn traded_total_is_capped_by_crossing_liquidity() {
    let mut e = TradingEngine::new();
    e.try_insert(limit(1, OrderSide::Ask, 30, 100)).unwrap();
    e.try_insert(limit(2, OrderSide::Ask, 30, 110)).unwrap();
    e.try_insert(limit(3, OrderSide::Ask, 30, 130)).unwrap();
    e.try_insert(limit(4, OrderSide::Bid, 100, 120)).unwrap();
    let total: u64 = e.trades().iter().map(|t| t.amount.0).sum();
    assert_eq!(total, 60);
    let prices: Vec<u64> = e.trades().iter().map(|t| t.price).collect();
    assert_eq!(prices, vec![100, 110]);
    assert_eq!(e.get(&id(4)).unwrap().remaining, Amount(40));
}

#[test]
fn index_and_book_stay_consistent() {
    let mut e = TradingEngine::new();
    e.try_insert(limit(1, OrderSide::Ask, 30, 100)).unwrap();
    e.try_insert(limit(2, OrderSide::Bid, 10, 100)).unwrap();
    e.try_insert(limit(3, OrderSide::Bid, 50, 90)).unwrap();
    for n in 1..=3 {
        if let Some(o) = e.get(&id(n)) {
            assert!(o.remaining.0 <= o.amount.0);
            assert_eq!(o.status == OrderStatus::Completed, o.remaining.0 == 0);
            assert!(o.status == OrderStatus::Open || o.status == OrderStatus::Partial);
        }
    }
    assert!(e.get(&id(2)).is_none());
}

#[test]
fn remove_and_pop_from_orderbook() {
    let mut e = TradingEngine::new();
    e.try_insert(limit(1, OrderSide::Ask, 30, 100)).unwrap();
    e.try_insert(limit(2, OrderSide::Ask, 20, 90)).unwrap();
    let probe = limit(99, OrderSide::Bid, 1, 1);
    let popped = e.pop_from_orderbook(&probe).unwrap();
    assert_eq!(popped.id, id(2));
    assert_eq!(popped.status, OrderStatus::Open);
    assert!(e.get(&id(2)).is_none());
    assert_eq!(e.depth(OrderSide::Ask), Amount(30));
    let removed = e.remove(&id(1)).unwrap();
    assert_eq!(removed.status, OrderStatus::Open);
    assert_eq!(e.depth(OrderSide::Ask), Amount(0));
    assert!(e.pop_from_orderbook(&probe).is_none());
    assert!(e.remove(&id(1)).is_none());
}

#[test]
fn non_limit_initial_kind_does_not_rest() {
    let mut e = TradingEngine::new();
    let mut o = limit(1, OrderSide::Bid, 10, 500);
    o.initial_kind = OrderKind::Stop;
    e.try_insert(o).unwrap();
    assert!(e.get(&id(1)).is_none());
    assert_eq!(e.events().last(), Some(&R::OrderReceivedCompletedBeforeEnterInOrderbook { id: id(1) }));
    assert_eq!(e.depth(OrderSide::Bid), Amount(0));
}

#[test]
fn equal_prices_share_one_level() {
    let mut e = TradingEngine::new();
    e.try_insert(limit(1, OrderSide::Bid, 10, 300)).unwrap();
    e.try_insert(limit(2, OrderSide::Bid, 10, 300)).unwrap();
    e.try_insert(limit(3, OrderSide::Bid, 10, 250)).unwrap();
    e.try_insert(limit(4, OrderSide::Bid, 10, 300)).unwrap();
    assert_eq!(e.level_count(OrderSide::Bid), 2);
    e.cancel(&id(3));
    assert_eq!(e.level_count(OrderSide::Bid), 1);
    assert_eq!(e.depth(OrderSide::Bid), Amount(30));
}
