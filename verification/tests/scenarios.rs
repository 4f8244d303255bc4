use dire_matching_engine::{
    Decimal, Engine, EngineSnapshot, ExecType, ExecutionReport, InstrumentId, MatchingEngine,
    MultiEngine, Order, OrderId, OrderStatus, OrderType, Side, TimeInForce, Trade, TraderId,
};

fn order(id: u64, side: Side, qty: i64, price: i64, tif: TimeInForce, trader: u64, ts: u64) -> Order {
    Order {
        order_id: OrderId(id),
        client_order_id: format!("c{}", id),
        instrument_id: InstrumentId(1),
        side,
        order_type: OrderType::Limit,
        quantity: Decimal::from(qty),
        price: Some(Decimal::from(price)),
        time_in_force: tif,
        timestamp: ts,
        trader_id: TraderId(trader),
    }
}

#[test]
fn scenario_full_fill_at_equal_price() {
    let mut engine = Engine::new(InstrumentId(1));
    engine.submit_order(order(1, Side::Sell, 10, 100, TimeInForce::GTC, 1, 1)).unwrap();
    let (trades, reports) =
        engine.submit_order(order(2, Side::Buy, 10, 100, TimeInForce::GTC, 2, 2)).unwrap();
    assert_eq!(trades.len(), 1);
    assert_eq!(trades[0].price, Decimal::from(100));
    assert_eq!(trades[0].quantity, Decimal::from(10));
    assert_eq!(trades[0].buy_order_id, OrderId(2));
    assert_eq!(trades[0].sell_order_id, OrderId(1));
    assert_eq!(trades[0].aggressor_side, Side::Buy);
    assert_eq!(reports.len(), 2);
    assert_eq!(reports[0].order_id, OrderId(1));
    assert_eq!(reports[0].exec_type, ExecType::Fill);
    assert_eq!(reports[1].order_id, OrderId(2));
    assert_eq!(reports[1].exec_type, ExecType::Fill);
    assert_eq!(reports[1].order_status, OrderStatus::Filled);
    assert_eq!(engine.best_bid(), None);
    assert_eq!(engine.best_ask(), None);
}

#[test]
fn scenario_partial_fill_then_rest() {
    let mut engine = Engine::new(InstrumentId(1));
    engine.submit_order(order(1, Side::Sell, 5, 100, TimeInForce::GTC, 1, 1)).unwrap();
    let (trades, reports) =
        engine.submit_order(order(2, Side::Buy, 10, 100, TimeInForce::GTC, 2, 2)).unwrap();
    assert_eq!(trades.len(), 1);
    assert_eq!(trades[0].quantity, Decimal::from(5));
    assert_eq!(engine.best_bid(), Some(Decimal::from(100)));
    assert_eq!(engine.best_ask(), None);
    assert_eq!(reports[1].remaining_quantity, Decimal::from(5));
    // the 5 that rest are met by the next seller
    let (trades, _) = engine.submit_order(order(3, Side::Sell, 9, 100, TimeInForce::IOC, 3, 3)).unwrap();
    assert_eq!(trades[0].quantity, Decimal::from(5));
}

#[test]
fn scenario_ioc_with_partial_liquidity() {
    let mut engine = Engine::new(InstrumentId(1));
    engine.submit_order(order(1, Side::Sell, 5, 100, TimeInForce::GTC, 1, 1)).unwrap();
    let (trades, reports) =
        engine.submit_order(order(2, Side::Buy, 10, 100, TimeInForce::IOC, 2, 2)).unwrap();
    assert_eq!(trades.len(), 1);
    assert_eq!(trades[0].quantity, Decimal::from(5));
    let aggressor = reports.last().unwrap();
    assert_eq!(aggressor.order_id, OrderId(2));
    assert_eq!(aggressor.filled_quantity, Decimal::from(5));
    assert_eq!(aggressor.remaining_quantity, Decimal::from(5));
    assert_eq!(engine.best_bid(), None);
}

#[test]
fn scenario_fok_insufficient() {
    let mut engine = Engine::new(InstrumentId(1));
    engine.submit_order(order(1, Side::Sell, 5, 100, TimeInForce::GTC, 1, 1)).unwrap();
    let (trades, reports) =
        engine.submit_order(order(2, Side::Buy, 10, 100, TimeInForce::FOK, 2, 2)).unwrap();
    assert!(trades.is_empty());
    assert_eq!(reports.len(), 1);
    assert_eq!(reports[0].exec_type, ExecType::Canceled);
    assert_eq!(reports[0].order_id, OrderId(2));
    assert_eq!(engine.best_ask(), Some(Decimal::from(100)));
    // size 5 is still there
    let (trades, _) = engine.submit_order(order(3, Side::Buy, 9, 100, TimeInForce::IOC, 3, 3)).unwrap();
    assert_eq!(trades.len(), 1);
    assert_eq!(trades[0].quantity, Decimal::from(5));
}

#[test]
fn scenario_self_trade_prevention() {
    let mut engine = Engine::new(InstrumentId(1));
    engine.submit_order(order(1, Side::Sell, 10, 100, TimeInForce::GTC, 1, 1)).unwrap();
    let (trades, _) = engine.submit_order(order(2, Side::Buy, 10, 100, TimeInForce::GTC, 1, 2)).unwrap();
    assert!(trades.is_empty());
    assert_eq!(engine.best_bid(), Some(Decimal::from(100)));
    assert_eq!(engine.best_ask(), Some(Decimal::from(100)));
    // both rest with 10 and are visible to others
    let (trades, _) = engine.submit_order(order(3, Side::Sell, 10, 100, TimeInForce::IOC, 2, 3)).unwrap();
    assert_eq!(trades.len(), 1);
    assert_eq!(trades[0].buy_order_id, OrderId(2));
    assert_eq!(trades[0].quantity, Decimal::from(10));
    let (trades, _) = engine.submit_order(order(4, Side::Buy, 10, 100, TimeInForce::IOC, 2, 4)).unwrap();
    assert_eq!(trades.len(), 1);
    assert_eq!(trades[0].sell_order_id, OrderId(1));
    assert_eq!(trades[0].quantity, Decimal::from(10));
}

#[test]
fn scenario_price_time_priority_across_two_sellers() {
    let mut engine = Engine::new(InstrumentId(1));
    engine.submit_order(order(1, Side::Sell, 5, 100, TimeInForce::GTC, 1, 1)).unwrap();
    engine.submit_order(order(2, Side::Sell, 5, 100, TimeInForce::GTC, 2, 2)).unwrap();
    let (trades, _) = engine.submit_order(order(3, Side::Buy, 5, 100, TimeInForce::GTC, 3, 3)).unwrap();
    assert_eq!(trades.len(), 1);
    assert_eq!(trades[0].sell_order_id, OrderId(1));
}

#[test]
fn scenario_multi_instrument_routing() {
    let mut engine = MultiEngine::new_with_instruments(Vec::new());
    engine.add_instrument(InstrumentId(1), None).unwrap();
    engine.add_instrument(InstrumentId(2), None).unwrap();
    let mut buy = order(7, Side::Buy, 5, 100, TimeInForce::GTC, 1, 1);
    buy.instrument_id = InstrumentId(1);
    engine.submit_order(buy).unwrap();
    let mut sell = order(8, Side::Sell, 5, 99, TimeInForce::GTC, 2, 2);
    sell.instrument_id = InstrumentId(2);
    let (trades, _) = engine.submit_order(sell).unwrap();
    assert!(trades.is_empty());
    assert_eq!(engine.cancel_order(OrderId(7)), Some(InstrumentId(1)));
    assert_eq!(engine.cancel_order(OrderId(8)), Some(InstrumentId(2)));
    assert_eq!(engine.cancel_order(OrderId(9)), None);
}

#[test]
fn scenario_modify_loses_time_priority() {
    let mut engine = Engine::new(InstrumentId(1));
    engine.submit_order(order(1, Side::Buy, 5, 100, TimeInForce::GTC, 1, 1)).unwrap();
    engine.submit_order(order(2, Side::Buy, 5, 100, TimeInForce::GTC, 2, 2)).unwrap();
    engine.modify_order(OrderId(1), &order(1, Side::Buy, 5, 100, TimeInForce::GTC, 1, 3)).unwrap();
    let (trades, _) = engine.submit_order(order(3, Side::Sell, 5, 100, TimeInForce::GTC, 3, 4)).unwrap();
    assert_eq!(trades.len(), 1);
    assert_eq!(trades[0].buy_order_id, OrderId(2));

    let mut multi = MultiEngine::new_with_instruments(vec![(InstrumentId(1), None)]);
    multi.submit_order(order(1, Side::Buy, 5, 100, TimeInForce::GTC, 1, 1)).unwrap();
    multi.submit_order(order(2, Side::Buy, 5, 100, TimeInForce::GTC, 2, 2)).unwrap();
    multi.modify_order(OrderId(1), &order(1, Side::Buy, 5, 100, TimeInForce::GTC, 1, 3)).unwrap();
    let (trades, _) = multi.submit_order(order(3, Side::Sell, 5, 100, TimeInForce::GTC, 3, 4)).unwrap();
    assert_eq!(trades.len(), 1);
    assert_eq!(trades[0].buy_order_id, OrderId(2));
}

fn same_trades(a: &[Trade], b: &[Trade]) -> bool {
    a.len() == b.len()
        && a.iter().zip(b.iter()).all(|(x, y)| {
            x.trade_id == y.trade_id
                && x.instrument_id == y.instrument_id
                && x.buy_order_id == y.buy_order_id
                && x.sell_order_id == y.sell_order_id
                && x.price == y.price
                && x.quantity == y.quantity
                && x.timestamp == y.timestamp
                && x.aggressor_side == y.aggressor_side
        })
}

fn same_reports(a: &[ExecutionReport], b: &[ExecutionReport]) -> bool {
    a.len() == b.len()
        && a.iter().zip(b.iter()).all(|(x, y)| {
            x.order_id == y.order_id
                && x.exec_id == y.exec_id
                && x.exec_type == y.exec_type
                && x.order_status == y.order_status
                && x.filled_quantity == y.filled_quantity
                && x.remaining_quantity == y.remaining_quantity
                && x.avg_price == y.avg_price
                && x.last_qty == y.last_qty
                && x.last_px == y.last_px
                && x.timestamp == y.timestamp
        })
}

/// A run of orders on one instrument: fills, rests, cancellations; the
/// book is emptied between them by orders that take what is left.
fn run_orders(engine: &mut MultiEngine) {
    let steps = vec![
        order(1, Side::Sell, 10, 100, TimeInForce::GTC, 1, 1),
        order(2, Side::Buy, 10, 100, TimeInForce::GTC, 2, 2),
        order(3, Side::Sell, 5, 100, TimeInForce::GTC, 1, 3),
        order(4, Side::Buy, 10, 100, TimeInForce::GTC, 2, 4),
        order(5, Side::Sell, 5, 101, TimeInForce::GTC, 1, 5),
        order(6, Side::Buy, 10, 101, TimeInForce::IOC, 2, 6),
        order(7, Side::Sell, 5, 102, TimeInForce::GTC, 1, 7),
        order(8, Side::Buy, 10, 102, TimeInForce::FOK, 2, 8),
        order(9, Side::Sell, 10, 103, TimeInForce::GTC, 1, 9),
        order(10, Side::Buy, 10, 103, TimeInForce::GTC, 1, 10),
        order(11, Side::Sell, 5, 104, TimeInForce::GTC, 1, 11),
        order(12, Side::Sell, 5, 104, TimeInForce::GTC, 2, 12),
        order(13, Side::Buy, 5, 99, TimeInForce::GTC, 3, 13),
    ];
    for step in steps {
        engine.submit_order(step).unwrap();
    }
}

#[test]
fn scenario_snapshot_round_trip() {
    let mut first = MultiEngine::new_with_instruments(vec![(InstrumentId(1), Some("AAA".to_string()))]);
    run_orders(&mut first);
    let snap: EngineSnapshot = first.snapshot();

    let mut restored = MultiEngine::new_with_instruments(vec![(InstrumentId(1), Some("AAA".to_string()))]);
    restored.load_from_snapshot(snap).unwrap();
    assert_eq!(restored.list_instruments(), first.list_instruments());

    let later = vec![
        order(20, Side::Buy, 7, 104, TimeInForce::GTC, 4, 20),
        order(21, Side::Sell, 30, 99, TimeInForce::GTC, 5, 21),
        order(22, Side::Buy, 3, 103, TimeInForce::IOC, 6, 22),
        order(23, Side::Sell, 3, 100, TimeInForce::FOK, 7, 23),
        order(24, Side::Buy, 50, 200, TimeInForce::GTC, 8, 24),
    ];
    for step in later {
        let (t1, r1) = first.submit_order(step.clone()).unwrap();
        let (t2, r2) = restored.submit_order(step).unwrap();
        assert!(same_trades(&t1, &t2));
        assert!(same_reports(&r1, &r2));
        assert!(!r1.is_empty());
    }
    for id in [1u64, 5, 9, 10, 11, 12, 13, 20, 21, 24] {
        assert_eq!(first.cancel_order(OrderId(id)), restored.cancel_order(OrderId(id)));
    }
    let top1 = first.book_snapshot_for(InstrumentId(1)).unwrap();
    let top2 = restored.book_snapshot_for(InstrumentId(1)).unwrap();
    assert_eq!(top1.best_bid, top2.best_bid);
    assert_eq!(top1.best_ask, top2.best_ask);
}

#[test]
fn same_operations_give_the_same_outputs() {
    let run = || {
        let mut engine = MultiEngine::new_with_instruments(vec![(InstrumentId(1), None)]);
        let mut all_trades = Vec::new();
        let mut all_reports = Vec::new();
        for step in [
            order(1, Side::Sell, 10, 100, TimeInForce::GTC, 1, 1),
            order(2, Side::Sell, 10, 101, TimeInForce::GTC, 2, 2),
            order(3, Side::Buy, 15, 101, TimeInForce::GTC, 3, 3),
            order(4, Side::Buy, 15, 101, TimeInForce::FOK, 3, 4),
            order(5, Side::Sell, 2, 90, TimeInForce::IOC, 1, 5),
        ] {
            let (t, r) = engine.submit_order(step).unwrap();
            all_trades.extend(t);
            all_reports.extend(r);
        }
        (all_trades, all_reports, engine.snapshot().books)
    };
    let (t1, r1, b1) = run();
    let (t2, r2, b2) = run();
    assert!(same_trades(&t1, &t2));
    assert!(same_reports(&r1, &r2));
    assert_eq!(t1.len(), 2);
    assert_eq!(r1.len(), 7);
    assert_eq!(b1.len(), b2.len());
    assert_eq!(b1[0].1.len(), b2[0].1.len());
}

#[test]
fn multi_engine_serves_the_common_interface() {
    let mut engine = MultiEngine::new_with_instruments(vec![(InstrumentId(3), None), (InstrumentId(4), None)]);
    assert_eq!(MatchingEngine::instruments(&engine), vec![InstrumentId(3), InstrumentId(4)]);
    assert_eq!(MatchingEngine::instrument_id(&engine), InstrumentId(3));
    let mut o = order(1, Side::Sell, 5, 100, TimeInForce::GTC, 1, 1);
    o.instrument_id = InstrumentId(3);
    MatchingEngine::submit_order(&mut engine, o).unwrap();
    assert_eq!(MatchingEngine::best_ask(&engine), Some(Decimal::from(100)));
    assert_eq!(MatchingEngine::best_bid(&engine), None);
    let top = MatchingEngine::book_snapshot(&engine);
    assert_eq!(top.instrument_id, InstrumentId(3));
    assert_eq!(top.best_ask, Some(Decimal::from(100)));
    let mut r = order(2, Side::Sell, 5, 99, TimeInForce::GTC, 1, 2);
    r.instrument_id = InstrumentId(3);
    MatchingEngine::modify_order(&mut engine, OrderId(1), &r).unwrap();
    assert_eq!(MatchingEngine::best_ask(&engine), Some(Decimal::from(99)));
    assert_eq!(MatchingEngine::cancel_order(&mut engine, OrderId(2)), Some(InstrumentId(3)));

    let empty = MultiEngine::new_with_instruments(Vec::new());
    assert_eq!(MatchingEngine::instrument_id(&empty), InstrumentId(0));
    let top = MatchingEngine::book_snapshot(&empty);
    assert_eq!(top.instrument_id, InstrumentId(0));
    assert_eq!(top.best_bid, None);
}
