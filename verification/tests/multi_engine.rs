use dire_matching_engine::{
    Decimal, EngineError, EngineSnapshot, InstrumentId, InstrumentMeta, MultiEngine, Order, OrderId,
    OrderType, RestingOrder, Side, TimeInForce, TraderId,
};

fn order(id: u64, instrument: u64, side: Side, qty: i64, price: i64, tif: TimeInForce, trader: u64) -> Order {
    Order {
        order_id: OrderId(id),
        client_order_id: format!("c{}", id),
        instrument_id: InstrumentId(instrument),
        side,
        order_type: OrderType::Limit,
        quantity: Decimal::from(qty),
        price: Some(Decimal::from(price)),
        time_in_force: tif,
        timestamp: id,
        trader_id: TraderId(trader),
    }
}

fn resting(id: u64, instrument: u64, side: Side, qty: i64, price: i64) -> RestingOrder {
    RestingOrder {
        order_id: OrderId(id),
        instrument_id: InstrumentId(instrument),
        side,
        price: Decimal::from(price),
        quantity: Decimal::from(qty),
        trader_id: TraderId(1),
    }
}

#[test]
fn instruments_are_listed_in_the_order_of_registration() {
    let mut engine = MultiEngine::new_with_instruments(vec![
        (InstrumentId(2), Some("BBB".to_string())),
        (InstrumentId(1), None),
        (InstrumentId(2), Some("CCC".to_string())),
    ]);
    assert_eq!(
        engine.list_instruments(),
        vec![(InstrumentId(2), Some("CCC".to_string())), (InstrumentId(1), None)]
    );
    engine.add_instrument(InstrumentId(5), Some("EEE".to_string())).unwrap();
    assert_eq!(engine.instruments(), vec![InstrumentId(2), InstrumentId(1), InstrumentId(5)]);
    let meta = InstrumentMeta { symbol: Some("EEE".to_string()) };
    assert_eq!(engine.list_instruments()[2].1, meta.symbol);
}

#[test]
fn add_instrument_twice_is_refused() {
    let mut engine = MultiEngine::new_with_instruments(vec![(InstrumentId(1), None)]);
    assert_eq!(
        engine.add_instrument(InstrumentId(1), Some("X".to_string())),
        Err(EngineError::DuplicateInstrument)
    );
    assert_eq!(engine.list_instruments(), vec![(InstrumentId(1), None)]);
}

#[test]
fn remove_instrument_needs_an_empty_book() {
    let mut engine = MultiEngine::new_with_instruments(vec![(InstrumentId(1), None), (InstrumentId(2), None)]);
    assert_eq!(engine.remove_instrument(InstrumentId(3)), Err(EngineError::UnknownInstrument));
    engine.submit_order(order(1, 1, Side::Buy, 5, 100, TimeInForce::GTC, 1)).unwrap();
    assert_eq!(engine.remove_instrument(InstrumentId(1)), Err(EngineError::InstrumentInUse));
    assert_eq!(engine.cancel_order(OrderId(1)), Some(InstrumentId(1)));
    assert_eq!(engine.remove_instrument(InstrumentId(1)), Ok(()));
    assert_eq!(engine.instruments(), vec![InstrumentId(2)]);
    assert!(engine.book_snapshot_for(InstrumentId(1)).is_none());
    assert_eq!(
        engine.submit_order(order(2, 1, Side::Buy, 5, 100, TimeInForce::GTC, 1)).unwrap_err(),
        EngineError::UnknownInstrument
    );
}

#[test]
fn remove_instrument_purges_its_index_entries() {
    let mut engine = MultiEngine::new_with_instruments(vec![(InstrumentId(1), None), (InstrumentId(2), None)]);
    // a killed order leaves an index entry behind without resting
    engine.submit_order(order(1, 1, Side::Buy, 5, 100, TimeInForce::FOK, 1)).unwrap();
    engine.submit_order(order(2, 2, Side::Buy, 5, 100, TimeInForce::GTC, 1)).unwrap();
    let keys: Vec<u64> = engine.snapshot().order_to_instrument.iter().map(|p| p.0 .0).collect();
    assert!(keys.contains(&1));
    engine.remove_instrument(InstrumentId(1)).unwrap();
    let snap = engine.snapshot();
    assert_eq!(snap.order_to_instrument, vec![(OrderId(2), InstrumentId(2))]);
}

#[test]
fn submit_to_unknown_instrument_is_refused() {
    let mut engine = MultiEngine::new_with_instruments(vec![(InstrumentId(1), None)]);
    let err = engine.submit_order(order(1, 9, Side::Buy, 5, 100, TimeInForce::GTC, 1)).unwrap_err();
    assert_eq!(err, EngineError::UnknownInstrument);
    let mut bad = order(2, 1, Side::Buy, 5, 100, TimeInForce::GTC, 1);
    bad.price = None;
    assert_eq!(engine.submit_order(bad).unwrap_err(), EngineError::InvalidOrder);
}

#[test]
fn counters_are_shared_by_the_instruments() {
    let mut engine = MultiEngine::new_with_instruments(vec![(InstrumentId(1), None), (InstrumentId(2), None)]);
    let (_, r) = engine.submit_order(order(1, 1, Side::Sell, 5, 100, TimeInForce::GTC, 1)).unwrap();
    assert_eq!(r[0].exec_id.0, 1);
    let (_, r) = engine.submit_order(order(2, 2, Side::Sell, 5, 100, TimeInForce::GTC, 1)).unwrap();
    assert_eq!(r[0].exec_id.0, 2);
    let (t, r) = engine.submit_order(order(3, 1, Side::Buy, 5, 100, TimeInForce::GTC, 2)).unwrap();
    assert_eq!(t[0].trade_id.0, 1);
    assert_eq!(t[0].instrument_id, InstrumentId(1));
    assert_eq!(r[1].exec_id.0, 4);
    let (t, _) = engine.submit_order(order(4, 2, Side::Buy, 5, 100, TimeInForce::GTC, 2)).unwrap();
    assert_eq!(t[0].trade_id.0, 2);
    assert_eq!(t[0].instrument_id, InstrumentId(2));
    let snap = engine.snapshot();
    assert_eq!(snap.next_trade_id, 3);
    assert_eq!(snap.next_exec_id, 7);
}

#[test]
fn cancel_of_a_filled_order_finds_nothing() {
    let mut engine = MultiEngine::new_with_instruments(vec![(InstrumentId(1), None)]);
    engine.submit_order(order(1, 1, Side::Sell, 5, 100, TimeInForce::GTC, 1)).unwrap();
    engine.submit_order(order(2, 1, Side::Buy, 5, 100, TimeInForce::GTC, 2)).unwrap();
    assert_eq!(engine.cancel_order(OrderId(1)), None);
    assert_eq!(engine.cancel_order(OrderId(2)), None);
    assert_eq!(engine.cancel_order(OrderId(1)), None);
}

#[test]
fn modify_is_refused_without_change() {
    let mut engine = MultiEngine::new_with_instruments(vec![(InstrumentId(1), None), (InstrumentId(2), None)]);
    engine.submit_order(order(1, 1, Side::Sell, 5, 100, TimeInForce::GTC, 1)).unwrap();

    let unknown = engine.modify_order(OrderId(9), &order(9, 1, Side::Sell, 5, 100, TimeInForce::GTC, 1));
    assert_eq!(unknown.unwrap_err(), EngineError::UnknownOrder);
    let across = engine.modify_order(OrderId(1), &order(1, 2, Side::Sell, 5, 100, TimeInForce::GTC, 1));
    assert_eq!(across.unwrap_err(), EngineError::InstrumentMismatch);
    let malformed = engine.modify_order(OrderId(1), &order(1, 1, Side::Sell, 0, 100, TimeInForce::GTC, 1));
    assert_eq!(malformed.unwrap_err(), EngineError::InvalidOrder);

    assert_eq!(engine.book_snapshot_for(InstrumentId(1)).unwrap().best_ask, Some(Decimal::from(100)));
    assert_eq!(engine.cancel_order(OrderId(1)), Some(InstrumentId(1)));
}

#[test]
fn modify_with_a_new_id_moves_the_index_entry() {
    let mut engine = MultiEngine::new_with_instruments(vec![(InstrumentId(1), None)]);
    engine.submit_order(order(1, 1, Side::Sell, 5, 100, TimeInForce::GTC, 1)).unwrap();
    let (trades, reports) = engine
        .modify_order(OrderId(1), &order(2, 1, Side::Sell, 7, 101, TimeInForce::GTC, 1))
        .unwrap();
    assert!(trades.is_empty());
    assert_eq!(reports.len(), 1);
    assert_eq!(reports[0].order_id, OrderId(2));
    assert_eq!(engine.book_snapshot_for(InstrumentId(1)).unwrap().best_ask, Some(Decimal::from(101)));
    assert_eq!(engine.cancel_order(OrderId(1)), None);
    assert_eq!(engine.cancel_order(OrderId(2)), Some(InstrumentId(1)));
}

#[test]
fn snapshot_holds_instruments_books_index_and_counters() {
    let mut engine = MultiEngine::new_with_instruments(vec![
        (InstrumentId(1), Some("AAA".to_string())),
        (InstrumentId(2), None),
    ]);
    engine.submit_order(order(1, 1, Side::Sell, 5, 100, TimeInForce::GTC, 1)).unwrap();
    engine.submit_order(order(2, 1, Side::Sell, 6, 100, TimeInForce::GTC, 2)).unwrap();
    engine.submit_order(order(3, 2, Side::Buy, 7, 50, TimeInForce::GTC, 3)).unwrap();
    let snap = engine.snapshot();
    assert_eq!(snap.instruments, vec![(InstrumentId(1), Some("AAA".to_string())), (InstrumentId(2), None)]);
    assert_eq!(snap.books.len(), 2);
    assert_eq!(snap.books[0].0, InstrumentId(1));
    let ids: Vec<u64> = snap.books[0].1.iter().map(|r| r.order_id.0).collect();
    assert_eq!(ids, vec![1, 2]);
    assert_eq!(snap.books[1].1.len(), 1);
    assert_eq!(snap.books[1].1[0].quantity, Decimal::from(7));
    let mut index = snap.order_to_instrument.clone();
    index.sort_by_key(|p| p.0 .0);
    assert_eq!(
        index,
        vec![(OrderId(1), InstrumentId(1)), (OrderId(2), InstrumentId(1)), (OrderId(3), InstrumentId(2))]
    );
    assert_eq!(snap.next_trade_id, 1);
    assert_eq!(snap.next_exec_id, 4);
}

#[test]
fn load_from_snapshot_replaces_the_state() {
    let snap = EngineSnapshot {
        instruments: vec![(InstrumentId(7), Some("SEV".to_string()))],
        books: vec![(
            InstrumentId(7),
            vec![resting(1, 7, Side::Sell, 5, 100), resting(2, 7, Side::Sell, 5, 100), resting(3, 7, Side::Buy, 5, 90)],
        )],
        order_to_instrument: Vec::new(),
        next_trade_id: 40,
        next_exec_id: 50,
    };
    let mut engine = MultiEngine::new_with_instruments(vec![(InstrumentId(1), None)]);
    engine.submit_order(order(9, 1, Side::Buy, 5, 100, TimeInForce::GTC, 1)).unwrap();
    engine.load_from_snapshot(snap).unwrap();
    assert_eq!(engine.list_instruments(), vec![(InstrumentId(7), Some("SEV".to_string()))]);
    assert_eq!(engine.cancel_order(OrderId(9)), None);
    let top = engine.book_snapshot_for(InstrumentId(7)).unwrap();
    assert_eq!(top.best_bid, Some(Decimal::from(90)));
    assert_eq!(top.best_ask, Some(Decimal::from(100)));
    let (trades, reports) = engine.submit_order(order(10, 7, Side::Buy, 5, 100, TimeInForce::GTC, 2)).unwrap();
    assert_eq!(trades[0].trade_id.0, 40);
    assert_eq!(trades[0].sell_order_id, OrderId(1));
    assert_eq!(reports[0].exec_id.0, 50);
    // the index was rebuilt from the books
    assert_eq!(engine.cancel_order(OrderId(2)), Some(InstrumentId(7)));
    assert_eq!(engine.cancel_order(OrderId(3)), Some(InstrumentId(7)));
}

#[test]
fn load_from_snapshot_fails_without_change() {
    let mut engine = MultiEngine::new_with_instruments(vec![(InstrumentId(1), None)]);
    engine.submit_order(order(9, 1, Side::Buy, 5, 100, TimeInForce::GTC, 1)).unwrap();

    let unknown = EngineSnapshot {
        instruments: vec![(InstrumentId(7), None)],
        books: vec![(InstrumentId(8), Vec::new())],
        order_to_instrument: Vec::new(),
        next_trade_id: 40,
        next_exec_id: 50,
    };
    assert_eq!(engine.load_from_snapshot(unknown), Err(EngineError::UnknownInstrument));
    let mismatch = EngineSnapshot {
        instruments: vec![(InstrumentId(7), None)],
        books: vec![(InstrumentId(7), vec![resting(1, 7, Side::Sell, 5, 100), resting(2, 8, Side::Sell, 5, 100)])],
        order_to_instrument: Vec::new(),
        next_trade_id: 40,
        next_exec_id: 50,
    };
    assert_eq!(engine.load_from_snapshot(mismatch), Err(EngineError::InstrumentMismatch));
    let invalid = EngineSnapshot {
        instruments: vec![(InstrumentId(7), None)],
        books: vec![(InstrumentId(7), vec![resting(1, 7, Side::Sell, 0, 100)])],
        order_to_instrument: Vec::new(),
        next_trade_id: 40,
        next_exec_id: 50,
    };
    assert_eq!(engine.load_from_snapshot(invalid), Err(EngineError::InvalidOrder));

    assert_eq!(engine.list_instruments(), vec![(InstrumentId(1), None)]);
    assert_eq!(engine.book_snapshot_for(InstrumentId(1)).unwrap().best_bid, Some(Decimal::from(100)));
    assert_eq!(engine.snapshot().next_exec_id, 2);
    assert_eq!(engine.cancel_order(OrderId(9)), Some(InstrumentId(1)));
}

#[test]
fn every_resting_order_is_indexed_with_its_instrument() {
    let mut engine = MultiEngine::new_with_instruments(vec![(InstrumentId(1), None), (InstrumentId(2), None)]);
    engine.submit_order(order(1, 1, Side::Sell, 5, 100, TimeInForce::GTC, 1)).unwrap();
    engine.submit_order(order(2, 2, Side::Sell, 5, 100, TimeInForce::GTC, 1)).unwrap();
    engine.submit_order(order(3, 1, Side::Buy, 2, 100, TimeInForce::GTC, 2)).unwrap();
    engine.submit_order(order(4, 2, Side::Buy, 9, 100, TimeInForce::GTC, 2)).unwrap();
    engine.submit_order(order(5, 1, Side::Buy, 1, 90, TimeInForce::IOC, 2)).unwrap();
    engine.modify_order(OrderId(1), &order(6, 1, Side::Sell, 3, 101, TimeInForce::GTC, 1)).unwrap();
    assert_eq!(engine.cancel_order(OrderId(3)), None);
    let snap = engine.snapshot();
    for (instrument, resting) in &snap.books {
        for r in resting {
            assert!(snap.order_to_instrument.contains(&(r.order_id, *instrument)));
        }
    }
    let resting: Vec<(u64, u64)> =
        snap.books.iter().flat_map(|(i, rs)| rs.iter().map(move |r| (i.0, r.order_id.0))).collect();
    assert_eq!(resting, vec![(1, 6), (2, 4)]);
    // an order that was filled, or canceled on arrival, may stay in the index
    let keys: Vec<u64> = snap.order_to_instrument.iter().map(|p| p.0 .0).collect();
    assert!(keys.contains(&2));
    assert!(keys.contains(&5));
    assert!(!keys.contains(&1));
}
