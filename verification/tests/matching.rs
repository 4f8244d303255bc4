use dire_matching_engine::{
    match_order, Decimal, ExecType, ExecutionId, InstrumentId, Order, OrderBook, OrderId, OrderStatus,
    OrderType, Side, TimeInForce, TradeId, TraderId,
};

fn order(id: u64, side: Side, qty: i64, price: Option<i64>, tif: TimeInForce, trader: u64) -> Order {
    Order {
        order_id: OrderId(id),
        client_order_id: format!("c{}", id),
        instrument_id: InstrumentId(1),
        side,
        order_type: if price.is_some() { OrderType::Limit } else { OrderType::Market },
        quantity: Decimal::from(qty),
        price: price.map(Decimal::from),
        time_in_force: tif,
        timestamp: id,
        trader_id: TraderId(trader),
    }
}

fn dec(mantissa: i128, scale: u32) -> Decimal {
    Decimal::new(mantissa, scale).unwrap()
}

#[test]
fn placeholder_matching_returns_empty() {
    let mut book = OrderBook::new(InstrumentId(1));
    let order = Order {
        order_id: OrderId(1),
        client_order_id: "c1".into(),
        instrument_id: InstrumentId(1),
        side: Side::Buy,
        order_type: OrderType::Limit,
        quantity: Decimal::from(10),
        price: Some(Decimal::from(100)),
        time_in_force: TimeInForce::GTC,
        timestamp: 0,
        trader_id: TraderId(1),
    };
    let (trades, reports) = match_order(&mut book, &order, 1, 1);
    assert!(trades.is_empty());
    assert!(!reports.is_empty()); // we get at least New or one report
}

#[test]
fn two_orders_match_full() {
    let mut book = OrderBook::new(InstrumentId(1));
    let sell = Order {
        order_id: OrderId(1),
        client_order_id: "c1".into(),
        instrument_id: InstrumentId(1),
        side: Side::Sell,
        order_type: OrderType::Limit,
        quantity: Decimal::from(10),
        price: Some(Decimal::from(100)),
        time_in_force: TimeInForce::GTC,
        timestamp: 1,
        trader_id: TraderId(1),
    };
    book.add_order(&sell).unwrap();
    let buy = Order {
        order_id: OrderId(2),
        client_order_id: "c2".into(),
        instrument_id: InstrumentId(1),
        side: Side::Buy,
        order_type: OrderType::Limit,
        quantity: Decimal::from(10),
        price: Some(Decimal::from(100)),
        time_in_force: TimeInForce::GTC,
        timestamp: 2,
        trader_id: TraderId(2),
    };
    let (trades, _reports) = match_order(&mut book, &buy, 1, 1);
    assert_eq!(trades.len(), 1);
    assert_eq!(trades[0].quantity, Decimal::from(10));
    assert_eq!(trades[0].price, Decimal::from(100));
    assert!(book.best_bid().is_none());
    assert!(book.best_ask().is_none());
}

#[test]
fn partial_fill_then_rest_on_book() {
    let mut book = OrderBook::new(InstrumentId(1));
    let sell = Order {
        order_id: OrderId(1),
        client_order_id: "c1".into(),
        instrument_id: InstrumentId(1),
        side: Side::Sell,
        order_type: OrderType::Limit,
        quantity: Decimal::from(5),
        price: Some(Decimal::from(100)),
        time_in_force: TimeInForce::GTC,
        timestamp: 1,
        trader_id: TraderId(1),
    };
    book.add_order(&sell).unwrap();
    let buy = Order {
        order_id: OrderId(2),
        client_order_id: "c2".into(),
        instrument_id: InstrumentId(1),
        side: Side::Buy,
        order_type: OrderType::Limit,
        quantity: Decimal::from(10),
        price: Some(Decimal::from(100)),
        time_in_force: TimeInForce::GTC,
        timestamp: 2,
        trader_id: TraderId(2),
    };
    let (trades, _) = match_order(&mut book, &buy, 1, 1);
    assert_eq!(trades.len(), 1);
    assert_eq!(trades[0].quantity, Decimal::from(5));
    // 5 remaining from buy should be on book
    assert_eq!(book.best_bid(), Some(Decimal::from(100)));
}

#[test]
fn ioc_partial_fill_remainder_not_on_book() {
    let mut book = OrderBook::new(InstrumentId(1));
    book.add_order(&order(1, Side::Sell, 5, Some(100), TimeInForce::GTC, 1)).unwrap();
    let buy_ioc = order(2, Side::Buy, 10, Some(100), TimeInForce::IOC, 2);
    let (trades, reports) = match_order(&mut book, &buy_ioc, 1, 1);
    assert_eq!(trades.len(), 1);
    assert_eq!(trades[0].quantity, Decimal::from(5));
    assert_eq!(trades[0].price, Decimal::from(100));
    // IOC: aggressor remainder (5) must not be on book
    assert!(book.best_bid().is_none());
    // Aggressor report: filled 5, remaining 5 (canceled)
    let aggressor = reports.iter().find(|r| r.order_id == OrderId(2)).expect("aggressor report");
    assert_eq!(aggressor.filled_quantity, Decimal::from(5));
    assert_eq!(aggressor.remaining_quantity, Decimal::from(5));
}

#[test]
fn fok_insufficient_liquidity_no_fill_canceled() {
    let mut book = OrderBook::new(InstrumentId(1));
    book.add_order(&order(1, Side::Sell, 5, Some(100), TimeInForce::GTC, 1)).unwrap();
    let buy_fok = order(2, Side::Buy, 10, Some(100), TimeInForce::FOK, 2);
    let (trades, reports) = match_order(&mut book, &buy_fok, 1, 1);
    assert!(trades.is_empty());
    let canceled = reports.iter().find(|r| r.exec_type == ExecType::Canceled).expect("Canceled report");
    assert_eq!(canceled.order_id, OrderId(2));
    assert_eq!(canceled.filled_quantity, Decimal::zero());
    assert_eq!(canceled.remaining_quantity, Decimal::from(10));
    // Resting sell still on book
    assert_eq!(book.best_ask(), Some(Decimal::from(100)));
}

#[test]
fn self_trade_does_not_match() {
    let mut book = OrderBook::new(InstrumentId(1));
    book.add_order(&order(1, Side::Sell, 10, Some(100), TimeInForce::GTC, 1)).unwrap();
    let buy_same_trader = order(2, Side::Buy, 10, Some(100), TimeInForce::GTC, 1);
    let (trades, _) = match_order(&mut book, &buy_same_trader, 1, 1);
    assert!(trades.is_empty(), "self-trade must not match");
    assert_eq!(book.best_ask(), Some(Decimal::from(100)), "resting sell still on book");
    assert_eq!(book.best_bid(), Some(Decimal::from(100)), "aggressor buy rested on book");
}

#[test]
fn price_time_priority_matches_earlier_order_first() {
    let mut book = OrderBook::new(InstrumentId(1));
    book.add_order(&order(1, Side::Sell, 5, Some(100), TimeInForce::GTC, 1)).unwrap();
    book.add_order(&order(2, Side::Sell, 5, Some(100), TimeInForce::GTC, 2)).unwrap();
    let buy = order(3, Side::Buy, 5, Some(100), TimeInForce::GTC, 3);
    let (trades, _) = match_order(&mut book, &buy, 1, 1);
    assert_eq!(trades.len(), 1);
    assert_eq!(trades[0].quantity, Decimal::from(5));
    assert_eq!(trades[0].sell_order_id, OrderId(1), "must match first resting order (price-time)");
    assert_eq!(trades[0].buy_order_id, OrderId(3));
}

#[test]
fn market_order_takes_liquidity() {
    let mut book = OrderBook::new(InstrumentId(1));
    book.add_order(&order(1, Side::Sell, 10, Some(100), TimeInForce::GTC, 1)).unwrap();
    let market_buy = order(2, Side::Buy, 10, None, TimeInForce::GTC, 2);
    let (trades, reports) = match_order(&mut book, &market_buy, 1, 1);
    assert_eq!(trades.len(), 1);
    assert_eq!(trades[0].price, Decimal::from(100));
    assert_eq!(trades[0].quantity, Decimal::from(10));
    assert_eq!(trades[0].buy_order_id, OrderId(2));
    assert_eq!(trades[0].sell_order_id, OrderId(1));
    let aggressor = reports.iter().find(|r| r.order_id == OrderId(2)).expect("aggressor report");
    assert_eq!(aggressor.order_status, OrderStatus::Filled);
    assert_eq!(aggressor.filled_quantity, Decimal::from(10));
    assert!(book.best_ask().is_none());
}

/// Invariant: book is never crossed (best_bid < best_ask when both sides exist).
fn assert_no_crossed_book(book: &OrderBook) {
    match (book.best_bid(), book.best_ask()) {
        (Some(bid), Some(ask)) => {
            assert!(bid < ask, "invariant violated: best_bid {:?} >= best_ask {:?}", bid, ask)
        }
        _ => {}
    }
}

#[test]
fn invariant_no_crossed_book_after_matching() {
    let mut book = OrderBook::new(InstrumentId(1));
    // Full fill: sell 10@100, buy 10@100
    book.add_order(&order(1, Side::Sell, 10, Some(100), TimeInForce::GTC, 1)).unwrap();
    let (_, _) = match_order(&mut book, &order(2, Side::Buy, 10, Some(100), TimeInForce::GTC, 2), 1, 1);
    assert_no_crossed_book(&book);

    // Partial fill leaves bid: sell 5@100, buy 10@100
    let mut book = OrderBook::new(InstrumentId(1));
    book.add_order(&order(1, Side::Sell, 5, Some(100), TimeInForce::GTC, 1)).unwrap();
    let (_, _) = match_order(&mut book, &order(2, Side::Buy, 10, Some(100), TimeInForce::GTC, 2), 1, 1);
    assert_no_crossed_book(&book);

    // Multiple levels: add bid 99 and ask 101, then match at 100
    let mut book = OrderBook::new(InstrumentId(1));
    book.add_order(&order(1, Side::Sell, 10, Some(101), TimeInForce::GTC, 1)).unwrap();
    book.add_order(&order(2, Side::Buy, 10, Some(99), TimeInForce::GTC, 2)).unwrap();
    book.add_order(&order(3, Side::Sell, 10, Some(100), TimeInForce::GTC, 3)).unwrap();
    let (_, _) = match_order(&mut book, &order(4, Side::Buy, 10, Some(100), TimeInForce::GTC, 4), 1, 1);
    assert_no_crossed_book(&book);
}

#[test]
fn invariant_no_negative_quantities_in_trades_and_reports() {
    let mut book = OrderBook::new(InstrumentId(1));
    book.add_order(&order(1, Side::Sell, 10, Some(100), TimeInForce::GTC, 1)).unwrap();
    let (trades, reports) =
        match_order(&mut book, &order(2, Side::Buy, 10, Some(100), TimeInForce::GTC, 2), 1, 1);

    for t in &trades {
        assert!(t.quantity > Decimal::zero(), "trade quantity must be positive");
        assert!(t.price >= Decimal::zero(), "trade price must be non-negative");
    }

    for r in &reports {
        assert!(r.filled_quantity >= Decimal::zero(), "report filled_quantity must be non-negative");
        assert!(
            r.remaining_quantity >= Decimal::zero(),
            "report remaining_quantity must be non-negative"
        );
        if let Some(q) = r.last_qty {
            assert!(q >= Decimal::zero(), "report last_qty must be non-negative");
        }
        if let Some(p) = r.last_px {
            assert!(p >= Decimal::zero(), "report last_px must be non-negative");
        }
        if let Some(p) = r.avg_price {
            assert!(p >= Decimal::zero(), "report avg_price must be non-negative");
        }
    }
}

#[test]
fn partial_fill_resting_bid_leaves_remainder_on_book() {
    let mut book = OrderBook::new(InstrumentId(1));
    book.add_order(&order(1, Side::Buy, 10, Some(100), TimeInForce::GTC, 1)).unwrap();
    let sell = order(2, Side::Sell, 5, Some(100), TimeInForce::GTC, 2);
    let (trades, _) = match_order(&mut book, &sell, 1, 1);
    assert_eq!(trades.len(), 1);
    assert_eq!(trades[0].quantity, Decimal::from(5));
    assert_eq!(trades[0].sell_order_id, OrderId(2));
    assert_eq!(trades[0].buy_order_id, OrderId(1));
    assert_eq!(book.best_bid(), Some(Decimal::from(100)));
}

#[test]
fn fok_sell_insufficient_liquidity_no_fill_canceled() {
    let mut book = OrderBook::new(InstrumentId(1));
    book.add_order(&order(1, Side::Buy, 5, Some(100), TimeInForce::GTC, 1)).unwrap();
    let sell_fok = order(2, Side::Sell, 10, Some(100), TimeInForce::FOK, 2);
    let (trades, reports) = match_order(&mut book, &sell_fok, 1, 1);
    assert!(trades.is_empty());
    let canceled = reports.iter().find(|r| r.exec_type == ExecType::Canceled).expect("Canceled report");
    assert_eq!(canceled.order_id, OrderId(2));
    assert_eq!(book.best_bid(), Some(Decimal::from(100)));
}

#[test]
fn reports_come_in_fill_order_then_the_aggressor() {
    let mut book = OrderBook::new(InstrumentId(1));
    book.add_order(&order(1, Side::Sell, 4, Some(101), TimeInForce::GTC, 1)).unwrap();
    book.add_order(&order(2, Side::Sell, 3, Some(100), TimeInForce::GTC, 2)).unwrap();
    book.add_order(&order(3, Side::Sell, 9, Some(102), TimeInForce::GTC, 3)).unwrap();
    let buy = order(4, Side::Buy, 10, Some(102), TimeInForce::GTC, 4);
    let (trades, reports) = match_order(&mut book, &buy, 7, 20);

    assert_eq!(trades.len(), 3);
    assert_eq!(reports.len(), 4);
    let sellers: Vec<u64> = trades.iter().map(|t| t.sell_order_id.0).collect();
    assert_eq!(sellers, vec![2, 1, 3]);
    for (i, t) in trades.iter().enumerate() {
        assert_eq!(t.trade_id, TradeId(7 + i as u64));
        assert_eq!(t.instrument_id, InstrumentId(1));
        assert_eq!(t.buy_order_id, OrderId(4));
        assert_eq!(t.aggressor_side, Side::Buy);
        assert_eq!(t.timestamp, 4);
        assert_eq!(reports[i].order_id, t.sell_order_id);
        assert_eq!(reports[i].exec_id, ExecutionId(20 + i as u64));
        assert_eq!(reports[i].filled_quantity, t.quantity);
        assert_eq!(reports[i].remaining_quantity, Decimal::zero());
        assert_eq!(reports[i].avg_price, Some(t.price));
        assert_eq!(reports[i].last_qty, Some(t.quantity));
        assert_eq!(reports[i].last_px, Some(t.price));
        assert_eq!(reports[i].timestamp, 4);
    }
    assert_eq!(trades[2].quantity, Decimal::from(3));
    assert_eq!(reports[0].exec_type, ExecType::Fill);
    assert_eq!(reports[0].order_status, OrderStatus::Filled);
    assert_eq!(reports[2].exec_type, ExecType::PartialFill);
    assert_eq!(reports[2].order_status, OrderStatus::PartiallyFilled);

    let aggressor = &reports[3];
    assert_eq!(aggressor.order_id, OrderId(4));
    assert_eq!(aggressor.exec_id, ExecutionId(23));
    assert_eq!(aggressor.exec_type, ExecType::Fill);
    assert_eq!(aggressor.order_status, OrderStatus::Filled);
    assert_eq!(aggressor.filled_quantity, Decimal::from(10));
    assert_eq!(aggressor.remaining_quantity, Decimal::zero());
    // (3 * 100 + 4 * 101 + 3 * 102) / 10 = 101
    assert_eq!(aggressor.avg_price, Some(Decimal::from(101)));
    assert_eq!(aggressor.last_qty, Some(Decimal::from(3)));
    assert_eq!(aggressor.last_px, Some(Decimal::from(102)));
    // order 3 stays with 6
    assert_eq!(book.best_ask(), Some(Decimal::from(102)));
    assert_eq!(
        book.available_ask_qty_at_or_below(Decimal::from(102), TraderId(9)),
        Decimal::from(6)
    );
}

#[test]
fn average_price_is_the_volume_weighted_mean() {
    let mut book = OrderBook::new(InstrumentId(1));
    book.add_order(&order(1, Side::Sell, 1, Some(100), TimeInForce::GTC, 1)).unwrap();
    book.add_order(&order(2, Side::Sell, 3, Some(101), TimeInForce::GTC, 2)).unwrap();
    let buy = order(3, Side::Buy, 4, Some(101), TimeInForce::GTC, 3);
    let (_, reports) = match_order(&mut book, &buy, 1, 1);
    // (1 * 100 + 3 * 101) / 4 = 100.75
    assert_eq!(reports[2].avg_price, Some(dec(10075, 2)));
}

#[test]
fn aggressor_without_fill_is_new_and_rests() {
    let mut book = OrderBook::new(InstrumentId(1));
    let (trades, reports) =
        match_order(&mut book, &order(1, Side::Sell, 5, Some(100), TimeInForce::GTC, 1), 1, 1);
    assert!(trades.is_empty());
    assert_eq!(reports.len(), 1);
    assert_eq!(reports[0].exec_type, ExecType::New);
    assert_eq!(reports[0].order_status, OrderStatus::New);
    assert_eq!(reports[0].filled_quantity, Decimal::zero());
    assert_eq!(reports[0].remaining_quantity, Decimal::from(5));
    assert_eq!(reports[0].avg_price, None);
    assert_eq!(reports[0].last_qty, None);
    assert_eq!(reports[0].last_px, None);
    assert_eq!(book.best_ask(), Some(Decimal::from(100)));
}

#[test]
fn aggressor_partly_filled_rests_with_the_remainder() {
    let mut book = OrderBook::new(InstrumentId(1));
    book.add_order(&order(1, Side::Buy, 4, Some(100), TimeInForce::GTC, 1)).unwrap();
    let (_, reports) =
        match_order(&mut book, &order(2, Side::Sell, 10, Some(99), TimeInForce::GTC, 2), 1, 1);
    assert_eq!(reports[1].exec_type, ExecType::PartialFill);
    assert_eq!(reports[1].order_status, OrderStatus::PartiallyFilled);
    assert_eq!(reports[1].filled_quantity, Decimal::from(4));
    assert_eq!(reports[1].remaining_quantity, Decimal::from(6));
    assert_eq!(book.best_ask(), Some(Decimal::from(99)));
    assert_eq!(book.best_bid(), None);
    assert_eq!(
        book.available_ask_qty_at_or_below(Decimal::from(99), TraderId(9)),
        Decimal::from(6)
    );
}

#[test]
fn ioc_without_liquidity_is_canceled() {
    let mut book = OrderBook::new(InstrumentId(1));
    book.add_order(&order(1, Side::Sell, 5, Some(101), TimeInForce::GTC, 1)).unwrap();
    let (trades, reports) =
        match_order(&mut book, &order(2, Side::Buy, 5, Some(100), TimeInForce::IOC, 2), 3, 9);
    assert!(trades.is_empty());
    assert_eq!(reports.len(), 1);
    assert_eq!(reports[0].exec_type, ExecType::Canceled);
    assert_eq!(reports[0].order_status, OrderStatus::Canceled);
    assert_eq!(reports[0].exec_id, ExecutionId(9));
    assert_eq!(reports[0].remaining_quantity, Decimal::from(5));
    assert_eq!(book.best_bid(), None);
}

#[test]
fn fok_with_enough_liquidity_fills_whole() {
    let mut book = OrderBook::new(InstrumentId(1));
    book.add_order(&order(1, Side::Sell, 6, Some(100), TimeInForce::GTC, 1)).unwrap();
    book.add_order(&order(2, Side::Sell, 6, Some(101), TimeInForce::GTC, 2)).unwrap();
    let (trades, reports) =
        match_order(&mut book, &order(3, Side::Buy, 10, Some(101), TimeInForce::FOK, 3), 1, 1);
    assert_eq!(trades.len(), 2);
    assert_eq!(reports[2].exec_type, ExecType::Fill);
    assert_eq!(reports[2].filled_quantity, Decimal::from(10));
}

#[test]
fn market_order_remainder_never_rests() {
    let mut book = OrderBook::new(InstrumentId(1));
    book.add_order(&order(1, Side::Buy, 4, Some(100), TimeInForce::GTC, 1)).unwrap();
    let (trades, reports) =
        match_order(&mut book, &order(2, Side::Sell, 10, None, TimeInForce::GTC, 2), 1, 1);
    assert_eq!(trades.len(), 1);
    assert_eq!(reports[1].remaining_quantity, Decimal::from(6));
    assert!(book.best_ask().is_none());
    assert!(book.best_bid().is_none());
}

#[test]
fn identifiers_wrap_around() {
    let mut book = OrderBook::new(InstrumentId(1));
    book.add_order(&order(1, Side::Sell, 1, Some(100), TimeInForce::GTC, 1)).unwrap();
    book.add_order(&order(2, Side::Sell, 1, Some(100), TimeInForce::GTC, 1)).unwrap();
    let (trades, reports) = match_order(
        &mut book,
        &order(3, Side::Buy, 2, Some(100), TimeInForce::GTC, 3),
        u64::MAX,
        u64::MAX - 1,
    );
    assert_eq!(trades[0].trade_id, TradeId(u64::MAX));
    assert_eq!(trades[1].trade_id, TradeId(0));
    assert_eq!(reports[0].exec_id, ExecutionId(u64::MAX - 1));
    assert_eq!(reports[1].exec_id, ExecutionId(u64::MAX));
    assert_eq!(reports[2].exec_id, ExecutionId(0));
}

#[test]
fn fills_add_up_to_what_the_order_filled() {
    let mut book = OrderBook::new(InstrumentId(1));
    book.add_order(&order(1, Side::Sell, 3, Some(100), TimeInForce::GTC, 1)).unwrap();
    book.add_order(&order(2, Side::Sell, 4, Some(101), TimeInForce::GTC, 2)).unwrap();
    book.add_order(&order(3, Side::Sell, 5, Some(103), TimeInForce::GTC, 3)).unwrap();
    let incoming = order(4, Side::Buy, 20, Some(102), TimeInForce::GTC, 4);
    let (trades, reports) = match_order(&mut book, &incoming, 1, 1);
    let traded: i128 = trades.iter().map(|t| t.quantity.mantissa()).sum();
    let aggressor = reports.last().unwrap();
    assert_eq!(traded, 7);
    assert_eq!(aggressor.filled_quantity, Decimal::from(7));
    assert_eq!(aggressor.remaining_quantity, Decimal::from(13));
    assert_eq!(
        aggressor.filled_quantity.mantissa() + aggressor.remaining_quantity.mantissa(),
        incoming.quantity.mantissa()
    );
    // the remainder rests below the ask that was out of reach
    assert_eq!(book.best_bid(), Some(Decimal::from(102)));
    assert_eq!(book.best_ask(), Some(Decimal::from(103)));
    assert!(book.best_bid().unwrap() < book.best_ask().unwrap());
}

#[test]
fn book_takes_a_crossing_order_when_asked_to() {
    // the book lets any order rest; it is the matcher that never asks it to cross
    let mut book = OrderBook::new(InstrumentId(1));
    book.add_order(&order(1, Side::Sell, 3, Some(100), TimeInForce::GTC, 1)).unwrap();
    book.add_order(&order(2, Side::Buy, 3, Some(101), TimeInForce::GTC, 2)).unwrap();
    assert_eq!(book.best_bid(), Some(Decimal::from(101)));
    assert_eq!(book.best_ask(), Some(Decimal::from(100)));
}
