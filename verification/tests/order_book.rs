use dire_matching_engine::{
    Decimal, EngineError, InstrumentId, Order, OrderBook, OrderId, OrderType, RestingOrder, Side,
    TimeInForce, TraderId,
};

fn order(id: u64, side: Side, qty: i64, price: i64, trader: u64) -> Order {
    Order {
        order_id: OrderId(id),
        client_order_id: format!("c{}", id),
        instrument_id: InstrumentId(1),
        side,
        order_type: OrderType::Limit,
        quantity: Decimal::from(qty),
        price: Some(Decimal::from(price)),
        time_in_force: TimeInForce::GTC,
        timestamp: id,
        trader_id: TraderId(trader),
    }
}

fn dec(mantissa: i128, scale: u32) -> Decimal {
    Decimal::new(mantissa, scale).unwrap()
}

#[test]
fn add_and_cancel_order() {
    let mut book = OrderBook::new(InstrumentId(1));
    let order = order(1, Side::Buy, 10, 100, 1);
    book.add_order(&order).unwrap();
    assert_eq!(book.best_bid(), Some(Decimal::from(100)));
    assert!(book.cancel_order(OrderId(1)));
    assert!(book.best_bid().is_none());
}

#[test]
fn modify_order_same_id_replaces_price_and_quantity() {
    let mut book = OrderBook::new(InstrumentId(1));
    book.add_order(&order(1, Side::Buy, 10, 100, 1)).unwrap();
    let replacement = order(1, Side::Buy, 20, 101, 1);
    book.modify_order(OrderId(1), &replacement).unwrap();
    assert_eq!(book.best_bid(), Some(Decimal::from(101)));
    // Only one order at 101 with qty 20 (same order_id, so one entry)
    book.cancel_order(OrderId(1));
    assert!(book.best_bid().is_none());
}

#[test]
fn modify_order_new_id_cancels_old_adds_new() {
    let mut book = OrderBook::new(InstrumentId(1));
    book.add_order(&order(1, Side::Sell, 10, 100, 1)).unwrap();
    let replacement = order(2, Side::Sell, 5, 99, 1);
    book.modify_order(OrderId(1), &replacement).unwrap();
    assert!(book.best_ask() == Some(Decimal::from(99)));
    assert!(book.cancel_order(OrderId(2)));
    assert!(book.best_ask().is_none());
}

#[test]
fn modify_order_not_found_returns_err() {
    let mut book = OrderBook::new(InstrumentId(1));
    let replacement = order(1, Side::Buy, 10, 100, 1);
    let err = book.modify_order(OrderId(999), &replacement).unwrap_err();
    assert!(err.message().contains("not found"));
    assert_eq!(err, EngineError::UnknownOrder);
}

#[test]
fn modify_order_wrong_instrument_returns_err() {
    let mut book = OrderBook::new(InstrumentId(1));
    book.add_order(&order(1, Side::Buy, 10, 100, 1)).unwrap();
    let mut replacement = order(1, Side::Buy, 20, 101, 1);
    replacement.instrument_id = InstrumentId(2);
    let err = book.modify_order(OrderId(1), &replacement).unwrap_err();
    assert!(err.message().contains("instrument"));
    assert_eq!(err, EngineError::InstrumentMismatch);
    // the refused modification leaves the order where it was
    assert_eq!(book.best_bid(), Some(Decimal::from(100)));
}

#[test]
fn add_order_limit_without_price_returns_err() {
    let mut book = OrderBook::new(InstrumentId(1));
    let mut o = order(1, Side::Buy, 10, 100, 1);
    o.price = None;
    let err = book.add_order(&o).unwrap_err();
    assert!(err.message().to_lowercase().contains("price"));
    assert_eq!(err, EngineError::InvalidOrder);
}

#[test]
fn instrument_id_returns_book_instrument() {
    let book = OrderBook::new(InstrumentId(42));
    assert_eq!(book.instrument_id(), InstrumentId(42));
}

#[test]
fn available_ask_qty_at_or_below_excludes_trader() {
    let mut book = OrderBook::new(InstrumentId(1));
    book.add_order(&order(1, Side::Sell, 10, 100, 1)).unwrap();
    book.add_order(&order(2, Side::Sell, 20, 100, 2)).unwrap();
    assert_eq!(
        book.available_ask_qty_at_or_below(Decimal::from(100), TraderId(1)),
        Decimal::from(20)
    );
    assert_eq!(
        book.available_ask_qty_at_or_below(Decimal::from(100), TraderId(2)),
        Decimal::from(10)
    );
    assert_eq!(
        book.available_ask_qty_at_or_below(Decimal::from(100), TraderId(3)),
        Decimal::from(30)
    );
}

#[test]
fn available_bid_qty_at_or_above_excludes_trader() {
    let mut book = OrderBook::new(InstrumentId(1));
    book.add_order(&order(1, Side::Buy, 10, 100, 1)).unwrap();
    book.add_order(&order(2, Side::Buy, 20, 100, 2)).unwrap();
    assert_eq!(
        book.available_bid_qty_at_or_above(Decimal::from(100), TraderId(1)),
        Decimal::from(20)
    );
    assert_eq!(
        book.available_bid_qty_at_or_above(Decimal::from(100), TraderId(2)),
        Decimal::from(10)
    );
}

#[test]
fn add_order_for_another_instrument_is_refused() {
    let mut book = OrderBook::new(InstrumentId(1));
    let mut o = order(1, Side::Buy, 10, 100, 1);
    o.instrument_id = InstrumentId(2);
    assert_eq!(book.add_order(&o), Err(EngineError::InstrumentMismatch));
    assert!(!book.has_resting_orders());
}

#[test]
fn add_order_with_zero_or_negative_quantity_is_refused() {
    let mut book = OrderBook::new(InstrumentId(1));
    assert_eq!(book.add_order(&order(1, Side::Buy, 0, 100, 1)), Err(EngineError::InvalidOrder));
    assert_eq!(book.add_order(&order(2, Side::Sell, -5, 100, 1)), Err(EngineError::InvalidOrder));
    assert!(!book.has_resting_orders());
    assert!(!book.has_bid());
    assert!(!book.has_ask());
}

#[test]
fn cancel_unknown_order_changes_nothing() {
    let mut book = OrderBook::new(InstrumentId(1));
    book.add_order(&order(1, Side::Sell, 10, 100, 1)).unwrap();
    assert!(!book.cancel_order(OrderId(2)));
    assert!(!book.cancel_order(OrderId(2)));
    assert_eq!(book.best_ask(), Some(Decimal::from(100)));
    assert!(book.has_ask());
    assert!(book.has_resting_orders());
}

#[test]
fn best_prices_follow_the_levels() {
    let mut book = OrderBook::new(InstrumentId(1));
    book.add_order(&order(1, Side::Buy, 1, 98, 1)).unwrap();
    book.add_order(&order(2, Side::Buy, 1, 99, 1)).unwrap();
    book.add_order(&order(3, Side::Buy, 1, 97, 1)).unwrap();
    book.add_order(&order(4, Side::Sell, 1, 103, 1)).unwrap();
    book.add_order(&order(5, Side::Sell, 1, 101, 1)).unwrap();
    book.add_order(&order(6, Side::Sell, 1, 102, 1)).unwrap();
    assert_eq!(book.best_bid(), Some(Decimal::from(99)));
    assert_eq!(book.best_ask(), Some(Decimal::from(101)));
    assert!(book.cancel_order(OrderId(2)));
    assert!(book.cancel_order(OrderId(5)));
    assert_eq!(book.best_bid(), Some(Decimal::from(98)));
    assert_eq!(book.best_ask(), Some(Decimal::from(102)));
}

#[test]
fn prices_of_different_scale_share_a_level() {
    // 100.0 and 100.00 are the same price: one level, first come first served
    let mut book = OrderBook::new(InstrumentId(1));
    let mut a = order(1, Side::Sell, 5, 100, 1);
    a.price = Some(dec(1000, 1));
    let mut b = order(2, Side::Sell, 7, 100, 2);
    b.price = Some(dec(10000, 2));
    book.add_order(&a).unwrap();
    book.add_order(&b).unwrap();
    let fills = book.take_from_asks(Decimal::from(100), Decimal::from(6), TraderId(9));
    assert_eq!(fills.len(), 2);
    assert_eq!(fills[0].resting_order_id, OrderId(1));
    assert_eq!(fills[0].quantity, Decimal::from(5));
    assert!(fills[0].resting_fully_filled);
    assert_eq!(fills[1].resting_order_id, OrderId(2));
    assert_eq!(fills[1].quantity, Decimal::from(1));
    assert!(!fills[1].resting_fully_filled);
    // the level keeps the price as it was first written
    assert_eq!(fills[1].price.scale(), 1);
    assert_eq!(fills[1].price.mantissa(), 1000);
}

#[test]
fn take_from_asks_walks_levels_upward_within_limit() {
    let mut book = OrderBook::new(InstrumentId(1));
    book.add_order(&order(1, Side::Sell, 5, 101, 1)).unwrap();
    book.add_order(&order(2, Side::Sell, 5, 100, 2)).unwrap();
    book.add_order(&order(3, Side::Sell, 5, 102, 3)).unwrap();
    let fills = book.take_from_asks(Decimal::from(101), Decimal::from(20), TraderId(9));
    assert_eq!(fills.len(), 2);
    assert_eq!(fills[0].resting_order_id, OrderId(2));
    assert_eq!(fills[0].price, Decimal::from(100));
    assert_eq!(fills[1].resting_order_id, OrderId(1));
    assert_eq!(fills[1].price, Decimal::from(101));
    assert_eq!(book.best_ask(), Some(Decimal::from(102)));
    // the filled orders have left the index
    assert!(!book.cancel_order(OrderId(1)));
    assert!(!book.cancel_order(OrderId(2)));
    assert!(book.cancel_order(OrderId(3)));
}

#[test]
fn take_from_bids_walks_levels_downward_within_limit() {
    let mut book = OrderBook::new(InstrumentId(1));
    book.add_order(&order(1, Side::Buy, 5, 99, 1)).unwrap();
    book.add_order(&order(2, Side::Buy, 5, 100, 2)).unwrap();
    book.add_order(&order(3, Side::Buy, 5, 98, 3)).unwrap();
    let fills = book.take_from_bids(Decimal::from(99), Decimal::from(7), TraderId(9));
    assert_eq!(fills.len(), 2);
    assert_eq!(fills[0].resting_order_id, OrderId(2));
    assert_eq!(fills[0].quantity, Decimal::from(5));
    assert!(fills[0].resting_fully_filled);
    assert_eq!(fills[1].resting_order_id, OrderId(1));
    assert_eq!(fills[1].resting_trader_id, TraderId(1));
    assert_eq!(fills[1].quantity, Decimal::from(2));
    assert!(!fills[1].resting_fully_filled);
    assert_eq!(book.best_bid(), Some(Decimal::from(99)));
    assert_eq!(
        book.available_bid_qty_at_or_above(Decimal::from(98), TraderId(9)),
        Decimal::from(8)
    );
}

#[test]
fn take_passes_over_own_orders() {
    let mut book = OrderBook::new(InstrumentId(1));
    book.add_order(&order(1, Side::Sell, 5, 100, 7)).unwrap();
    book.add_order(&order(2, Side::Sell, 5, 100, 8)).unwrap();
    let fills = book.take_from_asks(Decimal::from(100), Decimal::from(10), TraderId(7));
    assert_eq!(fills.len(), 1);
    assert_eq!(fills[0].resting_order_id, OrderId(2));
    assert_eq!(book.best_ask(), Some(Decimal::from(100)));
    assert_eq!(
        book.available_ask_qty_at_or_below(Decimal::from(100), TraderId(8)),
        Decimal::from(5)
    );
}

#[test]
fn available_quantity_adds_decimals_of_different_scale() {
    let mut book = OrderBook::new(InstrumentId(1));
    let mut a = order(1, Side::Sell, 1, 100, 1);
    a.quantity = dec(15, 1); // 1.5
    let mut b = order(2, Side::Sell, 1, 101, 2);
    b.quantity = dec(225, 2); // 2.25
    book.add_order(&a).unwrap();
    book.add_order(&b).unwrap();
    let total = book.available_ask_qty_at_or_below(Decimal::from(101), TraderId(9));
    assert_eq!(total, dec(375, 2));
    assert_eq!(total.mantissa(), 375);
    assert_eq!(total.scale(), 2);
    assert_eq!(
        book.available_ask_qty_at_or_below(Decimal::from(100), TraderId(9)),
        dec(15, 1)
    );
    assert_eq!(
        book.available_ask_qty_at_or_below(Decimal::from(99), TraderId(9)),
        Decimal::zero()
    );
}

#[test]
fn available_quantity_stops_at_the_largest_decimal() {
    let mut book = OrderBook::new(InstrumentId(1));
    let mut a = order(1, Side::Buy, 1, 100, 1);
    a.quantity = Decimal::max_value();
    let mut b = order(2, Side::Buy, 1, 100, 2);
    b.quantity = Decimal::max_value();
    book.add_order(&a).unwrap();
    book.add_order(&b).unwrap();
    assert_eq!(
        book.available_bid_qty_at_or_above(Decimal::from(100), TraderId(9)),
        Decimal::max_value()
    );
}

#[test]
fn snapshot_lists_bids_then_asks_each_from_the_lowest_price() {
    let mut book = OrderBook::new(InstrumentId(1));
    book.add_order(&order(1, Side::Buy, 1, 99, 1)).unwrap();
    book.add_order(&order(2, Side::Buy, 2, 98, 2)).unwrap();
    book.add_order(&order(3, Side::Buy, 3, 99, 3)).unwrap();
    book.add_order(&order(4, Side::Sell, 4, 102, 4)).unwrap();
    book.add_order(&order(5, Side::Sell, 5, 101, 5)).unwrap();
    let resting = book.resting_orders_snapshot();
    let ids: Vec<u64> = resting.iter().map(|r| r.order_id.0).collect();
    assert_eq!(ids, vec![2, 1, 3, 5, 4]);
    assert_eq!(resting[0].side, Side::Buy);
    assert_eq!(resting[0].price, Decimal::from(98));
    assert_eq!(resting[0].quantity, Decimal::from(2));
    assert_eq!(resting[0].trader_id, TraderId(2));
    assert_eq!(resting[0].instrument_id, InstrumentId(1));
    assert_eq!(resting[3].side, Side::Sell);
}

#[test]
fn load_resting_orders_restores_time_priority() {
    let mut book = OrderBook::new(InstrumentId(1));
    book.add_order(&order(1, Side::Sell, 5, 100, 1)).unwrap();
    book.add_order(&order(2, Side::Sell, 5, 100, 2)).unwrap();
    book.add_order(&order(3, Side::Buy, 5, 90, 3)).unwrap();
    let resting = book.resting_orders_snapshot();

    let mut copy = OrderBook::new(InstrumentId(1));
    copy.add_order(&order(9, Side::Buy, 1, 50, 9)).unwrap();
    copy.load_resting_orders(&resting, OrderType::Limit, TimeInForce::GTC).unwrap();
    assert_eq!(copy.best_bid(), Some(Decimal::from(90)));
    assert!(!copy.cancel_order(OrderId(9)));
    let fills = copy.take_from_asks(Decimal::from(100), Decimal::from(5), TraderId(9));
    assert_eq!(fills.len(), 1);
    assert_eq!(fills[0].resting_order_id, OrderId(1));
}

#[test]
fn load_resting_orders_stops_at_the_first_refused_order() {
    let r = |id: u64, instrument: u64, qty: i64| RestingOrder {
        order_id: OrderId(id),
        instrument_id: InstrumentId(instrument),
        side: Side::Sell,
        price: Decimal::from(100),
        quantity: Decimal::from(qty),
        trader_id: TraderId(1),
    };
    let mut book = OrderBook::new(InstrumentId(1));
    let err = book
        .load_resting_orders(&[r(1, 1, 5), r(2, 2, 5), r(3, 1, 5)], OrderType::Limit, TimeInForce::GTC)
        .unwrap_err();
    assert_eq!(err, EngineError::InstrumentMismatch);
    assert!(book.cancel_order(OrderId(1)));
    assert!(!book.cancel_order(OrderId(3)));

    let err = book
        .load_resting_orders(&[r(1, 1, 0)], OrderType::Limit, TimeInForce::GTC)
        .unwrap_err();
    assert_eq!(err, EngineError::InvalidOrder);
    assert!(!book.has_resting_orders());
}
