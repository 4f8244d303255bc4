use dire_matching_engine::{
    match_order, Decimal, InstrumentId, Order, OrderBook, OrderId, OrderType, Side, TimeInForce, TraderId,
};

fn dec(mantissa: i128, scale: u32) -> Decimal {
    Decimal::new(mantissa, scale).unwrap()
}

fn order(id: u64, side: Side, qty: Decimal, price: Decimal, trader: u64) -> Order {
    Order {
        order_id: OrderId(id),
        client_order_id: format!("c{}", id),
        instrument_id: InstrumentId(1),
        side,
        order_type: OrderType::Limit,
        quantity: qty,
        price: Some(price),
        time_in_force: TimeInForce::GTC,
        timestamp: id,
        trader_id: TraderId(trader),
    }
}

#[test]
fn decimal_is_made_of_mantissa_and_scale() {
    let d = dec(-12345, 3);
    assert_eq!(d.mantissa(), -12345);
    assert_eq!(d.scale(), 3);
    assert_eq!(Decimal::from(7).mantissa(), 7);
    assert_eq!(Decimal::from(7).scale(), 0);
    assert_eq!(Decimal::from_i64(-7).mantissa(), -7);
    assert_eq!(Decimal::zero().mantissa(), 0);
    assert_eq!(Decimal::max_value().mantissa(), 79_228_162_514_264_337_593_543_950_335);
}

#[test]
fn decimal_new_refuses_what_does_not_fit() {
    assert!(Decimal::new(0, 28).is_some());
    assert!(Decimal::new(0, 29).is_none());
    assert!(Decimal::new(79_228_162_514_264_337_593_543_950_335, 0).is_some());
    assert!(Decimal::new(79_228_162_514_264_337_593_543_950_336, 0).is_none());
    assert!(Decimal::new(-79_228_162_514_264_337_593_543_950_335, 28).is_some());
    assert!(Decimal::new(-79_228_162_514_264_337_593_543_950_336, 0).is_none());
}

#[test]
fn decimals_compare_as_numbers() {
    assert_eq!(dec(10, 1), dec(100, 2));
    assert_eq!(dec(0, 5), Decimal::zero());
    assert!(dec(15, 1) < Decimal::from(2));
    assert!(dec(-15, 1) < dec(-149, 2));
    assert!(Decimal::from(2) > dec(199, 2));
    assert!(dec(5, 1) >= dec(50, 2));
    assert!(dec(5, 1) <= dec(50, 2));
    assert!(dec(1, 28) > Decimal::zero());
    assert!(Decimal::max_value() > dec(79_228_162_514_264_337_593_543_950_335, 1));
    assert!(dec(15, 1).less_than(&Decimal::from(2)));
    assert!(!Decimal::from(2).less_than(&dec(15, 1)));
    assert!(dec(20, 1).at_most(&Decimal::from(2)));
    assert!(!dec(21, 1).at_most(&Decimal::from(2)));
    assert!(dec(20, 1).equals(&Decimal::from(2)));
    assert!(!dec(20, 1).equals(&dec(20, 2)));
    assert!(dec(1, 3).positive());
    assert!(!Decimal::zero().positive());
    assert!(!dec(-1, 3).positive());
}

#[test]
fn fills_take_the_smaller_quantity_and_leave_the_difference() {
    let mut book = OrderBook::new(InstrumentId(1));
    book.add_order(&order(1, Side::Sell, dec(25, 1), Decimal::from(100), 1)).unwrap();
    let (trades, reports) =
        match_order(&mut book, &order(2, Side::Buy, dec(105, 2), Decimal::from(100), 2), 1, 1);
    // min(1.05, 2.5) = 1.05; the resting order keeps 2.5 - 1.05 = 1.45
    assert_eq!(trades[0].quantity, dec(105, 2));
    assert_eq!(trades[0].quantity.scale(), 2);
    assert_eq!(reports[1].filled_quantity, dec(105, 2));
    assert_eq!(reports[1].remaining_quantity, Decimal::zero());
    let left = book.available_ask_qty_at_or_below(Decimal::from(100), TraderId(9));
    assert_eq!(left, dec(145, 2));
    assert_eq!(left.mantissa(), 145);
}

#[test]
fn equal_quantities_fill_with_the_incoming_one() {
    let mut book = OrderBook::new(InstrumentId(1));
    book.add_order(&order(1, Side::Sell, dec(250, 2), Decimal::from(100), 1)).unwrap();
    let (trades, _) = match_order(&mut book, &order(2, Side::Buy, dec(25, 1), Decimal::from(100), 2), 1, 1);
    assert_eq!(trades[0].quantity, dec(25, 1));
    assert_eq!(trades[0].quantity.scale(), 1);
    assert!(!book.has_resting_orders());
}

#[test]
fn average_price_divides_the_notional_by_the_quantity() {
    let mut book = OrderBook::new(InstrumentId(1));
    book.add_order(&order(1, Side::Sell, Decimal::from(1), Decimal::from(10), 1)).unwrap();
    book.add_order(&order(2, Side::Sell, Decimal::from(2), Decimal::from(11), 1)).unwrap();
    let (_, reports) = match_order(&mut book, &order(3, Side::Buy, Decimal::from(3), Decimal::from(11), 2), 1, 1);
    // (1 * 10 + 2 * 11) / 3 = 10.666... to 28 digits
    let avg = reports[2].avg_price.unwrap();
    assert!(avg > dec(10666, 3));
    assert!(avg < dec(10667, 3));
    assert_eq!(avg, dec(10666666666666666666666666667, 27));
}

#[test]
fn average_price_is_absent_where_the_notional_overflows() {
    let mut book = OrderBook::new(InstrumentId(1));
    let big = dec(1_000_000_000_000_000_000, 0);
    book.add_order(&order(1, Side::Sell, big, big, 1)).unwrap();
    let (trades, reports) = match_order(&mut book, &order(2, Side::Buy, big, big, 2), 1, 1);
    assert_eq!(trades.len(), 1);
    assert_eq!(reports[1].filled_quantity, big);
    assert_eq!(reports[1].avg_price, None);
}

#[test]
fn difference_is_rounded_where_it_cannot_be_written() {
    // 2^96 - 1 less 0.5 has no place for the half: it is rounded to the even neighbour
    let mut book = OrderBook::new(InstrumentId(1));
    book.add_order(&order(1, Side::Sell, dec(5, 1), Decimal::from(1), 1)).unwrap();
    let (trades, reports) =
        match_order(&mut book, &order(2, Side::Buy, Decimal::max_value(), Decimal::from(1), 2), 1, 1);
    assert_eq!(trades[0].quantity, dec(5, 1));
    assert_eq!(reports[1].filled_quantity, dec(5, 1));
    assert_eq!(reports[1].remaining_quantity.mantissa(), 79_228_162_514_264_337_593_543_950_334);
    assert_eq!(reports[1].remaining_quantity.scale(), 0);
}
