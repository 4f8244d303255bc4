use dire_matching_engine::fix::message::{
    cancel_message, exec_type_to_fix, execution_report_to_fix, execution_report_to_fix_with_side,
    ord_status_to_fix, order_from_cancel_replace, order_from_new_order_single, parse_fix_message,
    rejection_message, session_message, FixFieldError, FixMessage, FixWriter,
};
use dire_matching_engine::fix::time::{days_to_ymd, format_utc_timestamp};
use dire_matching_engine::{
    Decimal, ExecType, ExecutionId, ExecutionReport, InstrumentId, OrderId, OrderStatus, OrderType, Side,
    TimeInForce, TraderId,
};

fn dec(mantissa: i128, scale: u32) -> Decimal {
    Decimal::new(mantissa, scale).unwrap()
}

fn message(fields: &[(u32, &str)]) -> FixMessage {
    let mut m = FixMessage::new();
    for (tag, value) in fields {
        m.insert(*tag, value.to_string());
    }
    m
}

#[test]
fn parse_reads_what_the_writer_wrote() {
    let mut w = FixWriter::new();
    w.set(35, "D");
    w.set(11, "42");
    w.set(55, "7");
    w.set(58, "gr\u{fc}n");
    let mut bytes = Vec::new();
    w.write(&mut bytes);
    bytes.extend_from_slice(b"8=FIX.4.4\x01next");
    let (msg, used) = parse_fix_message(&bytes).unwrap();
    assert_eq!(used, bytes.len() - 14);
    assert_eq!(msg.get(&8).map(|s| s.as_str()), Some("FIX.4.4"));
    assert_eq!(msg.get(&9).map(|s| s.as_str()), Some("25"));
    assert_eq!(msg.get(&35).map(|s| s.as_str()), Some("D"));
    assert_eq!(msg.get(&11).map(|s| s.as_str()), Some("42"));
    assert_eq!(msg.get(&55).map(|s| s.as_str()), Some("7"));
    assert_eq!(msg.get(&58).map(|s| s.as_str()), Some("gr\u{fc}n"));
    assert_eq!(msg.get(&10).map(|s| s.len()), Some(3));
    assert_eq!(msg.len(), 7);
}

#[test]
fn parse_wants_a_whole_message() {
    let whole = b"8=FIX.4.4\x019=5\x0135=A\x0110=000\x01";
    let (msg, used) = parse_fix_message(whole).unwrap();
    assert_eq!(used, whole.len());
    assert_eq!(msg.get(&35).map(|s| s.as_str()), Some("A"));
    assert_eq!(msg.get(&10).map(|s| s.as_str()), Some("000"));

    assert!(parse_fix_message(b"").is_none());
    assert!(parse_fix_message(&whole[..whole.len() - 1]).is_none());
    assert!(parse_fix_message(b"8=FIX.4.2\x019=5\x0135=A\x0110=000\x01").is_none());
    assert!(parse_fix_message(b"8=FIX.4.4\x0135=A\x019=5\x0110=000\x01").is_none());
    assert!(parse_fix_message(b"8=FIX.4.4\x019=x\x0135=A\x0110=000\x01").is_none());
    assert!(parse_fix_message(b"8=FIX.4.4\x019=\x0135=A\x0110=000\x01").is_none());
    assert!(parse_fix_message(b"8=FIX.4.4\x019=4\x0135=A\x0110=000\x01").is_none());
    assert!(parse_fix_message(b"8=FIX.4.4\x019=99999999999999999999999\x0135=A\x0110=000\x01").is_none());
    // a tag that is no number
    assert!(parse_fix_message(b"8=FIX.4.4\x019=5\x013a=A\x0110=000\x01").is_none());
    // a value that is not UTF-8
    assert!(parse_fix_message(b"8=FIX.4.4\x019=5\x0135=\xff\x0110=000\x01").is_none());
    // a plus sign is part of a number
    let (msg, _) = parse_fix_message(b"8=FIX.4.4\x019=+6\x01+35=A\x0110=000\x01").unwrap();
    assert_eq!(msg.get(&35).map(|s| s.as_str()), Some("A"));
}

#[test]
fn days_become_dates() {
    assert_eq!(days_to_ymd(0), (1970, 1, 1));
    assert_eq!(days_to_ymd(30), (1970, 1, 31));
    assert_eq!(days_to_ymd(58), (1970, 2, 28));
    assert_eq!(days_to_ymd(-1), (1969 + 1, 12, 31));
    assert_eq!(days_to_ymd(-719468), (1, 3, 1));
    // 2024-02-29, the 19782nd day
    assert_eq!(days_to_ymd(19782), (2024, 2, 29));
    // from March on the year that is reported is one more than the civil year
    assert_eq!(days_to_ymd(59), (1971, 3, 1));
    assert_eq!(days_to_ymd(19783), (2025, 3, 1));
    assert_eq!(days_to_ymd(20088), (2025, 12, 31));
    assert_eq!(days_to_ymd(20089), (2025, 1, 1));
}

#[test]
fn timestamps_are_padded() {
    assert_eq!(format_utc_timestamp(1, 99), "19700101-00:00:01");
    assert_eq!(format_utc_timestamp(0, 86399), "19700101-23:59:59");
    assert_eq!(format_utc_timestamp(0, 0), "19700101-00:00:00");
    // 2025-01-01 12:34:56
    assert_eq!(format_utc_timestamp(1735734896, 0), "20250101-12:34:56");
    // a year of more than four digits is written out
    assert!(format_utc_timestamp(u64::MAX, 0).ends_with("-07:00:15"));
    assert!(format_utc_timestamp(u64::MAX, 0).len() > 17);
}

#[test]
fn new_order_single_becomes_an_order() {
    let fix = message(&[
        (35, "D"),
        (11, "17"),
        (55, "3"),
        (54, "2"),
        (38, "100"),
        (40, "2"),
        (44, "99.50"),
        (59, "3"),
        (52, "12"),
        (1, "8"),
    ]);
    let order = order_from_new_order_single(&fix).unwrap();
    assert_eq!(order.order_id, OrderId(17));
    assert_eq!(order.client_order_id, "17");
    assert_eq!(order.instrument_id, InstrumentId(3));
    assert_eq!(order.side, Side::Sell);
    assert_eq!(order.order_type, OrderType::Limit);
    assert_eq!(order.quantity, Decimal::from(100));
    assert_eq!(order.price, Some(dec(995, 1)));
    assert_eq!(order.price.unwrap().mantissa(), 9950);
    assert_eq!(order.price.unwrap().scale(), 2);
    assert_eq!(order.time_in_force, TimeInForce::IOC);
    assert_eq!(order.timestamp, 12);
    assert_eq!(order.trader_id, TraderId(8));
}

#[test]
fn new_order_single_has_defaults() {
    let fix = message(&[(11, "5"), (38, "1.5"), (44, "10"), (48, "9"), (52, "20250101-12:00:00")]);
    let order = order_from_new_order_single(&fix).unwrap();
    assert_eq!(order.instrument_id, InstrumentId(9));
    assert_eq!(order.side, Side::Buy);
    assert_eq!(order.order_type, OrderType::Limit);
    assert_eq!(order.quantity, dec(15, 1));
    assert_eq!(order.time_in_force, TimeInForce::GTC);
    assert_eq!(order.timestamp, 0);
    assert_eq!(order.trader_id, TraderId(1));

    // field 55 is read before field 48, also where it holds no number
    let fix = message(&[(11, "5"), (38, "1"), (44, "10"), (55, "AAPL"), (48, "9"), (59, "4")]);
    let order = order_from_new_order_single(&fix).unwrap();
    assert_eq!(order.instrument_id, InstrumentId(1));
    assert_eq!(order.time_in_force, TimeInForce::FOK);

    let fix = message(&[(11, "5"), (38, "1"), (40, "1"), (44, "10"), (59, "9")]);
    let order = order_from_new_order_single(&fix).unwrap();
    assert_eq!(order.order_type, OrderType::Market);
    assert_eq!(order.price, None);
    assert_eq!(order.time_in_force, TimeInForce::GTC);
}

#[test]
fn new_order_single_names_the_bad_field() {
    let err = |fields: &[(u32, &str)]| order_from_new_order_single(&message(fields)).unwrap_err();
    assert_eq!(err(&[(38, "1"), (44, "1")]), FixFieldError::MissingClOrdId);
    assert_eq!(err(&[(11, "abc"), (38, "1"), (44, "1")]), FixFieldError::ClOrdIdNotNumeric);
    assert_eq!(err(&[(11, "1"), (54, "3"), (38, "1"), (44, "1")]), FixFieldError::InvalidSide);
    assert_eq!(err(&[(11, "1"), (44, "1")]), FixFieldError::MissingOrderQty);
    assert_eq!(err(&[(11, "1"), (38, "many"), (44, "1")]), FixFieldError::InvalidOrderQty);
    assert_eq!(err(&[(11, "1"), (38, "1"), (40, "3"), (44, "1")]), FixFieldError::InvalidOrdType);
    assert_eq!(err(&[(11, "1"), (38, "1")]), FixFieldError::MissingPrice);
    assert_eq!(err(&[(11, "1"), (38, "1"), (44, "cheap")]), FixFieldError::InvalidPrice);
    assert_eq!(FixFieldError::MissingClOrdId.message(), "missing ClOrdID (11)");
    assert_eq!(FixFieldError::ClOrdIdNotNumeric.message(), "ClOrdID must be numeric");
    assert_eq!(FixFieldError::InvalidSide.message(), "invalid Side (54)");
    assert_eq!(FixFieldError::MissingOrderQty.message(), "missing OrderQty (38)");
    assert_eq!(FixFieldError::InvalidOrderQty.message(), "invalid OrderQty (38)");
    assert_eq!(FixFieldError::InvalidOrdType.message(), "invalid OrdType (40)");
    assert_eq!(FixFieldError::MissingPrice.message(), "missing Price (44) for limit order");
    assert_eq!(FixFieldError::InvalidPrice.message(), "invalid Price (44)");
}

#[test]
fn cancel_replace_takes_the_session_order_id() {
    let fix = message(&[(11, "new-id"), (54, "1"), (38, "4"), (44, "101")]);
    let order = order_from_cancel_replace(&fix, 77).unwrap();
    assert_eq!(order.order_id, OrderId(77));
    assert_eq!(order.client_order_id, "new-id");
    assert_eq!(order.price, Some(Decimal::from(101)));

    let fix = message(&[(11, "x"), (38, "4"), (44, "cheap")]);
    let order = order_from_cancel_replace(&fix, 78).unwrap();
    assert_eq!(order.order_type, OrderType::Limit);
    assert_eq!(order.price, None);
    let fix = message(&[(11, "x"), (38, "4")]);
    assert_eq!(order_from_cancel_replace(&fix, 79).unwrap().price, None);

    assert_eq!(
        order_from_cancel_replace(&message(&[(38, "4")]), 1).unwrap_err(),
        FixFieldError::MissingClOrdId
    );
    assert_eq!(
        order_from_cancel_replace(&message(&[(11, "x"), (38, "")]), 1).unwrap_err(),
        FixFieldError::InvalidOrderQty
    );
}

#[test]
fn codes_of_types_and_statuses() {
    assert_eq!(exec_type_to_fix(ExecType::New), "0");
    assert_eq!(exec_type_to_fix(ExecType::PartialFill), "F");
    assert_eq!(exec_type_to_fix(ExecType::Fill), "F");
    assert_eq!(exec_type_to_fix(ExecType::Canceled), "4");
    assert_eq!(exec_type_to_fix(ExecType::Rejected), "8");
    assert_eq!(ord_status_to_fix(OrderStatus::New), "0");
    assert_eq!(ord_status_to_fix(OrderStatus::PartiallyFilled), "1");
    assert_eq!(ord_status_to_fix(OrderStatus::Filled), "2");
    assert_eq!(ord_status_to_fix(OrderStatus::Canceled), "4");
    assert_eq!(ord_status_to_fix(OrderStatus::Rejected), "8");
}

#[test]
fn execution_report_becomes_a_message() {
    let report = ExecutionReport {
        order_id: OrderId(12),
        exec_id: ExecutionId(34),
        exec_type: ExecType::PartialFill,
        order_status: OrderStatus::PartiallyFilled,
        filled_quantity: dec(25, 1),
        remaining_quantity: dec(750, 2),
        avg_price: Some(dec(9950, 2)),
        last_qty: Some(dec(25, 1)),
        last_px: None,
        timestamp: 86400,
    };
    let bytes = execution_report_to_fix_with_side(&report, Side::Sell, "c12", 5, "DIRED", "CLIENT", 0);
    let body = "35=8\x0134=5\x0149=DIRED\x0152=19700102-00:00:00\x0156=CLIENT\x0111=c12\x0117=34\x01\
                37=12\x0138=10.00\x0139=1\x0140=2\x0154=2\x0114=2.5\x01151=7.50\x016=99.50\x0132=2.5\x01150=F\x01";
    let head = format!("8=FIX.4.4\x019={}\x01", body.len());
    let sum: u32 = head.bytes().chain(body.bytes()).map(|b| b as u32).sum();
    let expected = format!("{}{}10={:03}\x01", head, body, sum % 256);
    assert_eq!(String::from_utf8(bytes.clone()).unwrap(), expected);

    let (msg, used) = parse_fix_message(&bytes).unwrap();
    assert_eq!(used, bytes.len());
    assert_eq!(msg.get(&38).map(|s| s.as_str()), Some("10.00"));
    assert_eq!(msg.get(&31), None);

    let as_buy = execution_report_to_fix(&report, "c12", 5, "DIRED", "CLIENT", 0);
    let (msg, _) = parse_fix_message(&as_buy).unwrap();
    assert_eq!(msg.get(&54).map(|s| s.as_str()), Some("1"));
    // a report without timestamp is stamped with the time that is handed in
    let unstamped = ExecutionReport { timestamp: 0, ..report };
    let stamped = execution_report_to_fix(&unstamped, "c12", 5, "DIRED", "CLIENT", 3600);
    let (msg, _) = parse_fix_message(&stamped).unwrap();
    assert_eq!(msg.get(&52).map(|s| s.as_str()), Some("19700101-01:00:00"));
}

#[test]
fn decimal_texts_round_trip() {
    assert_eq!(dec(150, 2).text(), "1.50");
    assert_eq!(dec(-5, 1).text(), "-0.5");
    assert_eq!(Decimal::from(7).text(), "7");
    let parsed = Decimal::parse("1.50").unwrap();
    assert_eq!(parsed.mantissa(), 150);
    assert_eq!(parsed.scale(), 2);
    assert_eq!(Decimal::parse("-0.5").unwrap(), dec(-5, 1));
    assert!(Decimal::parse("").is_none());
    assert!(Decimal::parse("1.5x").is_none());
}

#[test]
fn session_rejection_and_cancel_messages() {
    let frame = |body: &str| {
        let head = format!("8=FIX.4.4\x019={}\x01", body.len());
        let sum: u32 = head.bytes().chain(body.bytes()).map(|b| b as u32).sum();
        format!("{}{}10={:03}\x01", head, body, sum % 256).into_bytes()
    };
    assert_eq!(
        session_message("A", 1, "DIRED", "CLIENT", 60),
        frame("35=A\x0134=1\x0149=DIRED\x0152=19700101-00:01:00\x0156=CLIENT\x01")
    );
    assert_eq!(
        rejection_message("c1", "market not open", 12, "DIRED", "CLIENT", 0),
        frame(
            "35=8\x0134=12\x0149=DIRED\x0152=19700101-00:00:00\x0156=CLIENT\x0111=c1\x0137=0\x0117=0\x01\
             38=0\x0139=8\x0140=2\x0154=1\x0114=0\x01151=0\x01150=8\x0158=market not open\x01"
        )
    );
    assert_eq!(
        cancel_message("c2", 77, Side::Sell, 3, "DIRED", "CLIENT", 0),
        frame(
            "35=8\x0134=3\x0149=DIRED\x0152=19700101-00:00:00\x0156=CLIENT\x0111=c2\x0117=0\x0137=77\x01\
             38=0\x0139=4\x0140=2\x0154=2\x0114=0\x01151=0\x01150=4\x01"
        )
    );
}
