//! Identifiers, order attributes and the order message.

use crate::decimal::Decimal;
use vstd::prelude::*;

verus! {

/// Unique order identifier.
#[derive(Clone, Copy, Debug, PartialEq, Eq, Hash, Structural)]
pub struct OrderId(pub u64);

/// Execution report identifier.
#[derive(Clone, Copy, Debug, PartialEq, Eq, Hash, Structural)]
pub struct ExecutionId(pub u64);

/// Trade identifier.
#[derive(Clone, Copy, Debug, PartialEq, Eq, Hash, Structural)]
pub struct TradeId(pub u64);

/// Instrument identifier.
#[derive(Clone, Copy, Debug, PartialEq, Eq, Hash, Structural)]
pub struct InstrumentId(pub u64);

/// Trader identifier.
#[derive(Clone, Copy, Debug, PartialEq, Eq, Hash, Structural)]
pub struct TraderId(pub u64);

/// Order side.
#[derive(Clone, Copy, Debug, PartialEq, Eq, Structural)]
pub enum Side {
    Buy,
    Sell,
}

/// Order type: limit (with price) or market (take best available).
#[derive(Clone, Copy, Debug, PartialEq, Eq, Structural)]
pub enum OrderType {
    Limit,
    Market,
}

/// Time-in-force: how long the order stays active.
#[derive(Clone, Copy, Debug, PartialEq, Eq, Structural)]
pub enum TimeInForce {
    /// Good-Till-Cancel: rest on book until filled or canceled.
    GTC,
    /// Immediate-or-Cancel: fill what you can immediately; cancel the rest.
    IOC,
    /// Fill-or-Kill: fill entirely immediately or cancel.
    FOK,
}

/// Order lifecycle status in execution reports.
#[derive(Clone, Copy, Debug, PartialEq, Eq, Structural)]
pub enum OrderStatus {
    New,
    PartiallyFilled,
    Filled,
    Canceled,
    Rejected,
}

/// Execution report type.
#[derive(Clone, Copy, Debug, PartialEq, Eq, Structural)]
pub enum ExecType {
    New,
    PartialFill,
    Fill,
    Canceled,
    Rejected,
}

/// Order message.
///
/// For limit orders, `price` must be `Some(...)`. For market orders, `price` is `None`.
#[derive(Clone, Debug)]
pub struct Order {
    pub order_id: OrderId,
    pub client_order_id: String,
    pub instrument_id: InstrumentId,
    pub side: Side,
    pub order_type: OrderType,
    pub quantity: Decimal,
    pub price: Option<Decimal>,
    pub time_in_force: TimeInForce,
    pub timestamp: u64,
    pub trader_id: TraderId,
}

impl Order {
    pub fn is_limit(&self) -> (r: bool)
        ensures
            r == (self.order_type == OrderType::Limit),
    {
        matches!(self.order_type, OrderType::Limit)
    }

    pub fn is_market(&self) -> (r: bool)
        ensures
            r == (self.order_type == OrderType::Market),
    {
        matches!(self.order_type, OrderType::Market)
    }

    /// The order can be admitted: its quantity is above zero, a limit order
    /// has a price and a market order has none.
    pub open spec fn well_formed(&self) -> bool {
        &&& self.quantity.is_positive()
        &&& self.order_type == OrderType::Limit ==> self.price is Some
        &&& self.order_type == OrderType::Market ==> self.price is None
    }

    /// Whether the order can be admitted.
    pub fn is_well_formed(&self) -> (r: bool)
        ensures
            r == self.well_formed(),
    {
        if !self.quantity.positive() {
            return false;
        }
        match self.order_type {
            OrderType::Limit => self.price.is_some(),
            OrderType::Market => self.price.is_none(),
        }
    }
}

/// What is kept of an order while it rests on the book.
#[derive(Clone, Copy, Debug)]
pub struct RestingOrder {
    pub order_id: OrderId,
    pub instrument_id: InstrumentId,
    pub side: Side,
    pub price: Decimal,
    pub quantity: Decimal,
    pub trader_id: TraderId,
}

/// The failures that the books and engines report.
#[derive(Clone, Copy, Debug, PartialEq, Eq, Structural)]
pub enum EngineError {
    /// An order or replacement is not for the book it was handed to.
    InstrumentMismatch,
    /// No book is registered for the instrument.
    UnknownInstrument,
    /// The order to cancel or modify rests in no book.
    UnknownOrder,
    /// A limit order without a price, a market order with one, or a
    /// quantity that is not above zero.
    InvalidOrder,
    /// The instrument to remove still has resting orders.
    InstrumentInUse,
    /// The instrument to add is already registered.
    DuplicateInstrument,
}

impl EngineError {
    /// A sentence that describes the failure.
    pub fn message(&self) -> (r: &'static str)
        ensures
            r@ == self.text(),
    {
        match self {
            EngineError::InstrumentMismatch => "Order must be for the same instrument as the book",
            EngineError::UnknownInstrument => "Unknown instrument",
            EngineError::UnknownOrder => "Order not found",
            EngineError::InvalidOrder =>
                "Invalid order: a limit order must have a price, a market order none, and the quantity must be positive",
            EngineError::InstrumentInUse => "Instrument has resting orders; cancel them first",
            EngineError::DuplicateInstrument => "Instrument already exists",
        }
    }

    /// The sentence of each failure.
    pub open spec fn text(&self) -> Seq<char> {
        match self {
            EngineError::InstrumentMismatch => "Order must be for the same instrument as the book"@,
            EngineError::UnknownInstrument => "Unknown instrument"@,
            EngineError::UnknownOrder => "Order not found"@,
            EngineError::InvalidOrder =>
                "Invalid order: a limit order must have a price, a market order none, and the quantity must be positive"@,
            EngineError::InstrumentInUse => "Instrument has resting orders; cancel them first"@,
            EngineError::DuplicateInstrument => "Instrument already exists"@,
        }
    }
}

} // verus!
