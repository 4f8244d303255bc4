//! Execution reports and trades.
//!
//! An [`ExecutionReport`] is emitted for every order state change; a
//! [`Trade`] for each match between a buy and a sell.

use crate::decimal::Decimal;
use crate::types::{ExecType, ExecutionId, InstrumentId, OrderId, OrderStatus, Side, TradeId};
use vstd::prelude::*;

verus! {

/// Execution report.
#[derive(Clone, Copy, Debug)]
pub struct ExecutionReport {
    pub order_id: OrderId,
    pub exec_id: ExecutionId,
    pub exec_type: ExecType,
    pub order_status: OrderStatus,
    pub filled_quantity: Decimal,
    pub remaining_quantity: Decimal,
    pub avg_price: Option<Decimal>,
    pub last_qty: Option<Decimal>,
    pub last_px: Option<Decimal>,
    pub timestamp: u64,
}

/// Trade.
#[derive(Clone, Copy, Debug)]
pub struct Trade {
    pub trade_id: TradeId,
    pub instrument_id: InstrumentId,
    pub buy_order_id: OrderId,
    pub sell_order_id: OrderId,
    pub price: Decimal,
    pub quantity: Decimal,
    pub timestamp: u64,
    pub aggressor_side: Side,
}

} // verus!
