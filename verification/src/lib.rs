//! A deterministic limit-order matching engine: a price-time priority order
//! book, the matcher that runs one incoming order against it, and the
//! single- and multi-instrument engines that own the books and the trade and
//! execution identifiers.

pub mod auth;
pub mod book_index;
pub mod decimal;
pub mod engine;
pub mod execution;
pub mod fix;
pub mod index_quantities;
pub mod instruments;
pub mod interface;
pub mod market_state;
pub mod matching;
pub mod multi_engine;
pub mod order_book;
pub mod round_trip;
pub mod types;

pub use auth::{AuthConfig, AuthUser, Role};
pub use decimal::Decimal;
pub use engine::{BookSnapshot, Engine};
pub use execution::{ExecutionReport, Trade};
pub use interface::{replay_into_engine, MatchingEngine};
pub use market_state::MarketState;
pub use matching::match_order;
pub use multi_engine::{EngineSnapshot, InstrumentMeta, MultiEngine};
pub use order_book::{Fill, OrderBook};
pub use types::{
    EngineError, ExecType, ExecutionId, InstrumentId, Order, OrderId, OrderStatus, OrderType,
    RestingOrder, Side, TimeInForce, TradeId, TraderId,
};
