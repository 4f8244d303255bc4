//! Matching engine facades.
//!
//! [`Engine`] owns the book of one instrument and the counters from which
//! trades and execution reports are numbered. [`MultiEngine`] owns one book
//! for each registered instrument, shared counters, and an index from order
//! id to instrument by which orders are canceled and modified.

use crate::book_index::{holds, index_exact, index_kept};
use crate::decimal::Decimal;
use crate::execution::{ExecutionReport, Trade};
use crate::matching::{id_at, match_law, match_order, matched, price_law};
use crate::order_book::{BookView, OrderBook};
use crate::types::{EngineError, InstrumentId, Order, OrderId};
use vstd::prelude::*;

verus! {

/// Top-of-book snapshot for market data.
#[derive(Clone, Copy, Debug)]
pub struct BookSnapshot {
    pub instrument_id: InstrumentId,
    pub best_bid: Option<Decimal>,
    pub best_ask: Option<Decimal>,
}

/// The state of a single-instrument engine as a value.
pub struct EngineView {
    pub instrument_id: InstrumentId,
    pub book: BookView,
    pub next_trade_id: u64,
    pub next_exec_id: u64,
}

impl EngineView {
    /// Why the engine refuses an order, if it does: first for another
    /// instrument, then for its form.
    pub open spec fn refusal(self, order: Order) -> Option<EngineError> {
        if order.instrument_id != self.instrument_id {
            Some(EngineError::InstrumentMismatch)
        } else if !order.well_formed() {
            Some(EngineError::InvalidOrder)
        } else {
            None
        }
    }

    /// The engine after `order` has been matched: the book as matching
    /// leaves it, and each counter moved on by the number of trades and
    /// of reports.
    pub open spec fn submitted(self, order: Order) -> EngineView {
        let m = matched(self.book, order, self.next_trade_id, self.next_exec_id);
        EngineView {
            instrument_id: self.instrument_id,
            book: m.book,
            next_trade_id: id_at(self.next_trade_id, m.trades.len() as int),
            next_exec_id: id_at(self.next_exec_id, m.reports.len() as int),
        }
    }

    /// The engine after the indexed order `id` has been canceled.
    pub open spec fn canceled(self, id: OrderId) -> EngineView {
        EngineView { book: self.book.canceled(id), ..self }
    }

    /// Why the engine refuses to modify order `id`, if it does: the
    /// replacement is refused, or the order is unknown.
    pub open spec fn modify_refusal(self, id: OrderId, replacement: Order) -> Option<EngineError> {
        if self.refusal(replacement) is Some {
            self.refusal(replacement)
        } else if !self.book.orders.contains_key(id.0) {
            Some(EngineError::UnknownOrder)
        } else {
            None
        }
    }
}

/// Single-instrument matching engine.
///
/// Use [`Engine::submit_order`] to send orders; the engine runs matching and
/// returns trades and execution reports. Use [`Engine::cancel_order`] and
/// [`Engine::modify_order`] to change resting orders.
#[derive(Debug)]
pub struct Engine {
    instrument_id: InstrumentId,
    book: OrderBook,
    next_trade_id: u64,
    next_exec_id: u64,
}

impl View for Engine {
    type V = EngineView;

    closed spec fn view(&self) -> EngineView {
        EngineView {
            instrument_id: self.instrument_id,
            book: self.book@,
            next_trade_id: self.next_trade_id,
            next_exec_id: self.next_exec_id,
        }
    }
}

impl Engine {
    /// The book is well formed and is the book of the engine's instrument.
    pub open spec fn wf(&self) -> bool {
        &&& self@.book.wf()
        &&& self@.book.instrument_id == self@.instrument_id
    }

    /// Creates an engine for the given instrument.
    pub fn new(instrument_id: InstrumentId) -> (engine: Engine)
        ensures
            engine.wf(),
            index_exact(engine@.book),
            crate::index_quantities::quantities_indexed(engine@.book),
            engine@ == (EngineView {
                instrument_id,
                book: BookView::empty(instrument_id),
                next_trade_id: 1,
                next_exec_id: 1,
            }),
    {
        Engine { instrument_id, book: OrderBook::new(instrument_id), next_trade_id: 1, next_exec_id: 1 }
    }

    /// Submits an order: runs matching and returns trades and execution
    /// reports. An order for another instrument, a limit order without a
    /// price, a market order with one, and a quantity that is not above zero
    /// are refused, and the engine stays as it was.
    pub fn submit_order(&mut self, order: Order) -> (r: Result<(Vec<Trade>, Vec<ExecutionReport>), EngineError>)
        requires
            old(self).wf(),
        ensures
            final(self).wf(),
            !holds(old(self)@.book, order.order_id.0) ==> index_kept(old(self)@.book, final(self)@.book),
            match old(self)@.refusal(order) {
                Some(e) => r == Err::<(Vec<Trade>, Vec<ExecutionReport>), EngineError>(e) && final(self)@
                    == old(self)@,
                None => {
                    let m = matched(
                        old(self)@.book,
                        order,
                        old(self)@.next_trade_id,
                        old(self)@.next_exec_id,
                    );
                    &&& r is Ok
                    &&& r->Ok_0.0@ == m.trades
                    &&& r->Ok_0.1@ == m.reports
                    &&& final(self)@ == old(self)@.submitted(order)
                    &&& price_law(old(self)@.book, order, m)
                    &&& forall|k: nat| #[trigger]
                        old(self)@.book.sound(k) && order.quantity@.fits_scale(k) ==> match_law(
                            old(self)@.book,
                            order,
                            m,
                            k,
                        )
                },
            },
    {
        if order.instrument_id != self.instrument_id {
            return Err(EngineError::InstrumentMismatch);
        }
        if !order.is_well_formed() {
            return Err(EngineError::InvalidOrder);
        }
        let (trades, reports) = match_order(&mut self.book, &order, self.next_trade_id, self.next_exec_id);
        self.next_trade_id = self.next_trade_id.wrapping_add(trades.len() as u64);
        self.next_exec_id = self.next_exec_id.wrapping_add(reports.len() as u64);
        Ok((trades, reports))
    }

    /// Cancels a resting order by id. Returns `true` if the order was found and removed.
    pub fn cancel_order(&mut self, order_id: OrderId) -> (r: bool)
        requires
            old(self).wf(),
        ensures
            final(self).wf(),
            r == old(self)@.book.orders.contains_key(order_id.0),
            final(self)@ == if r {
                old(self)@.canceled(order_id)
            } else {
                old(self)@
            },
            index_kept(old(self)@.book, final(self)@.book),
            crate::book_index::index_covers(old(self)@.book) ==> !holds(final(self)@.book, order_id.0),
    {
        self.book.cancel_order(order_id)
    }

    /// Modifies an order: cancel by `order_id`, then run matching on the
    /// replacement, which may use the same or a new order id. The
    /// replacement is a new order: what rests of it goes to the tail of its
    /// price level. Where the replacement is refused or the order is
    /// unknown, the engine stays as it was.
    pub fn modify_order(&mut self, order_id: OrderId, replacement: &Order) -> (r: Result<
        (Vec<Trade>, Vec<ExecutionReport>),
        EngineError,
    >)
        requires
            old(self).wf(),
        ensures
            final(self).wf(),
            replacement.order_id == order_id || !holds(old(self)@.book, replacement.order_id.0)
                ==> index_kept(old(self)@.book, final(self)@.book),
            match old(self)@.modify_refusal(order_id, *replacement) {
                Some(e) => r == Err::<(Vec<Trade>, Vec<ExecutionReport>), EngineError>(e) && final(self)@
                    == old(self)@,
                None => {
                    let at = old(self)@.canceled(order_id);
                    let m = matched(at.book, *replacement, at.next_trade_id, at.next_exec_id);
                    &&& r is Ok
                    &&& r->Ok_0.0@ == m.trades
                    &&& r->Ok_0.1@ == m.reports
                    &&& final(self)@ == at.submitted(*replacement)
                    &&& price_law(at.book, *replacement, m)
                    &&& forall|k: nat| #[trigger]
                        old(self)@.book.sound(k) && replacement.quantity@.fits_scale(k) ==> at.book.sound(
                            k,
                        ) && match_law(at.book, *replacement, m, k)
                },
            },
    {
        if replacement.instrument_id != self.instrument_id {
            return Err(EngineError::InstrumentMismatch);
        }
        if !replacement.is_well_formed() {
            return Err(EngineError::InvalidOrder);
        }
        if !self.book.cancel_order(order_id) {
            return Err(EngineError::UnknownOrder);
        }
        let (trades, reports) = match_order(
            &mut self.book,
            replacement,
            self.next_trade_id,
            self.next_exec_id,
        );
        self.next_trade_id = self.next_trade_id.wrapping_add(trades.len() as u64);
        self.next_exec_id = self.next_exec_id.wrapping_add(reports.len() as u64);
        Ok((trades, reports))
    }

    /// Returns the instrument this engine handles.
    pub fn instrument_id(&self) -> (id: InstrumentId)
        ensures
            id == self@.instrument_id,
    {
        self.instrument_id
    }

    /// Best bid price, if any.
    pub fn best_bid(&self) -> (r: Option<Decimal>)
        ensures
            r == self@.book.best_bid(),
    {
        self.book.best_bid()
    }

    /// Best ask price, if any.
    pub fn best_ask(&self) -> (r: Option<Decimal>)
        ensures
            r == self@.book.best_ask(),
    {
        self.book.best_ask()
    }
}

} // verus!
