//! The operations that every matching engine offers to the protocol
//! adapters, whether it serves one instrument or many.

use crate::decimal::Decimal;
use crate::engine::{BookSnapshot, Engine, EngineView};
use crate::execution::{ExecutionReport, Trade};
use crate::matching::matched;
use crate::multi_engine::{MultiEngine, MultiView};
use crate::types::{EngineError, InstrumentId, Order, OrderId};
use vstd::prelude::*;

verus! {

/// The first instrument of a list, or instrument 0 for an empty list.
pub open spec fn first_instrument(instruments: Seq<InstrumentId>) -> InstrumentId {
    if instruments.len() > 0 {
        instruments[0]
    } else {
        InstrumentId(0)
    }
}

/// The top of the book of the first instrument, if there is one.
pub open spec fn first_top(top: Option<BookSnapshot>) -> BookSnapshot {
    match top {
        Some(s) => s,
        None => BookSnapshot { instrument_id: InstrumentId(0), best_bid: None, best_ask: None },
    }
}

/// Service interface for the matching engine. All protocol adapters call
/// these operations on the same engine instance.
///
/// An engine has a state, and what each operation returns and how it
/// changes the state is a function of the state and the arguments.
pub trait MatchingEngine: Sized {
    /// The state of an engine as a value.
    type State;

    /// The state of the engine.
    spec fn state(&self) -> Self::State;

    /// The state of the engine is consistent.
    spec fn valid(&self) -> bool;

    /// What submitting an order returns: trades and reports, or a refusal.
    spec fn submit_result(state: Self::State, order: Order) -> Result<
        (Seq<Trade>, Seq<ExecutionReport>),
        EngineError,
    >;

    /// The state after an order has been submitted.
    spec fn submit_state(state: Self::State, order: Order) -> Self::State;

    /// What canceling an order returns: the instrument in whose book it
    /// rested, if it rested.
    spec fn cancel_result(state: Self::State, order_id: OrderId) -> Option<InstrumentId>;

    /// The state after an order has been canceled.
    spec fn cancel_state(state: Self::State, order_id: OrderId) -> Self::State;

    /// What modifying an order returns: the trades and reports of the
    /// replacement, or a refusal.
    spec fn modify_result(state: Self::State, order_id: OrderId, replacement: Order) -> Result<
        (Seq<Trade>, Seq<ExecutionReport>),
        EngineError,
    >;

    /// The state after an order has been modified.
    spec fn modify_state(state: Self::State, order_id: OrderId, replacement: Order) -> Self::State;

    /// The instruments that the engine handles.
    spec fn listed(state: Self::State) -> Seq<InstrumentId>;

    /// The top of the book of an instrument, if the engine handles it.
    spec fn top(state: Self::State, id: InstrumentId) -> Option<BookSnapshot>;

    /// Submit an order; returns trades and execution reports.
    fn submit_order(&mut self, order: Order) -> (r: Result<(Vec<Trade>, Vec<ExecutionReport>), EngineError>)
        requires
            old(self).valid(),
        ensures
            final(self).valid(),
            final(self).state() == Self::submit_state(old(self).state(), order),
            match Self::submit_result(old(self).state(), order) {
                Ok((trades, reports)) => r is Ok && r->Ok_0.0@ == trades && r->Ok_0.1@ == reports,
                Err(e) => r == Err::<(Vec<Trade>, Vec<ExecutionReport>), EngineError>(e),
            },
    ;

    /// Cancel a resting order by id. Returns `Some(instrument_id)` if found
    /// and removed, `None` if not found.
    fn cancel_order(&mut self, order_id: OrderId) -> (r: Option<InstrumentId>)
        requires
            old(self).valid(),
        ensures
            final(self).valid(),
            final(self).state() == Self::cancel_state(old(self).state(), order_id),
            r == Self::cancel_result(old(self).state(), order_id),
    ;

    /// Modify: cancel by `order_id`, then match the replacement. Returns
    /// trades and reports.
    fn modify_order(&mut self, order_id: OrderId, replacement: &Order) -> (r: Result<
        (Vec<Trade>, Vec<ExecutionReport>),
        EngineError,
    >)
        requires
            old(self).valid(),
        ensures
            final(self).valid(),
            final(self).state() == Self::modify_state(old(self).state(), order_id, *replacement),
            match Self::modify_result(old(self).state(), order_id, *replacement) {
                Ok((trades, reports)) => r is Ok && r->Ok_0.0@ == trades && r->Ok_0.1@ == reports,
                Err(e) => r == Err::<(Vec<Trade>, Vec<ExecutionReport>), EngineError>(e),
            },
    ;

    /// Instrument(s) this engine handles.
    fn instruments(&self) -> (r: Vec<InstrumentId>)
        ensures
            r@ == Self::listed(self.state()),
    ;

    /// Top-of-book snapshot for a given instrument. Returns `None` if the
    /// engine does not handle it.
    fn book_snapshot_for(&self, id: InstrumentId) -> (r: Option<BookSnapshot>)
        ensures
            r == Self::top(self.state(), id),
    ;

    /// First instrument, or instrument 0 for an engine without instruments.
    fn instrument_id(&self) -> (r: InstrumentId)
        ensures
            r == first_instrument(Self::listed(self.state())),
    {
        let all = self.instruments();
        if all.len() > 0 {
            all[0]
        } else {
            InstrumentId(0)
        }
    }

    /// Best bid for the first instrument.
    fn best_bid(&self) -> (r: Option<Decimal>)
        ensures
            r == first_top(Self::top(self.state(), first_instrument(Self::listed(self.state())))).best_bid,
    {
        match self.book_snapshot_for(self.instrument_id()) {
            Some(s) => s.best_bid,
            None => None,
        }
    }

    /// Best ask for the first instrument.
    fn best_ask(&self) -> (r: Option<Decimal>)
        ensures
            r == first_top(Self::top(self.state(), first_instrument(Self::listed(self.state())))).best_ask,
    {
        match self.book_snapshot_for(self.instrument_id()) {
            Some(s) => s.best_ask,
            None => None,
        }
    }

    /// Current top-of-book snapshot for the first instrument; without bid
    /// and ask, under the id of the first instrument, where the engine has
    /// no book for it.
    fn book_snapshot(&self) -> (r: BookSnapshot)
        ensures
            r == (match Self::top(self.state(), first_instrument(Self::listed(self.state()))) {
                Some(s) => s,
                None => BookSnapshot {
                    instrument_id: first_instrument(Self::listed(self.state())),
                    best_bid: None,
                    best_ask: None,
                },
            }),
    {
        let id = self.instrument_id();
        match self.book_snapshot_for(id) {
            Some(s) => s,
            None => BookSnapshot { instrument_id: id, best_bid: None, best_ask: None },
        }
    }
}

/// The sum of two counts, or the largest count where the sum is larger.
pub open spec fn capped_sum(a: int, b: int) -> int {
    if a + b > usize::MAX {
        usize::MAX as int
    } else {
        a + b
    }
}

/// What replaying orders returns for an engine in the state `state`, once
/// `trades` trades and `reports` reports have been counted: the counts of
/// all trades and reports, each capped at the largest count, where every
/// order is accepted; the refusal of the first order that is refused.
pub open spec fn replayed<E: MatchingEngine>(state: E::State, orders: Seq<Order>, trades: int, reports: int) -> Result<
    (int, int),
    EngineError,
>
    decreases orders.len(),
{
    if orders.len() == 0 {
        Ok((trades, reports))
    } else {
        match E::submit_result(state, orders[0]) {
            Err(e) => Err(e),
            Ok((t, r)) => replayed::<E>(
                E::submit_state(state, orders[0]),
                orders.drop_first(),
                capped_sum(trades, t.len() as int),
                capped_sum(reports, r.len() as int),
            ),
        }
    }
}

/// The state of an engine after orders have been replayed, up to and with
/// the first order that is refused.
pub open spec fn replayed_state<E: MatchingEngine>(state: E::State, orders: Seq<Order>) -> E::State
    decreases orders.len(),
{
    if orders.len() == 0 {
        state
    } else if E::submit_result(state, orders[0]) is Err {
        E::submit_state(state, orders[0])
    } else {
        replayed_state::<E>(E::submit_state(state, orders[0]), orders.drop_first())
    }
}

/// Replays a sequence of orders into the engine. Returns the number of
/// trades and the number of reports (each capped at the largest count), or
/// the error of the first order that the engine refuses; the orders after
/// it are not submitted.
pub fn replay_into_engine<E: MatchingEngine>(engine: &mut E, orders: Vec<Order>) -> (r: Result<
    (usize, usize),
    EngineError,
>)
    requires
        old(engine).valid(),
    ensures
        final(engine).valid(),
        final(engine).state() == replayed_state::<E>(old(engine).state(), orders@),
        match replayed::<E>(old(engine).state(), orders@, 0, 0) {
            Ok((trades, reports)) => r is Ok && r->Ok_0.0 == trades && r->Ok_0.1 == reports,
            Err(e) => r == Err::<(usize, usize), EngineError>(e),
        },
{
    let mut total_trades: usize = 0;
    let mut total_reports: usize = 0;
    let ghost all = orders@;
    let ghost start = engine.state();
    proof {
        assert(all.skip(0) =~= all);
    }
    for order in it: orders
        invariant
            it.seq() == all,
            all == orders@,
            start == old(engine).state(),
            engine.valid(),
            replayed::<E>(start, all, 0, 0) == replayed::<E>(
                engine.state(),
                all.skip(it.index()),
                total_trades as int,
                total_reports as int,
            ),
            replayed_state::<E>(start, all) == replayed_state::<E>(engine.state(), all.skip(it.index())),
    {
        proof {
            assert(all.skip(it.index())[0] == order);
            assert(all.skip(it.index()).drop_first() =~= all.skip(it.index() + 1));
        }
        match engine.submit_order(order) {
            Ok((trades, reports)) => {
                total_trades = total_trades.saturating_add(trades.len());
                total_reports = total_reports.saturating_add(reports.len());
            },
            Err(e) => {
                return Err(e);
            },
        }
    }
    Ok((total_trades, total_reports))
}

impl MatchingEngine for Engine {
    type State = EngineView;

    open spec fn state(&self) -> EngineView {
        self@
    }

    open spec fn valid(&self) -> bool {
        self.wf()
    }

    open spec fn submit_result(state: EngineView, order: Order) -> Result<
        (Seq<Trade>, Seq<ExecutionReport>),
        EngineError,
    > {
        match state.refusal(order) {
            Some(e) => Err(e),
            None => Ok(
                (
                    matched(state.book, order, state.next_trade_id, state.next_exec_id).trades,
                    matched(state.book, order, state.next_trade_id, state.next_exec_id).reports,
                ),
            ),
        }
    }

    open spec fn submit_state(state: EngineView, order: Order) -> EngineView {
        if state.refusal(order) is Some {
            state
        } else {
            state.submitted(order)
        }
    }

    open spec fn cancel_result(state: EngineView, order_id: OrderId) -> Option<InstrumentId> {
        if state.book.orders.contains_key(order_id.0) {
            Some(state.instrument_id)
        } else {
            None
        }
    }

    open spec fn cancel_state(state: EngineView, order_id: OrderId) -> EngineView {
        if state.book.orders.contains_key(order_id.0) {
            state.canceled(order_id)
        } else {
            state
        }
    }

    open spec fn modify_result(state: EngineView, order_id: OrderId, replacement: Order) -> Result<
        (Seq<Trade>, Seq<ExecutionReport>),
        EngineError,
    > {
        match state.modify_refusal(order_id, replacement) {
            Some(e) => Err(e),
            None => Self::submit_result(state.canceled(order_id), replacement),
        }
    }

    open spec fn modify_state(state: EngineView, order_id: OrderId, replacement: Order) -> EngineView {
        if state.modify_refusal(order_id, replacement) is Some {
            state
        } else {
            state.canceled(order_id).submitted(replacement)
        }
    }

    open spec fn listed(state: EngineView) -> Seq<InstrumentId> {
        seq![state.instrument_id]
    }

    open spec fn top(state: EngineView, id: InstrumentId) -> Option<BookSnapshot> {
        if id == state.instrument_id {
            Some(
                BookSnapshot {
                    instrument_id: id,
                    best_bid: state.book.best_bid(),
                    best_ask: state.book.best_ask(),
                },
            )
        } else {
            None
        }
    }

    fn submit_order(&mut self, order: Order) -> (r: Result<(Vec<Trade>, Vec<ExecutionReport>), EngineError>) {
        Engine::submit_order(self, order)
    }

    fn cancel_order(&mut self, order_id: OrderId) -> (r: Option<InstrumentId>) {
        if Engine::cancel_order(self, order_id) {
            Some(Engine::instrument_id(self))
        } else {
            None
        }
    }

    fn modify_order(&mut self, order_id: OrderId, replacement: &Order) -> (r: Result<
        (Vec<Trade>, Vec<ExecutionReport>),
        EngineError,
    >) {
        Engine::modify_order(self, order_id, replacement)
    }

    fn instruments(&self) -> (r: Vec<InstrumentId>) {
        let mut all: Vec<InstrumentId> = Vec::new();
        all.push(Engine::instrument_id(self));
        proof {
            assert(all@ =~= seq![self@.instrument_id]);
        }
        all
    }

    fn book_snapshot_for(&self, id: InstrumentId) -> (r: Option<BookSnapshot>) {
        if id == Engine::instrument_id(self) {
            Some(
                BookSnapshot {
                    instrument_id: id,
                    best_bid: Engine::best_bid(self),
                    best_ask: Engine::best_ask(self),
                },
            )
        } else {
            None
        }
    }

    fn instrument_id(&self) -> (r: InstrumentId) {
        Engine::instrument_id(self)
    }

    fn best_bid(&self) -> (r: Option<Decimal>) {
        Engine::best_bid(self)
    }

    fn best_ask(&self) -> (r: Option<Decimal>) {
        Engine::best_ask(self)
    }
}

impl MatchingEngine for MultiEngine {
    type State = MultiView;

    open spec fn state(&self) -> MultiView {
        self@
    }

    open spec fn valid(&self) -> bool {
        self.wf()
    }

    open spec fn submit_result(state: MultiView, order: Order) -> Result<
        (Seq<Trade>, Seq<ExecutionReport>),
        EngineError,
    > {
        match state.refusal(order) {
            Some(e) => Err(e),
            None => Ok(
                (
                    matched(
                        state.book(order.instrument_id),
                        order,
                        state.next_trade_id,
                        state.next_exec_id,
                    ).trades,
                    matched(
                        state.book(order.instrument_id),
                        order,
                        state.next_trade_id,
                        state.next_exec_id,
                    ).reports,
                ),
            ),
        }
    }

    open spec fn submit_state(state: MultiView, order: Order) -> MultiView {
        if state.refusal(order) is Some {
            state
        } else {
            state.submitted(order)
        }
    }

    open spec fn cancel_result(state: MultiView, order_id: OrderId) -> Option<InstrumentId> {
        if state.cancels(order_id) {
            Some(state.index[order_id.0])
        } else {
            None
        }
    }

    open spec fn cancel_state(state: MultiView, order_id: OrderId) -> MultiView {
        if state.cancels(order_id) {
            state.canceled(order_id)
        } else {
            state
        }
    }

    open spec fn modify_result(state: MultiView, order_id: OrderId, replacement: Order) -> Result<
        (Seq<Trade>, Seq<ExecutionReport>),
        EngineError,
    > {
        match state.modify_refusal(order_id, replacement) {
            Some(e) => Err(e),
            None => Ok(
                (
                    matched(
                        state.canceled(order_id).book(replacement.instrument_id),
                        replacement,
                        state.next_trade_id,
                        state.next_exec_id,
                    ).trades,
                    matched(
                        state.canceled(order_id).book(replacement.instrument_id),
                        replacement,
                        state.next_trade_id,
                        state.next_exec_id,
                    ).reports,
                ),
            ),
        }
    }

    open spec fn modify_state(state: MultiView, order_id: OrderId, replacement: Order) -> MultiView {
        if state.modify_refusal(order_id, replacement) is Some {
            state
        } else {
            state.canceled(order_id).submitted(replacement)
        }
    }

    open spec fn listed(state: MultiView) -> Seq<InstrumentId> {
        Seq::new(state.listings.len(), |i: int| state.listings[i].id)
    }

    open spec fn top(state: MultiView, id: InstrumentId) -> Option<BookSnapshot> {
        if state.has(id) {
            Some(
                BookSnapshot {
                    instrument_id: id,
                    best_bid: state.book(id).best_bid(),
                    best_ask: state.book(id).best_ask(),
                },
            )
        } else {
            None
        }
    }

    fn submit_order(&mut self, order: Order) -> (r: Result<(Vec<Trade>, Vec<ExecutionReport>), EngineError>) {
        MultiEngine::submit_order(self, order)
    }

    fn cancel_order(&mut self, order_id: OrderId) -> (r: Option<InstrumentId>) {
        MultiEngine::cancel_order(self, order_id)
    }

    fn modify_order(&mut self, order_id: OrderId, replacement: &Order) -> (r: Result<
        (Vec<Trade>, Vec<ExecutionReport>),
        EngineError,
    >) {
        MultiEngine::modify_order(self, order_id, replacement)
    }

    fn instruments(&self) -> (r: Vec<InstrumentId>) {
        MultiEngine::instruments(self)
    }

    fn book_snapshot_for(&self, id: InstrumentId) -> (r: Option<BookSnapshot>) {
        MultiEngine::book_snapshot_for(self, id)
    }
}

} // verus!
