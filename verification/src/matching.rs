//! Price-time priority matching.
//!
//! [`match_order`] runs one order against the book: takes liquidity (passing
//! over the trader's own resting orders), produces trades and execution
//! reports, and rests the remainder of a good-till-cancel limit order.

use crate::decimal::{capacity, Decimal};
use crate::execution::{ExecutionReport, Trade};
use crate::order_book::{
    all_of_trader, fill_prices_from, fills_sound, fills_units, has_trader, lemma_fills_units_nonneg,
    lemma_levels_from_prices, lemma_with_entry_best, lemma_with_entry_prices, lemma_with_entry_sound,
    level_from, levels_from, levels_sound, levels_take_law, price_listed,
    queues_nonempty, side_sorted, traders_from, within, BookEntry, BookView, Fill, OrderBook,
};
use crate::types::{
    ExecType, ExecutionId, InstrumentId, Order, OrderStatus, Side, TimeInForce, TradeId,
};
use vstd::prelude::*;

verus! {

/// The identifier `i` places after `first`, for `i` up to `2^64`;
/// identifiers wrap around at `2^64`.
pub open spec fn id_at(first: u64, i: int) -> u64 {
    if first + i >= 0x1_0000_0000_0000_0000 {
        (first + i - 0x1_0000_0000_0000_0000) as u64
    } else {
        (first + i) as u64
    }
}

/// The side that an incoming order takes from.
pub open spec fn resting_side(order: Order) -> Side {
    match order.side {
        Side::Buy => Side::Sell,
        Side::Sell => Side::Buy,
    }
}

/// The worst price that an incoming order accepts: its own price, and for
/// an order without one the largest decimal for a buy, zero for a sell.
pub open spec fn price_limit(order: Order) -> Decimal {
    match order.price {
        Some(p) => p,
        None => match order.side {
            Side::Buy => Decimal::largest(),
            Side::Sell => Decimal::nil(),
        },
    }
}

/// The quantity within the order's limit that is open to its trader.
pub open spec fn available_for(book: BookView, order: Order) -> Decimal {
    match order.side {
        Side::Buy => book.ask_quantity(price_limit(order), order.trader_id),
        Side::Sell => book.bid_quantity(price_limit(order), order.trader_id),
    }
}

/// A fill-or-kill order that the book cannot fill whole.
pub open spec fn killed(book: BookView, order: Order) -> bool {
    order.time_in_force == TimeInForce::FOK && available_for(book, order).is_below(order.quantity)
}

/// The trade that one fill of the order gives.
pub open spec fn trade_of(order: Order, instrument_id: InstrumentId, f: Fill, trade_id: u64) -> Trade {
    Trade {
        trade_id: TradeId(trade_id),
        instrument_id,
        buy_order_id: match order.side {
            Side::Buy => order.order_id,
            Side::Sell => f.resting_order_id,
        },
        sell_order_id: match order.side {
            Side::Buy => f.resting_order_id,
            Side::Sell => order.order_id,
        },
        price: f.price,
        quantity: f.quantity,
        timestamp: order.timestamp,
        aggressor_side: order.side,
    }
}

/// The report to the resting order of one fill. It speaks of that fill
/// alone: what it filled, at what price, and a remaining quantity of zero.
pub open spec fn resting_report(order: Order, f: Fill, exec_id: u64) -> ExecutionReport {
    ExecutionReport {
        order_id: f.resting_order_id,
        exec_id: ExecutionId(exec_id),
        exec_type: if f.resting_fully_filled {
            ExecType::Fill
        } else {
            ExecType::PartialFill
        },
        order_status: if f.resting_fully_filled {
            OrderStatus::Filled
        } else {
            OrderStatus::PartiallyFilled
        },
        filled_quantity: f.quantity,
        remaining_quantity: Decimal::nil(),
        avg_price: Some(f.price),
        last_qty: Some(f.quantity),
        last_px: Some(f.price),
        timestamp: order.timestamp,
    }
}

/// The report of an order that is canceled whole.
pub open spec fn canceled_report(order: Order, exec_id: u64) -> ExecutionReport {
    ExecutionReport {
        order_id: order.order_id,
        exec_id: ExecutionId(exec_id),
        exec_type: ExecType::Canceled,
        order_status: OrderStatus::Canceled,
        filled_quantity: Decimal::nil(),
        remaining_quantity: order.quantity,
        avg_price: None,
        last_qty: None,
        last_px: None,
        timestamp: order.timestamp,
    }
}

/// The quantities of the fills, added to `total` one after the other.
pub open spec fn filled_total(fills: Seq<Fill>, total: Decimal) -> Decimal
    decreases fills.len(),
{
    if fills.len() == 0 {
        total
    } else {
        filled_total(fills.drop_first(), total.sum(fills[0].quantity))
    }
}

/// `total` and the product of price and quantity of one fill; `None` once a
/// product or a sum has overflowed.
pub open spec fn with_notional(total: Option<Decimal>, f: Fill) -> Option<Decimal> {
    match (total, f.price.product(f.quantity)) {
        (Some(t), Some(p)) => t.checked_sum(p),
        _ => None,
    }
}

/// Price times quantity of the fills, added to `total` one after the other.
pub open spec fn notional_total(fills: Seq<Fill>, total: Option<Decimal>) -> Option<Decimal>
    decreases fills.len(),
{
    if fills.len() == 0 {
        total
    } else {
        notional_total(fills.drop_first(), with_notional(total, fills[0]))
    }
}

/// The volume-weighted mean price of the fills: the sum of price times
/// quantity, divided by the sum of the quantities. `None` where nothing was
/// filled or the decimal arithmetic overflows.
pub open spec fn average_price(fills: Seq<Fill>) -> Option<Decimal> {
    let filled = filled_total(fills, Decimal::nil());
    if filled.is_positive() {
        match notional_total(fills, Some(Decimal::nil())) {
            Some(n) => n.quotient(filled),
            None => None,
        }
    } else {
        None
    }
}

/// What is left of the order after the fills.
pub open spec fn remaining_after(order: Order, fills: Seq<Fill>) -> Decimal {
    order.quantity.difference(filled_total(fills, Decimal::nil()))
}

/// The report to the incoming order, after all the reports to resting
/// orders: filled and remaining quantity over all fills, the mean price, and
/// quantity and price of the last fill.
pub open spec fn aggressor_report(order: Order, fills: Seq<Fill>, exec_id: u64) -> ExecutionReport {
    let filled = filled_total(fills, Decimal::nil());
    let remaining = remaining_after(order, fills);
    ExecutionReport {
        order_id: order.order_id,
        exec_id: ExecutionId(exec_id),
        exec_type: if !remaining.is_positive() {
            ExecType::Fill
        } else if filled.is_positive() {
            ExecType::PartialFill
        } else {
            ExecType::New
        },
        order_status: if !remaining.is_positive() {
            OrderStatus::Filled
        } else if filled.is_positive() {
            OrderStatus::PartiallyFilled
        } else {
            OrderStatus::New
        },
        filled_quantity: filled,
        remaining_quantity: remaining,
        avg_price: average_price(fills),
        last_qty: if fills.len() > 0 {
            Some(fills.last().quantity)
        } else {
            None
        },
        last_px: if fills.len() > 0 {
            Some(fills.last().price)
        } else {
            None
        },
        timestamp: order.timestamp,
    }
}

/// The remainder of the order comes to rest: a good-till-cancel order with
/// a price, for the book's instrument, of which something is left.
pub open spec fn rests(book: BookView, order: Order, fills: Seq<Fill>) -> bool {
    &&& remaining_after(order, fills).is_positive()
    &&& order.time_in_force == TimeInForce::GTC
    &&& order.price is Some
    &&& order.instrument_id == book.instrument_id
}

/// The entry that the remainder of the order rests as.
pub open spec fn remainder_entry(order: Order, fills: Seq<Fill>) -> BookEntry {
    BookEntry {
        order_id: order.order_id,
        quantity: remaining_after(order, fills),
        trader_id: order.trader_id,
    }
}

/// The trades of the fills, numbered from `next_trade_id`.
pub open spec fn trades_of(order: Order, instrument_id: InstrumentId, fills: Seq<Fill>, next_trade_id: u64) -> Seq<
    Trade,
> {
    Seq::new(fills.len(), |i: int| trade_of(order, instrument_id, fills[i], id_at(next_trade_id, i)))
}

/// The reports to the resting orders of the fills, numbered from `next_exec_id`.
pub open spec fn resting_reports(order: Order, fills: Seq<Fill>, next_exec_id: u64) -> Seq<ExecutionReport> {
    Seq::new(fills.len(), |i: int| resting_report(order, fills[i], id_at(next_exec_id, i)))
}

/// What matching one order gives.
pub struct Matched {
    pub trades: Seq<Trade>,
    pub reports: Seq<ExecutionReport>,
    pub book: BookView,
}

/// Matching `order` against `book`.
///
/// A fill-or-kill order that cannot be filled whole is canceled and the
/// book stays as it was. Else liquidity is taken from the opposite side up
/// to the order's limit; each fill gives one trade and one report to the
/// resting order. An immediate-or-cancel order without a fill is canceled.
/// Else one report to the incoming order follows, and the remainder of a
/// good-till-cancel order with a price comes to rest.
pub open spec fn matched(book: BookView, order: Order, next_trade_id: u64, next_exec_id: u64) -> Matched {
    if killed(book, order) {
        Matched {
            trades: Seq::empty(),
            reports: seq![canceled_report(order, next_exec_id)],
            book,
        }
    } else {
        let side = resting_side(order);
        let fills = book.taken(side, price_limit(order), order.quantity, order.trader_id).fills;
        let after = book.after_take(side, price_limit(order), order.quantity, order.trader_id);
        let trades = trades_of(order, book.instrument_id, fills, next_trade_id);
        let reports = resting_reports(order, fills, next_exec_id);
        if fills.len() == 0 && order.time_in_force == TimeInForce::IOC {
            Matched { trades, reports: reports.push(canceled_report(order, next_exec_id)), book: after }
        } else {
            Matched {
                trades,
                reports: reports.push(
                    aggressor_report(order, fills, id_at(next_exec_id, fills.len() as int)),
                ),
                book: if rests(after, order, fills) {
                    after.rested(order.side, order.price->0, remainder_entry(order, fills))
                } else {
                    after
                },
            }
        }
    }
}

/// The exact sum of the quantities of the trades, in units of `10^-28`.
pub open spec fn trades_units(trades: Seq<Trade>) -> int
    decreases trades.len(),
{
    if trades.len() == 0 {
        0
    } else {
        trades_units(trades.drop_last()) + trades.last().quantity@.units()
    }
}

/// Within the order's limit, no order of its own trader rests on the side
/// that it takes from.
pub open spec fn no_own_within(book: BookView, order: Order) -> bool {
    let levels = book.side(resting_side(order));
    forall|i: int, j: int|
        0 <= i < levels.len() && 0 <= j < levels[i].queue.len() && within(
            resting_side(order),
            levels[i].price,
            price_limit(order),
        ) ==> (#[trigger] levels[i].queue[j]).trader_id != order.trader_id
}

/// The best price of the side that the order takes from is within the
/// order's limit, and only orders of the order's own trader rest there:
/// the one way in which a book comes to be crossed.
pub open spec fn own_orders_in_reach(book: BookView, order: Order) -> bool {
    let levels = book.side(resting_side(order));
    &&& levels.len() > 0
    &&& within(resting_side(order), levels[0].price, price_limit(order))
    &&& all_of_trader(levels[0].queue, order.trader_id)
}

/// What holds of matching an order with a quantity above zero against a
/// book whose quantities are above zero, where all of them can be written
/// at scale `k`.
///
/// The quantities that rest afterwards are sound again. Every trade has a
/// quantity above zero; no report has a filled or remaining quantity below
/// zero. The quantities of the trades add up to the filled quantity of
/// the last report, the one to the incoming order, whose filled and
/// remaining quantity add up to the quantity of the order. And where the
/// best bid was below the best ask, it is so afterwards, unless the order
/// has passed over orders of its own trader that rest at the best price
/// within its limit; which it has not where no order of that trader
/// rested within the limit before.
#[verifier::opaque]
pub open spec fn match_law(book: BookView, order: Order, m: Matched, k: nat) -> bool {
    &&& m.book.sound(k)
    &&& forall|i: int| 0 <= i < m.trades.len() ==> (#[trigger] m.trades[i]).quantity.sound(k)
    &&& forall|i: int|
        0 <= i < m.reports.len() ==> (#[trigger] m.reports[i]).filled_quantity@.units() >= 0
            && m.reports[i].remaining_quantity@.units() >= 0
    &&& m.reports.len() > 0
    &&& trades_units(m.trades) == m.reports.last().filled_quantity@.units()
    &&& m.reports.last().filled_quantity@.units() + m.reports.last().remaining_quantity@.units()
        == order.quantity@.units()
    &&& book.uncrossed() ==> m.book.uncrossed() || own_orders_in_reach(m.book, order)
    &&& no_own_within(book, order) && !killed(book, order) ==> !own_orders_in_reach(m.book, order)
}

/// What holds of the prices when an order is matched against a book
/// without a resting price below zero: no trade has a price below zero,
/// and where the order has no price below zero, the book has none
/// afterwards.
pub open spec fn price_law(book: BookView, order: Order, m: Matched) -> bool {
    book.prices_nonneg() ==> {
        &&& forall|i: int| 0 <= i < m.trades.len() ==> (#[trigger] m.trades[i]).price@.units() >= 0
        &&& (order.price is Some ==> order.price->0@.units() >= 0) ==> m.book.prices_nonneg()
    }
}

/// Where the fills and the levels that stay have their prices from the
/// book, matching obeys the law of prices.
pub proof fn lemma_price_law(book: BookView, order: Order, next_trade_id: u64, next_exec_id: u64)
    requires
        book.wf(),
        !killed(book, order) ==> ({
            let side = resting_side(order);
            let t = book.taken(side, price_limit(order), order.quantity, order.trader_id);
            &&& levels_from(t.kept, book.side(side))
            &&& fill_prices_from(t.fills, book.side(side))
            &&& side_sorted(side, t.kept)
        }),
    ensures
        price_law(book, order, matched(book, order, next_trade_id, next_exec_id)),
{
    let m = matched(book, order, next_trade_id, next_exec_id);
    if book.prices_nonneg() && !killed(book, order) {
        let side = resting_side(order);
        let t = book.taken(side, price_limit(order), order.quantity, order.trader_id);
        let after = book.after_take(side, price_limit(order), order.quantity, order.trader_id);
        assert forall|i: int| 0 <= i < m.trades.len() implies (#[trigger] m.trades[i]).price@.units() >= 0 by {
            assert(m.trades[i].price == t.fills[i].price);
            assert(price_listed(t.fills[i].price, book.side(side)));
            let j = choose|j: int|
                0 <= j < book.side(side).len() && (#[trigger] book.side(side)[j]).price == t.fills[i].price;
            assert(book.side(side)[j].price@.units() >= 0);
        }
        lemma_levels_from_prices(t.kept, book.side(side));
        assert(after.prices_nonneg());
        if order.price is Some && order.price->0@.units() >= 0 && rests(after, order, t.fills) {
            lemma_with_entry_prices(
                order.side,
                after.side(order.side),
                order.price->0,
                remainder_entry(order, t.fills),
            );
        }
    }
}

/// The quantities of the trades of some fills add up to those of the fills.
pub proof fn lemma_trades_units(order: Order, instrument_id: InstrumentId, fills: Seq<Fill>, next_trade_id: u64)
    ensures
        trades_units(trades_of(order, instrument_id, fills, next_trade_id)) == fills_units(fills),
    decreases fills.len(),
{
    if fills.len() > 0 {
        let trades = trades_of(order, instrument_id, fills, next_trade_id);
        assert(trades.drop_last() =~= trades_of(order, instrument_id, fills.drop_last(), next_trade_id));
        lemma_trades_units(order, instrument_id, fills.drop_last(), next_trade_id);
    }
}

/// The sum of the first fills is at most the sum of all, where no fill has
/// a quantity below zero.
pub proof fn lemma_fills_units_prefix(fills: Seq<Fill>, i: int, k: nat)
    requires
        fills_sound(fills, k),
        0 <= i <= fills.len(),
    ensures
        0 <= fills_units(fills.take(i)) <= fills_units(fills),
    decreases fills.len() - i,
{
    assert forall|a: int| 0 <= a < i implies (#[trigger] fills.take(i)[a]).quantity.sound(k) by {
        assert(fills.take(i)[a] == fills[a]);
    }
    lemma_fills_units_nonneg(fills.take(i), k);
    if i < fills.len() {
        assert(fills.take(i + 1).drop_last() =~= fills.take(i));
        assert(fills.take(i + 1).last() == fills[i]);
        assert(fills[i].quantity.sound(k));
        lemma_fills_units_prefix(fills, i + 1, k);
    } else {
        assert(fills.take(i) =~= fills);
    }
}

/// Where taking obeyed its law and the sums were exact, matching obeys its
/// law.
pub proof fn lemma_match_law(book: BookView, order: Order, next_trade_id: u64, next_exec_id: u64, k: nat)
    requires
        book.wf(),
        book.sound(k),
        order.quantity.sound(k),
        !killed(book, order) ==> ({
            let side = resting_side(order);
            let t = book.taken(side, price_limit(order), order.quantity, order.trader_id);
            &&& levels_take_law(side, price_limit(order), order.quantity, order.trader_id, t, k)
            &&& levels_from(t.kept, book.side(side))
            &&& queues_nonempty(t.kept)
            &&& side_sorted(side, t.kept)
            &&& filled_total(t.fills, Decimal::nil())@.units() == fills_units(t.fills)
            &&& filled_total(t.fills, Decimal::nil()).room(k)
            &&& remaining_after(order, t.fills)@.units() == order.quantity@.units() - fills_units(t.fills)
            &&& remaining_after(order, t.fills).room(k)
        }),
    ensures
        match_law(book, order, matched(book, order, next_trade_id, next_exec_id), k),
{
    reveal(match_law);
    reveal(levels_take_law);
    Decimal::lemma_constants();
    let m = matched(book, order, next_trade_id, next_exec_id);
    if killed(book, order) {
        assert(m.trades.len() == 0);
        assert(m.reports.last() == canceled_report(order, next_exec_id));
    } else {
        let side = resting_side(order);
        let limit = price_limit(order);
        let t = book.taken(side, limit, order.quantity, order.trader_id);
        let fills = t.fills;
        let after = book.after_take(side, limit, order.quantity, order.trader_id);
        lemma_trades_units(order, book.instrument_id, fills, next_trade_id);
        lemma_fills_units_nonneg(fills, k);
        assert forall|i: int| 0 <= i < m.trades.len() implies (#[trigger] m.trades[i]).quantity.sound(k) by {
            assert(m.trades[i].quantity == fills[i].quantity);
        }
        assert forall|i: int| 0 <= i < m.reports.len() implies (
        #[trigger] m.reports[i]).filled_quantity@.units() >= 0 && m.reports[i].remaining_quantity@.units()
            >= 0 by {
            if i < fills.len() {
                assert(m.reports[i] == resting_report(order, fills[i], crate::matching::id_at(next_exec_id, i)));
                assert(fills[i].quantity.sound(k));
            }
        }
        assert(after.sound(k));
        // the taken side keeps prices that were there before
        if t.kept.len() > 0 {
            assert(level_from(t.kept[0], book.side(side)));
            let j = choose|j: int|
                0 <= j < book.side(side).len() && (#[trigger] book.side(side)[j]).price == t.kept[0].price
                    && traders_from(t.kept[0].queue, book.side(side)[j].queue);
            if j > 0 {
                assert(crate::order_book::better(side, book.side(side)[0].price, book.side(side)[j].price));
            }
            if no_own_within(book, order) && within(side, t.kept[0].price, limit) && all_of_trader(
                t.kept[0].queue,
                order.trader_id,
            ) {
                assert(t.kept[0].queue[0].trader_id == order.trader_id);
                assert(has_trader(book.side(side)[j].queue, t.kept[0].queue[0].trader_id));
                let n = choose|n: int|
                    0 <= n < book.side(side)[j].queue.len() && (#[trigger] book.side(side)[j].queue[n]).trader_id
                        == order.trader_id;
                assert(book.side(side)[j].queue[n].trader_id != order.trader_id);
            }
        }
        if fills.len() == 0 && order.time_in_force == TimeInForce::IOC {
            assert(m.trades.len() == 0);
            assert(m.reports.last() == canceled_report(order, next_exec_id));
            assert(fills_units(fills) == 0);
        } else {
            assert(m.reports.last() == aggressor_report(
                order,
                fills,
                crate::matching::id_at(next_exec_id, fills.len() as int),
            ));
            if rests(after, order, fills) {
                let entry = remainder_entry(order, fills);
                lemma_with_entry_sound(order.side, after.side(order.side), order.price->0, entry, k);
                lemma_with_entry_best(order.side, after.side(order.side), order.price->0, entry);
            }
        }
    }
}

/// The report of an order that is canceled whole.
fn cancel_report(order: &Order, exec_id: u64) -> (r: ExecutionReport)
    ensures
        r == canceled_report(*order, exec_id),
{
    ExecutionReport {
        order_id: order.order_id,
        exec_id: ExecutionId(exec_id),
        exec_type: ExecType::Canceled,
        order_status: OrderStatus::Canceled,
        filled_quantity: Decimal::zero(),
        remaining_quantity: order.quantity,
        avg_price: None,
        last_qty: None,
        last_px: None,
        timestamp: order.timestamp,
    }
}

/// The summed quantity of the fills and their mean price.
fn summarize(fills: &Vec<Fill>) -> (r: (Decimal, Option<Decimal>))
    ensures
        r.0 == filled_total(fills@, Decimal::nil()),
        r.1 == average_price(fills@),
        forall|k: nat| #[trigger]
            fills_sound(fills@, k) && k <= crate::decimal::MAX_SCALE && fills_units(fills@) < capacity(k) ==> r.0@.units() == fills_units(
                fills@,
            ) && r.0.room(k),
{
    let mut filled = Decimal::zero();
    let mut notional = Some(Decimal::zero());
    let mut i: usize = 0;
    proof {
        assert(fills@.skip(0) =~= fills@);
        assert(fills@.take(0) =~= Seq::<Fill>::empty());
        assert forall|k: nat| #[trigger] fills_sound(fills@, k) && k <= crate::decimal::MAX_SCALE && fills_units(fills@) < capacity(k) implies
            filled@.units() == fills_units(fills@.take(0)) && filled.room(k) by {
            if fills@.len() > 0 {
                assert(fills@[0].quantity.sound(k));
            }
            crate::decimal::lemma_capacity(k, k);
            assert(filled@.units() == 0);
            assert(fills_units(fills@.take(0)) == 0);
            assert(filled@.valid());
            assert(filled@.fits_scale(k));
        }
    }
    while i < fills.len()
        invariant
            i <= fills.len(),
            filled_total(fills@, Decimal::nil()) == filled_total(fills@.skip(i as int), filled),
            notional_total(fills@, Some(Decimal::nil())) == notional_total(
                fills@.skip(i as int),
                notional,
            ),
            forall|k: nat| #[trigger]
                fills_sound(fills@, k) && k <= crate::decimal::MAX_SCALE && fills_units(fills@) < capacity(k) ==> filled@.units()
                    == fills_units(fills@.take(i as int)) && filled.room(k),
        decreases fills.len() - i,
    {
        let f = fills[i];
        let ghost before = filled;
        proof {
            assert(fills@.skip(i as int).drop_first() =~= fills@.skip(i as int + 1));
            assert(fills@.skip(i as int)[0] == f);
        }
        filled = Decimal::plus(filled, f.quantity);
        proof {
            assert forall|k: nat| #[trigger] fills_sound(fills@, k) && k <= crate::decimal::MAX_SCALE && fills_units(fills@) < capacity(k)
                implies filled@.units() == fills_units(fills@.take(i as int + 1)) && filled.room(k) by {
                assert(fills@[i as int].quantity.sound(k));
                assert(fills@.take(i as int + 1).drop_last() =~= fills@.take(i as int));
                assert(fills@.take(i as int + 1).last() == f);
                lemma_fills_units_prefix(fills@, i as int + 1, k);
                Decimal::lemma_sum_exact(before, f.quantity, k);
            }
        }
        notional = match (notional, Decimal::times(f.price, f.quantity)) {
            (Some(t), Some(p)) => Decimal::checked_plus(t, p),
            _ => None,
        };
        i += 1;
    }
    proof {
        assert(fills@.take(fills.len() as int) =~= fills@);
    }
    let average = if filled.positive() {
        match notional {
            Some(n) => Decimal::divided_by(n, filled),
            None => None,
        }
    } else {
        None
    };
    (filled, average)
}

/// Run matching for one order against the book: price-time priority,
/// partial fills, time in force (GTC/IOC/FOK), self-trade prevention.
/// Returns (trades, execution_reports): one trade and one report to the
/// resting order for each fill, in fill order, then one report to the
/// incoming order. Trades are numbered from `next_trade_id`, reports from
/// `next_exec_id`.
pub fn match_order(book: &mut OrderBook, order: &Order, next_trade_id: u64, next_exec_id: u64) -> (r: (
    Vec<Trade>,
    Vec<ExecutionReport>,
))
    requires
        old(book).wf(),
    ensures
        final(book).wf(),
        r.0@ == matched(old(book)@, *order, next_trade_id, next_exec_id).trades,
        r.1@ == matched(old(book)@, *order, next_trade_id, next_exec_id).reports,
        final(book)@ == matched(old(book)@, *order, next_trade_id, next_exec_id).book,
        forall|k: nat| #[trigger]
            old(book)@.sound(k) && order.quantity.sound(k) ==> match_law(
                old(book)@,
                *order,
                matched(old(book)@, *order, next_trade_id, next_exec_id),
                k,
            ),
        price_law(old(book)@, *order, matched(old(book)@, *order, next_trade_id, next_exec_id)),
        !crate::book_index::holds(old(book)@, order.order_id.0) ==> crate::book_index::index_kept(
            old(book)@,
            final(book)@,
        ),
{
    proof {
        if !crate::book_index::holds(old(book)@, order.order_id.0) && crate::book_index::index_covers(
            old(book)@,
        ) {
            crate::book_index::lemma_matched_covers(old(book)@, *order, next_trade_id, next_exec_id);
            if crate::index_quantities::quantities_indexed(old(book)@) {
                crate::index_quantities::lemma_matched_quantities(
                    old(book)@,
                    *order,
                    next_trade_id,
                    next_exec_id,
                );
            }
        }
    }
    let instrument_id = book.instrument_id();
    let mut trades: Vec<Trade> = Vec::new();
    let mut reports: Vec<ExecutionReport> = Vec::new();

    let limit = match order.price {
        Some(p) => p,
        None => match order.side {
            Side::Buy => Decimal::max_value(),
            Side::Sell => Decimal::zero(),
        },
    };
    let available = match order.side {
        Side::Buy => book.available_ask_qty_at_or_below(limit, order.trader_id),
        Side::Sell => book.available_bid_qty_at_or_above(limit, order.trader_id),
    };
    if matches!(order.time_in_force, TimeInForce::FOK) && available.less_than(&order.quantity) {
        reports.push(cancel_report(order, next_exec_id));
        proof {
            assert(trades@ =~= Seq::<Trade>::empty());
            assert(reports@ =~= seq![canceled_report(*order, next_exec_id)]);
            lemma_price_law(old(book)@, *order, next_trade_id, next_exec_id);
            assert forall|k: nat| #[trigger] old(book)@.sound(k) && order.quantity.sound(k) implies match_law(
                old(book)@,
                *order,
                matched(old(book)@, *order, next_trade_id, next_exec_id),
                k,
            ) by {
                lemma_match_law(old(book)@, *order, next_trade_id, next_exec_id, k);
            }
        }
        return (trades, reports);
    }
    let side = match order.side {
        Side::Buy => Side::Sell,
        Side::Sell => Side::Buy,
    };
    let (fills, _) = book.take_from(side, limit, order.quantity, order.trader_id);
    let (filled, average) = summarize(&fills);
    let remaining = Decimal::minus(order.quantity, filled);
    proof {
        let taken = old(book)@.taken(side, limit, order.quantity, order.trader_id);
        assert(queues_nonempty(taken.kept) && side_sorted(side, taken.kept)) by {
            assert(book@.side(side) == taken.kept);
        }
        lemma_price_law(old(book)@, *order, next_trade_id, next_exec_id);
        assert forall|k: nat| #[trigger] old(book)@.sound(k) && order.quantity.sound(k) implies match_law(
            old(book)@,
            *order,
            matched(old(book)@, *order, next_trade_id, next_exec_id),
            k,
        ) by {
            assert(levels_sound(old(book)@.side(side), k));
            assert(levels_take_law(side, limit, order.quantity, order.trader_id, taken, k));
            assert(fills_sound(fills@, k) && fills_units(fills@) <= order.quantity@.units()) by {
                reveal(levels_take_law);
            }
            Decimal::lemma_difference_exact(order.quantity, filled, k);
            lemma_match_law(old(book)@, *order, next_trade_id, next_exec_id, k);
        }
    }

    let ghost all_trades = trades_of(*order, instrument_id, fills@, next_trade_id);
    let ghost all_reports = resting_reports(*order, fills@, next_exec_id);
    let mut trade_id = next_trade_id;
    let mut exec_id = next_exec_id;
    let mut i: usize = 0;
    while i < fills.len()
        invariant
            i <= fills.len(),
            trade_id == id_at(next_trade_id, i as int),
            exec_id == id_at(next_exec_id, i as int),
            all_trades == trades_of(*order, instrument_id, fills@, next_trade_id),
            all_reports == resting_reports(*order, fills@, next_exec_id),
            trades@ == all_trades.take(i as int),
            reports@ == all_reports.take(i as int),
        decreases fills.len() - i,
    {
        let f = fills[i];
        let (buy_order_id, sell_order_id) = match order.side {
            Side::Buy => (order.order_id, f.resting_order_id),
            Side::Sell => (f.resting_order_id, order.order_id),
        };
        trades.push(
            Trade {
                trade_id: TradeId(trade_id),
                instrument_id,
                buy_order_id,
                sell_order_id,
                price: f.price,
                quantity: f.quantity,
                timestamp: order.timestamp,
                aggressor_side: order.side,
            },
        );
        trade_id = trade_id.wrapping_add(1);
        reports.push(
            ExecutionReport {
                order_id: f.resting_order_id,
                exec_id: ExecutionId(exec_id),
                exec_type: if f.resting_fully_filled {
                    ExecType::Fill
                } else {
                    ExecType::PartialFill
                },
                order_status: if f.resting_fully_filled {
                    OrderStatus::Filled
                } else {
                    OrderStatus::PartiallyFilled
                },
                filled_quantity: f.quantity,
                remaining_quantity: Decimal::zero(),
                avg_price: Some(f.price),
                last_qty: Some(f.quantity),
                last_px: Some(f.price),
                timestamp: order.timestamp,
            },
        );
        exec_id = exec_id.wrapping_add(1);
        proof {
            assert(trades@ =~= all_trades.take(i as int + 1));
            assert(reports@ =~= all_reports.take(i as int + 1));
        }
        i += 1;
    }
    proof {
        assert(all_trades.take(fills.len() as int) =~= all_trades);
        assert(all_reports.take(fills.len() as int) =~= all_reports);
    }

    if fills.len() == 0 && matches!(order.time_in_force, TimeInForce::IOC) {
        reports.push(cancel_report(order, exec_id));
        return (trades, reports);
    }
    let fully = !remaining.positive();
    let partly = filled.positive();
    reports.push(
        ExecutionReport {
            order_id: order.order_id,
            exec_id: ExecutionId(exec_id),
            exec_type: if fully {
                ExecType::Fill
            } else if partly {
                ExecType::PartialFill
            } else {
                ExecType::New
            },
            order_status: if fully {
                OrderStatus::Filled
            } else if partly {
                OrderStatus::PartiallyFilled
            } else {
                OrderStatus::New
            },
            filled_quantity: filled,
            remaining_quantity: remaining,
            avg_price: average,
            last_qty: if fills.len() > 0 {
                Some(fills[fills.len() - 1].quantity)
            } else {
                None
            },
            last_px: if fills.len() > 0 {
                Some(fills[fills.len() - 1].price)
            } else {
                None
            },
            timestamp: order.timestamp,
        },
    );
    if remaining.positive() && matches!(order.time_in_force, TimeInForce::GTC) {
        if let Some(price) = order.price {
            if order.instrument_id == instrument_id {
                book.rest(
                    order.side,
                    price,
                    BookEntry {
                        order_id: order.order_id,
                        quantity: remaining,
                        trader_id: order.trader_id,
                    },
                );
            }
        }
    }
    (trades, reports)
}

} // verus!
