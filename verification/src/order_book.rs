//! Single-instrument order book: bids and asks in price-time priority.
//!
//! Each side is a list of price levels, best price first; each level is a
//! first-in-first-out queue of resting orders. An index by order id records
//! on which side and at which price an order rests.

use crate::book_index::{
    holds, ids_distinct, ids_listed, index_exact, index_kept, lemma_after_take_covers,
    lemma_canceled_covers, lemma_rested_covers,
};
use crate::decimal::{wider_scale, Decimal};
use crate::types::{EngineError, InstrumentId, Order, OrderId, OrderType, RestingOrder, Side, TimeInForce, TraderId};
use std::collections::HashMap;
use vstd::prelude::*;

verus! {

broadcast use vstd::std_specs::hash::group_hash_axioms;

/// One resting order in a price level's queue.
#[derive(Clone, Copy, Debug)]
pub struct BookEntry {
    pub order_id: OrderId,
    pub quantity: Decimal,
    pub trader_id: TraderId,
}

/// What the index records of a resting order.
#[derive(Clone, Copy, Debug)]
pub struct IndexEntry {
    pub side: Side,
    pub price: Decimal,
    pub quantity: Decimal,
}

/// Result of taking liquidity from the book (one per resting order filled).
#[derive(Clone, Copy, Debug)]
pub struct Fill {
    pub resting_order_id: OrderId,
    pub resting_trader_id: TraderId,
    pub price: Decimal,
    pub quantity: Decimal,
    /// True if the resting order was fully filled (removed from book).
    pub resting_fully_filled: bool,
}

/// The orders that rest at one price, oldest first.
#[derive(Debug)]
pub struct PriceLevel {
    pub price: Decimal,
    pub queue: Vec<BookEntry>,
}

/// A price level as a value: its price and its queue, oldest order first.
pub struct LevelView {
    pub price: Decimal,
    pub queue: Seq<BookEntry>,
}

impl View for PriceLevel {
    type V = LevelView;

    open spec fn view(&self) -> LevelView {
        LevelView { price: self.price, queue: self.queue@ }
    }
}

/// The levels of one side as values.
pub open spec fn levels_view(levels: Seq<PriceLevel>) -> Seq<LevelView> {
    levels.map_values(|l: PriceLevel| l@)
}

/// On the side `side`, price `a` has priority over price `b`: it is higher
/// for bids, lower for asks.
pub open spec fn better(side: Side, a: Decimal, b: Decimal) -> bool {
    match side {
        Side::Buy => b.is_below(a),
        Side::Sell => a.is_below(b),
    }
}

/// A resting price on the side `side` is within the limit of an incoming
/// order: at or below it for asks, at or above it for bids.
pub open spec fn within(side: Side, price: Decimal, limit: Decimal) -> bool {
    match side {
        Side::Buy => limit.is_at_most(price),
        Side::Sell => price.is_at_most(limit),
    }
}

/// The levels are in strict priority order: best price first, no price twice.
pub open spec fn side_sorted(side: Side, levels: Seq<LevelView>) -> bool {
    forall|i: int, j: int|
        0 <= i < j < levels.len() ==> better(side, #[trigger] levels[i].price, #[trigger] levels[j].price)
}

/// No level is empty.
pub open spec fn queues_nonempty(levels: Seq<LevelView>) -> bool {
    forall|i: int| 0 <= i < levels.len() ==> (#[trigger] levels[i]).queue.len() > 0
}

/// The number of levels whose price has priority over `price`: the place of
/// `price` among the levels.
pub open spec fn position(side: Side, levels: Seq<LevelView>, price: Decimal) -> int
    decreases levels.len(),
{
    if levels.len() == 0 || !better(side, levels[0].price, price) {
        0
    } else {
        1 + position(side, levels.drop_first(), price)
    }
}

/// The levels after an order has come to rest at `price`: at the tail of the
/// level for that price, or alone in a new level at its place.
pub open spec fn with_entry(side: Side, levels: Seq<LevelView>, price: Decimal, entry: BookEntry) -> Seq<
    LevelView,
> {
    let i = position(side, levels, price);
    if i < levels.len() && levels[i].price.same_number(price) {
        levels.update(i, LevelView { price: levels[i].price, queue: levels[i].queue.push(entry) })
    } else {
        levels.insert(i, LevelView { price, queue: seq![entry] })
    }
}

/// The test that keeps every entry but those of order `id`.
pub open spec fn is_other_order(id: OrderId) -> spec_fn(BookEntry) -> bool {
    |e: BookEntry| e.order_id != id
}

/// The levels after the entries of order `id` have left the level for
/// `price`; the level goes with its last entry.
pub open spec fn without_order(side: Side, levels: Seq<LevelView>, price: Decimal, id: OrderId) -> Seq<
    LevelView,
> {
    let i = position(side, levels, price);
    if i < levels.len() && levels[i].price.same_number(price) {
        let queue = levels[i].queue.filter(is_other_order(id));
        if queue.len() == 0 {
            levels.remove(i)
        } else {
            levels.update(i, LevelView { price: levels[i].price, queue })
        }
    } else {
        levels
    }
}

/// In levels in priority order, every price before the place of `price` has
/// priority over it, and none from there on has.
pub proof fn lemma_position_splits(side: Side, levels: Seq<LevelView>, price: Decimal)
    requires
        side_sorted(side, levels),
    ensures
        0 <= position(side, levels, price) <= levels.len(),
        forall|k: int|
            0 <= k < position(side, levels, price) ==> better(side, (#[trigger] levels[k]).price, price),
        forall|k: int|
            position(side, levels, price) <= k < levels.len() ==> !better(
                side,
                (#[trigger] levels[k]).price,
                price,
            ),
    decreases levels.len(),
{
    if levels.len() == 0 {
    } else if !better(side, levels[0].price, price) {
        assert forall|k: int| 0 <= k < levels.len() implies !better(side, (#[trigger] levels[k]).price, price) by {
            if k > 0 {
                assert(better(side, levels[0].price, levels[k].price));
            }
        }
    } else {
        let rest = levels.drop_first();
        assert forall|i: int, j: int| 0 <= i < j < rest.len() implies better(
            side,
            #[trigger] rest[i].price,
            #[trigger] rest[j].price,
        ) by {
            assert(rest[i] == levels[i + 1]);
            assert(rest[j] == levels[j + 1]);
        }
        lemma_position_splits(side, rest, price);
        let p = position(side, rest, price);
        assert forall|k: int| 0 <= k < p + 1 implies better(side, (#[trigger] levels[k]).price, price) by {
            if k > 0 {
                assert(levels[k] == rest[k - 1]);
            }
        }
        assert forall|k: int| p + 1 <= k < levels.len() implies !better(
            side,
            (#[trigger] levels[k]).price,
            price,
        ) by {
            assert(levels[k] == rest[k - 1]);
        }
    }
}

/// Where every price before place `i` has priority over `price` and the
/// price at place `i` has not, `i` is the place of `price`.
pub proof fn lemma_position(side: Side, levels: Seq<LevelView>, price: Decimal, i: int)
    requires
        0 <= i <= levels.len(),
        forall|k: int| 0 <= k < i ==> better(side, (#[trigger] levels[k]).price, price),
        i < levels.len() ==> !better(side, levels[i].price, price),
    ensures
        position(side, levels, price) == i,
    decreases i,
{
    if i > 0 {
        let rest = levels.drop_first();
        assert(better(side, levels[0].price, price));
        assert forall|k: int| 0 <= k < i - 1 implies better(side, (#[trigger] rest[k]).price, price) by {
            assert(rest[k] == levels[k + 1]);
        }
        if i - 1 < rest.len() {
            assert(rest[i - 1] == levels[i]);
        }
        lemma_position(side, rest, price, i - 1);
    }
}

/// The quantity that a queue offers to a trader, added to `total`: the sum
/// of its entries, oldest first, but those of the trader `exclude`.
pub open spec fn queue_available(queue: Seq<BookEntry>, exclude: TraderId, total: Decimal) -> Decimal
    decreases queue.len(),
{
    if queue.len() == 0 {
        total
    } else {
        queue_available(
            queue.drop_first(),
            exclude,
            if queue[0].trader_id != exclude {
                total.sum(queue[0].quantity)
            } else {
                total
            },
        )
    }
}

/// The number of leading levels whose price is within `limit`.
pub open spec fn reach(side: Side, levels: Seq<LevelView>, limit: Decimal) -> int
    decreases levels.len(),
{
    if levels.len() == 0 || !within(side, levels[0].price, limit) {
        0
    } else {
        1 + reach(side, levels.drop_first(), limit)
    }
}

/// The quantity that the given levels offer to a trader, added to `total`,
/// summed from the first level to the last.
pub open spec fn levels_available(levels: Seq<LevelView>, exclude: TraderId, total: Decimal) -> Decimal
    decreases levels.len(),
{
    if levels.len() == 0 {
        total
    } else {
        levels_available(
            levels.drop_first(),
            exclude,
            queue_available(levels[0].queue, exclude, total),
        )
    }
}

/// The quantity that the given levels offer to a trader, added to `total`,
/// summed from the last level to the first.
pub open spec fn levels_available_rev(levels: Seq<LevelView>, exclude: TraderId, total: Decimal) -> Decimal
    decreases levels.len(),
{
    if levels.len() == 0 {
        total
    } else {
        levels_available_rev(
            levels.drop_last(),
            exclude,
            queue_available(levels.last().queue, exclude, total),
        )
    }
}

/// What taking liquidity from a queue or from a side gives.
pub struct Taken<L> {
    /// One fill for each resting order that was matched, in match order.
    pub fills: Seq<Fill>,
    /// What stays on the book.
    pub kept: Seq<L>,
    /// What is left of the incoming quantity.
    pub left: Decimal,
    /// The entries that stay with a smaller quantity, as they stay.
    pub reduced: Seq<BookEntry>,
}

/// The fill of the resting entry `e` by an incoming quantity.
pub open spec fn fill_of(e: BookEntry, price: Decimal, quantity: Decimal) -> Fill {
    Fill {
        resting_order_id: e.order_id,
        resting_trader_id: e.trader_id,
        price,
        quantity: quantity.smaller(e.quantity),
        resting_fully_filled: e.quantity.is_at_most(quantity.smaller(e.quantity)),
    }
}

/// The resting entry `e` after a fill that did not use it up.
pub open spec fn reduced_entry(e: BookEntry, quantity: Decimal) -> BookEntry {
    BookEntry {
        order_id: e.order_id,
        quantity: e.quantity.difference(quantity.smaller(e.quantity)),
        trader_id: e.trader_id,
    }
}

/// Takes `quantity` from a queue at `price`, oldest entry first. Entries of
/// the trader `exclude` are passed over. Each other entry is filled with
/// the smaller of what is left of the incoming quantity and its own
/// quantity; it leaves the queue where that uses it up, and stays with the
/// difference where not. Taking ends when nothing is left to take with.
pub open spec fn take_queue(queue: Seq<BookEntry>, price: Decimal, quantity: Decimal, exclude: TraderId) -> Taken<
    BookEntry,
>
    decreases queue.len(),
{
    if queue.len() == 0 || !quantity.is_positive() {
        Taken { fills: Seq::empty(), kept: queue, left: quantity, reduced: Seq::empty() }
    } else if queue[0].trader_id == exclude {
        let rest = take_queue(queue.drop_first(), price, quantity, exclude);
        Taken { kept: seq![queue[0]] + rest.kept, ..rest }
    } else {
        let fill = fill_of(queue[0], price, quantity);
        let rest = take_queue(queue.drop_first(), price, quantity.difference(fill.quantity), exclude);
        if fill.resting_fully_filled {
            Taken { fills: seq![fill] + rest.fills, ..rest }
        } else {
            Taken {
                fills: seq![fill] + rest.fills,
                kept: seq![reduced_entry(queue[0], quantity)] + rest.kept,
                left: rest.left,
                reduced: seq![reduced_entry(queue[0], quantity)] + rest.reduced,
            }
        }
    }
}

/// Takes `quantity` from the levels of the side `side`, best price first,
/// as long as the price is within `limit` and something is left to take
/// with. A level that gives up its last entry leaves the side.
pub open spec fn take_levels(
    side: Side,
    levels: Seq<LevelView>,
    limit: Decimal,
    quantity: Decimal,
    exclude: TraderId,
) -> Taken<LevelView>
    decreases levels.len(),
{
    if levels.len() == 0 || !within(side, levels[0].price, limit) || !quantity.is_positive() {
        Taken { fills: Seq::empty(), kept: levels, left: quantity, reduced: Seq::empty() }
    } else {
        let first = take_queue(levels[0].queue, levels[0].price, quantity, exclude);
        let rest = take_levels(side, levels.drop_first(), limit, first.left, exclude);
        Taken {
            fills: first.fills + rest.fills,
            kept: if first.kept.len() == 0 {
                rest.kept
            } else {
                seq![LevelView { price: levels[0].price, queue: first.kept }] + rest.kept
            },
            left: rest.left,
            reduced: first.reduced + rest.reduced,
        }
    }
}

/// The ids of the orders that the fills used up.
pub open spec fn filled_ids(fills: Seq<Fill>) -> Set<u64>
    decreases fills.len(),
{
    if fills.len() == 0 {
        Set::empty()
    } else if fills.last().resting_fully_filled {
        filled_ids(fills.drop_last()).insert(fills.last().resting_order_id.0)
    } else {
        filled_ids(fills.drop_last())
    }
}

/// The index after the quantities of the reduced entries have been written
/// to it, one after the other; an entry whose id the index does not hold is
/// passed over.
pub open spec fn with_reduced(orders: Map<u64, IndexEntry>, reduced: Seq<BookEntry>) -> Map<u64, IndexEntry>
    decreases reduced.len(),
{
    if reduced.len() == 0 {
        orders
    } else {
        let e = reduced[0];
        with_reduced(
            if orders.contains_key(e.order_id.0) {
                orders.insert(
                    e.order_id.0,
                    IndexEntry {
                        side: orders[e.order_id.0].side,
                        price: orders[e.order_id.0].price,
                        quantity: e.quantity,
                    },
                )
            } else {
                orders
            },
            reduced.drop_first(),
        )
    }
}

/// The resting order that an entry of a level stands for.
pub open spec fn resting_of(instrument_id: InstrumentId, side: Side, price: Decimal, e: BookEntry) -> RestingOrder {
    RestingOrder {
        order_id: e.order_id,
        instrument_id,
        side,
        price,
        quantity: e.quantity,
        trader_id: e.trader_id,
    }
}

/// The resting orders of one level, oldest first.
pub open spec fn level_resting(instrument_id: InstrumentId, side: Side, level: LevelView) -> Seq<RestingOrder> {
    Seq::new(level.queue.len(), |j: int| resting_of(instrument_id, side, level.price, level.queue[j]))
}

/// The resting orders of the levels, first level to last.
pub open spec fn levels_resting(instrument_id: InstrumentId, side: Side, levels: Seq<LevelView>) -> Seq<
    RestingOrder,
>
    decreases levels.len(),
{
    if levels.len() == 0 {
        Seq::empty()
    } else {
        levels_resting(instrument_id, side, levels.drop_last()) + level_resting(
            instrument_id,
            side,
            levels.last(),
        )
    }
}

/// The resting orders of the levels, last level to first.
pub open spec fn levels_resting_rev(instrument_id: InstrumentId, side: Side, levels: Seq<LevelView>) -> Seq<
    RestingOrder,
>
    decreases levels.len(),
{
    if levels.len() == 0 {
        Seq::empty()
    } else {
        levels_resting_rev(instrument_id, side, levels.drop_first()) + level_resting(
            instrument_id,
            side,
            levels[0],
        )
    }
}

/// The entry that a resting order comes back as.
pub open spec fn entry_of(r: RestingOrder) -> BookEntry {
    BookEntry { order_id: r.order_id, quantity: r.quantity, trader_id: r.trader_id }
}

/// Why a book of `instrument_id` refuses to take a resting order back, if it
/// does: another instrument, then a quantity that is not above zero.
pub open spec fn resting_refusal(instrument_id: InstrumentId, r: RestingOrder) -> Option<EngineError> {
    if r.instrument_id != instrument_id {
        Some(EngineError::InstrumentMismatch)
    } else if !r.quantity.is_positive() {
        Some(EngineError::InvalidOrder)
    } else {
        None
    }
}

/// The refusal of the first resting order that the book refuses, if any.
pub open spec fn first_refusal(instrument_id: InstrumentId, orders: Seq<RestingOrder>) -> Option<EngineError>
    decreases orders.len(),
{
    if orders.len() == 0 {
        None
    } else if resting_refusal(instrument_id, orders[0]) is Some {
        resting_refusal(instrument_id, orders[0])
    } else {
        first_refusal(instrument_id, orders.drop_first())
    }
}

/// Every entry of the queue has a quantity above zero that can be written
/// at scale `k`.
pub open spec fn queue_sound(queue: Seq<BookEntry>, k: nat) -> bool {
    forall|j: int| 0 <= j < queue.len() ==> (#[trigger] queue[j]).quantity.sound(k)
}

/// Every entry of every level has a quantity above zero that can be written
/// at scale `k`.
pub open spec fn levels_sound(levels: Seq<LevelView>, k: nat) -> bool {
    forall|i: int| 0 <= i < levels.len() ==> queue_sound((#[trigger] levels[i]).queue, k)
}

/// Every fill has a quantity above zero that can be written at scale `k`.
pub open spec fn fills_sound(fills: Seq<Fill>, k: nat) -> bool {
    forall|i: int| 0 <= i < fills.len() ==> (#[trigger] fills[i]).quantity.sound(k)
}

/// The exact sum of the quantities of the fills, in units of `10^-28`.
pub open spec fn fills_units(fills: Seq<Fill>) -> int
    decreases fills.len(),
{
    if fills.len() == 0 {
        0
    } else {
        fills_units(fills.drop_last()) + fills.last().quantity@.units()
    }
}

/// Every entry of the queue is of the given trader.
pub open spec fn all_of_trader(queue: Seq<BookEntry>, trader: TraderId) -> bool {
    forall|j: int| 0 <= j < queue.len() ==> (#[trigger] queue[j]).trader_id == trader
}

/// The queue holds an entry of the given trader.
pub open spec fn has_trader(queue: Seq<BookEntry>, trader: TraderId) -> bool {
    exists|j: int| 0 <= j < queue.len() && (#[trigger] queue[j]).trader_id == trader
}

/// Every entry of `kept` is of a trader who has an entry in `queue`.
pub open spec fn traders_from(kept: Seq<BookEntry>, queue: Seq<BookEntry>) -> bool {
    forall|j: int| 0 <= j < kept.len() ==> has_trader(queue, (#[trigger] kept[j]).trader_id)
}

/// The level has the price of one of the levels, and its entries are of
/// traders who have an entry there.
pub open spec fn level_from(level: LevelView, levels: Seq<LevelView>) -> bool {
    exists|j: int|
        0 <= j < levels.len() && (#[trigger] levels[j]).price == level.price && traders_from(
            level.queue,
            levels[j].queue,
        )
}

/// Every level of `kept` has the price of a level of `levels`, and its
/// entries are of traders who have an entry there.
pub open spec fn levels_from(kept: Seq<LevelView>, levels: Seq<LevelView>) -> bool {
    forall|i: int| 0 <= i < kept.len() ==> level_from(#[trigger] kept[i], levels)
}

/// The price is that of one of the levels.
pub open spec fn price_listed(price: Decimal, levels: Seq<LevelView>) -> bool {
    exists|j: int| 0 <= j < levels.len() && (#[trigger] levels[j]).price == price
}

/// Every fill has the price of one of the levels.
pub open spec fn fill_prices_from(fills: Seq<Fill>, levels: Seq<LevelView>) -> bool {
    forall|i: int| 0 <= i < fills.len() ==> price_listed((#[trigger] fills[i]).price, levels)
}

/// What holds of taking `quantity` from a queue whose quantities are above
/// zero, where all of them can be written at scale `k`: the same holds of
/// what stays and of the fills, nothing is lost, and where something is
/// left of the quantity, only entries of the excluded trader stay.
pub open spec fn queue_take_law(quantity: Decimal, exclude: TraderId, t: Taken<BookEntry>, k: nat) -> bool {
    &&& t.left.room(k)
    &&& queue_sound(t.kept, k)
    &&& fills_sound(t.fills, k)
    &&& quantity@.units() == t.left@.units() + fills_units(t.fills)
    &&& t.left.is_positive() ==> all_of_trader(t.kept, exclude)
}

/// What holds of taking `quantity` from levels whose quantities are above
/// zero, where all of them can be written at scale `k`: the same holds of
/// what stays and of the fills, nothing is lost, and where something is
/// left of the quantity, only entries of the excluded trader stay within
/// the limit.
#[verifier::opaque]
pub open spec fn levels_take_law(
    side: Side,
    limit: Decimal,
    quantity: Decimal,
    exclude: TraderId,
    t: Taken<LevelView>,
    k: nat,
) -> bool {
    &&& t.left.room(k)
    &&& levels_sound(t.kept, k)
    &&& fills_sound(t.fills, k)
    &&& quantity@.units() == t.left@.units() + fills_units(t.fills)
    &&& t.left.is_positive() ==> forall|i: int|
        0 <= i < t.kept.len() && within(side, (#[trigger] t.kept[i]).price, limit) ==> all_of_trader(
            t.kept[i].queue,
            exclude,
        )
}

/// The exact sum of fills with quantities above zero is not below zero.
pub proof fn lemma_fills_units_nonneg(fills: Seq<Fill>, k: nat)
    requires
        fills_sound(fills, k),
    ensures
        fills_units(fills) >= 0,
    decreases fills.len(),
{
    if fills.len() > 0 {
        assert forall|i: int| 0 <= i < fills.drop_last().len() implies (
        #[trigger] fills.drop_last()[i]).quantity.sound(k) by {
            assert(fills.drop_last()[i] == fills[i]);
        }
        lemma_fills_units_nonneg(fills.drop_last(), k);
        assert(fills.last().quantity.sound(k));
    }
}

/// The exact sum of fills put one after the other is the sum of the sums.
pub proof fn lemma_fills_units_add(a: Seq<Fill>, b: Seq<Fill>)
    ensures
        fills_units(a + b) == fills_units(a) + fills_units(b),
    decreases b.len(),
{
    if b.len() == 0 {
        assert(a + b =~= a);
    } else {
        assert((a + b).drop_last() =~= a + b.drop_last());
        assert((a + b).last() == b.last());
        lemma_fills_units_add(a, b.drop_last());
    }
}

/// One step of taking from a queue, for an entry that is filled: where the
/// law held of what was taken before and the arithmetic gave what it gives
/// on exact operands, the law holds with the fill.
pub proof fn lemma_queue_fill_step(
    quantity: Decimal,
    exclude: TraderId,
    before: Taken<BookEntry>,
    e: BookEntry,
    price: Decimal,
    left: Decimal,
    stay: Decimal,
    k: nat,
)
    requires
        queue_take_law(quantity, exclude, before, k),
        before.left.is_positive(),
        e.quantity.sound(k),
        left@.valid(),
        stay@.valid(),
        before.left.difference_is_exact(before.left.smaller(e.quantity)) ==> left@.units()
            == before.left@.units() - before.left.smaller(e.quantity)@.units() && left@.scale
            <= wider_scale(before.left@, before.left.smaller(e.quantity)@),
        e.quantity.difference_is_exact(before.left.smaller(e.quantity)) ==> stay@.units()
            == e.quantity@.units() - before.left.smaller(e.quantity)@.units() && stay@.scale
            <= wider_scale(e.quantity@, before.left.smaller(e.quantity)@),
    ensures
        fill_of(e, price, before.left).resting_fully_filled ==> queue_take_law(
            quantity,
            exclude,
            Taken {
                fills: before.fills.push(fill_of(e, price, before.left)),
                kept: before.kept,
                left,
                reduced: before.reduced,
            },
            k,
        ),
        !fill_of(e, price, before.left).resting_fully_filled ==> queue_take_law(
            quantity,
            exclude,
            Taken {
                fills: before.fills.push(fill_of(e, price, before.left)),
                kept: before.kept.push(
                    BookEntry { order_id: e.order_id, quantity: stay, trader_id: e.trader_id },
                ),
                left,
                reduced: before.reduced,
            },
            k,
        ) && left.is_zero(),
{
    let fill = fill_of(e, price, before.left);
    let fills = before.fills.push(fill);
    Decimal::lemma_difference_exact(before.left, fill.quantity, k);
    assert(fills.drop_last() =~= before.fills);
    assert(fills_units(fills) == fills_units(before.fills) + fill.quantity@.units());
    assert forall|i: int| 0 <= i < fills.len() implies (#[trigger] fills[i]).quantity.sound(k) by {
        if i < before.fills.len() {
            assert(fills[i] == before.fills[i]);
        }
    }
    if !fill.resting_fully_filled {
        Decimal::lemma_difference_exact(e.quantity, fill.quantity, k);
        let entry = BookEntry { order_id: e.order_id, quantity: stay, trader_id: e.trader_id };
        let kept = before.kept.push(entry);
        assert forall|j: int| 0 <= j < kept.len() implies (#[trigger] kept[j]).quantity.sound(k) by {
            if j < before.kept.len() {
                assert(kept[j] == before.kept[j]);
            }
        }
    }
}

/// What holds while levels are taken from, with `cur` the levels as they
/// stand, the first `i` of them done with: levels and fills have their
/// prices and traders from the levels at the start, and where the
/// quantities at the start were sound, the law of taking holds of what was
/// taken so far and the levels as they stand are sound.
#[verifier::opaque]
pub open spec fn take_progress(
    side: Side,
    limit: Decimal,
    quantity: Decimal,
    exclude: TraderId,
    orig: Seq<LevelView>,
    cur: Seq<LevelView>,
    i: int,
    fills: Seq<Fill>,
    left: Decimal,
    reduced: Seq<BookEntry>,
) -> bool {
    &&& levels_from(cur, orig)
    &&& fill_prices_from(fills, orig)
    &&& forall|s: nat| #[trigger]
        levels_sound(orig, s) && quantity.room(s) ==> levels_take_law(
            side,
            limit,
            quantity,
            exclude,
            Taken { fills, kept: cur.take(i), left, reduced },
            s,
        ) && levels_sound(cur, s)
}

/// What taking from one queue is known to give, for the level `level`.
#[verifier::opaque]
pub open spec fn queue_outcome(level: LevelView, left: Decimal, exclude: TraderId, first: Taken<BookEntry>) -> bool {
    &&& traders_from(first.kept, level.queue)
    &&& forall|j: int| 0 <= j < first.fills.len() ==> (#[trigger] first.fills[j]).price == level.price
    &&& forall|s: nat| #[trigger]
        queue_sound(level.queue, s) && left.room(s) ==> queue_take_law(left, exclude, first, s)
}

/// Before any level is taken from, the progress holds.
pub proof fn lemma_progress_start(side: Side, limit: Decimal, quantity: Decimal, exclude: TraderId, orig: Seq<LevelView>)
    ensures
        take_progress(
            side,
            limit,
            quantity,
            exclude,
            orig,
            orig,
            0,
            Seq::<Fill>::empty(),
            quantity,
            Seq::<BookEntry>::empty(),
        ),
{
    reveal(take_progress);
    reveal(levels_take_law);
    assert forall|a: int| 0 <= a < orig.len() implies level_from(#[trigger] orig[a], orig) by {
        assert forall|j: int| 0 <= j < orig[a].queue.len() implies has_trader(
            orig[a].queue,
            (#[trigger] orig[a].queue[j]).trader_id,
        ) by {
        }
        assert(traders_from(orig[a].queue, orig[a].queue));
    }
    assert(orig.take(0) =~= Seq::<LevelView>::empty());
    assert(fills_units(Seq::<Fill>::empty()) == 0);
    assert(levels_from(orig, orig));
    assert(fill_prices_from(Seq::<Fill>::empty(), orig));
    assert forall|s: nat| #[trigger] levels_sound(orig, s) && quantity.room(s) implies levels_take_law(
        side,
        limit,
        quantity,
        exclude,
        Taken {
            fills: Seq::<Fill>::empty(),
            kept: orig.take(0),
            left: quantity,
            reduced: Seq::<BookEntry>::empty(),
        },
        s,
    ) && levels_sound(orig, s) by {
        assert(levels_sound(orig.take(0), s));
        assert(fills_sound(Seq::<Fill>::empty(), s));
    }
}

/// The progress holds on after one more level has been taken from, whether
/// the level stays with what is kept of its queue or leaves.
pub proof fn lemma_progress_step(
    side: Side,
    limit: Decimal,
    quantity: Decimal,
    exclude: TraderId,
    orig: Seq<LevelView>,
    cur: Seq<LevelView>,
    i: int,
    k: int,
    fills: Seq<Fill>,
    left: Decimal,
    reduced: Seq<BookEntry>,
    first: Taken<BookEntry>,
)
    requires
        0 <= i < cur.len(),
        0 <= k < orig.len(),
        cur[i] == orig[k],
        take_progress(side, limit, quantity, exclude, orig, cur, i, fills, left, reduced),
        queue_outcome(orig[k], left, exclude, first),
    ensures
        first.kept.len() == 0 ==> take_progress(
            side,
            limit,
            quantity,
            exclude,
            orig,
            cur.remove(i),
            i,
            fills + first.fills,
            first.left,
            reduced + first.reduced,
        ),
        first.kept.len() > 0 ==> take_progress(
            side,
            limit,
            quantity,
            exclude,
            orig,
            cur.update(i, LevelView { price: cur[i].price, queue: first.kept }),
            i + 1,
            fills + first.fills,
            first.left,
            reduced + first.reduced,
        ),
{
    reveal(take_progress);
    reveal(levels_take_law);
    reveal(queue_outcome);
    let fills2 = fills + first.fills;
    let reduced2 = reduced + first.reduced;
    let after = if first.kept.len() == 0 {
        cur.remove(i)
    } else {
        cur.update(i, LevelView { price: cur[i].price, queue: first.kept })
    };
    let done = if first.kept.len() == 0 {
        i
    } else {
        i + 1
    };
    lemma_fills_units_add(fills, first.fills);
    assert forall|a: int| 0 <= a < fills2.len() implies price_listed((#[trigger] fills2[a]).price, orig) by {
        if a < fills.len() {
            assert(fills2[a] == fills[a]);
        } else {
            assert(fills2[a] == first.fills[a - fills.len()]);
            assert(orig[k].price == fills2[a].price);
        }
    }
    assert forall|a: int| 0 <= a < after.len() implies level_from(#[trigger] after[a], orig) by {
        if first.kept.len() == 0 {
            assert(after[a] == if a < i { cur[a] } else { cur[a + 1] });
        } else if a != i {
            assert(after[a] == cur[a]);
        } else {
            assert(orig[k].price == after[a].price);
            assert(traders_from(after[a].queue, orig[k].queue));
        }
    }
    assert forall|s: nat| #[trigger] levels_sound(orig, s) && quantity.room(s) implies levels_take_law(
        side,
        limit,
        quantity,
        exclude,
        Taken { fills: fills2, kept: after.take(done), left: first.left, reduced: reduced2 },
        s,
    ) && levels_sound(after, s) by {
        let so_far = Taken { fills, kept: cur.take(i), left, reduced };
        assert(levels_take_law(side, limit, quantity, exclude, so_far, s));
        assert(levels_sound(cur, s));
        assert(queue_sound(cur[i].queue, s));
        assert(queue_take_law(left, exclude, first, s));
        lemma_fills_units_nonneg(first.fills, s);
        assert forall|a: int| 0 <= a < fills2.len() implies (#[trigger] fills2[a]).quantity.sound(s) by {
            if a < fills.len() {
                assert(fills2[a] == fills[a]);
            } else {
                assert(fills2[a] == first.fills[a - fills.len()]);
            }
        }
        assert forall|a: int| 0 <= a < after.len() implies queue_sound((#[trigger] after[a]).queue, s) by {
            if first.kept.len() == 0 {
                assert(after[a] == if a < i { cur[a] } else { cur[a + 1] });
            } else if a != i {
                assert(after[a] == cur[a]);
            }
        }
        let kept = after.take(done);
        assert forall|a: int| 0 <= a < kept.len() implies queue_sound((#[trigger] kept[a]).queue, s) by {
            assert(kept[a] == after[a]);
        }
        if first.left.is_positive() {
            assert forall|a: int| 0 <= a < kept.len() && within(side, (#[trigger] kept[a]).price, limit)
                implies all_of_trader(kept[a].queue, exclude) by {
                if a < i {
                    assert(kept[a] == so_far.kept[a]);
                }
            }
        }
    }
}

/// When taking has come to its end, the law of taking holds of the whole.
pub proof fn lemma_progress_done(
    side: Side,
    limit: Decimal,
    quantity: Decimal,
    exclude: TraderId,
    orig: Seq<LevelView>,
    cur: Seq<LevelView>,
    i: int,
    k: int,
    fills: Seq<Fill>,
    left: Decimal,
    reduced: Seq<BookEntry>,
)
    requires
        0 <= i <= cur.len(),
        0 <= k <= orig.len(),
        cur.len() - i == orig.len() - k,
        cur.skip(i) == orig.skip(k),
        side_sorted(side, orig),
        take_progress(side, limit, quantity, exclude, orig, cur, i, fills, left, reduced),
        k < orig.len() ==> (!within(side, orig[k].price, limit) || !left.is_positive()),
    ensures
        levels_from(cur, orig),
        fill_prices_from(fills, orig),
        forall|s: nat| #[trigger]
            levels_sound(orig, s) && quantity.room(s) ==> levels_take_law(
                side,
                limit,
                quantity,
                exclude,
                Taken { fills, kept: cur, left, reduced },
                s,
            ),
{
    reveal(take_progress);
    reveal(levels_take_law);
    assert forall|s: nat| #[trigger] levels_sound(orig, s) && quantity.room(s) implies levels_take_law(
        side,
        limit,
        quantity,
        exclude,
        Taken { fills, kept: cur, left, reduced },
        s,
    ) by {
        let so_far = Taken { fills, kept: cur.take(i), left, reduced };
        assert(levels_take_law(side, limit, quantity, exclude, so_far, s));
        if left.is_positive() {
            assert forall|a: int| 0 <= a < cur.len() && within(side, (#[trigger] cur[a]).price, limit)
                implies all_of_trader(cur[a].queue, exclude) by {
                if a < i {
                    assert(cur[a] == so_far.kept[a]);
                } else {
                    assert(cur.skip(i)[a - i] == cur[a]);
                    assert(orig.skip(k)[a - i] == orig[k + a - i]);
                    if k + a - i > k {
                        assert(better(side, orig[k].price, orig[k + a - i].price));
                    }
                }
            }
        }
    }
}

/// Levels stay in priority order and without an empty queue when an entry
/// comes to rest.
pub proof fn lemma_with_entry_wf(side: Side, levels: Seq<LevelView>, price: Decimal, entry: BookEntry)
    requires
        side_sorted(side, levels),
        queues_nonempty(levels),
    ensures
        side_sorted(side, with_entry(side, levels, price, entry)),
        queues_nonempty(with_entry(side, levels, price, entry)),
{
    lemma_position_splits(side, levels, price);
    let i = position(side, levels, price);
    let after = with_entry(side, levels, price, entry);
    if i < levels.len() && levels[i].price.same_number(price) {
        assert forall|a: int, b: int| 0 <= a < b < after.len() implies better(
            side,
            #[trigger] after[a].price,
            #[trigger] after[b].price,
        ) by {
            assert(after[a].price == levels[a].price);
            assert(after[b].price == levels[b].price);
        }
        assert forall|a: int| 0 <= a < after.len() implies (#[trigger] after[a]).queue.len() > 0 by {
            if a != i {
                assert(after[a] == levels[a]);
            }
        }
    } else {
        assert forall|a: int, b: int| 0 <= a < b < after.len() implies better(
            side,
            #[trigger] after[a].price,
            #[trigger] after[b].price,
        ) by {
            if a < i {
                assert(after[a] == levels[a]);
            } else if a > i {
                assert(after[a] == levels[a - 1]);
            }
            if b < i {
                assert(after[b] == levels[b]);
            } else if b > i {
                assert(after[b] == levels[b - 1]);
            }
        }
        assert forall|a: int| 0 <= a < after.len() implies (#[trigger] after[a]).queue.len() > 0 by {
            if a < i {
                assert(after[a] == levels[a]);
            } else if a > i {
                assert(after[a] == levels[a - 1]);
            }
        }
    }
}

/// Levels stay sound when an entry with a sound quantity comes to rest.
pub proof fn lemma_with_entry_sound(side: Side, levels: Seq<LevelView>, price: Decimal, entry: BookEntry, k: nat)
    requires
        side_sorted(side, levels),
        levels_sound(levels, k),
        entry.quantity.sound(k),
    ensures
        levels_sound(with_entry(side, levels, price, entry), k),
{
    lemma_position_splits(side, levels, price);
    let i = position(side, levels, price);
    let after = with_entry(side, levels, price, entry);
    assert forall|a: int| 0 <= a < after.len() implies queue_sound((#[trigger] after[a]).queue, k) by {
        if i < levels.len() && levels[i].price.same_number(price) {
            if a == i {
                let queue = levels[i].queue.push(entry);
                assert(queue_sound(levels[i].queue, k));
                assert forall|j: int| 0 <= j < queue.len() implies (#[trigger] queue[j]).quantity.sound(k) by {
                    if j < levels[i].queue.len() {
                        assert(queue[j] == levels[i].queue[j]);
                    }
                }
            } else {
                assert(after[a] == levels[a]);
            }
        } else {
            if a < i {
                assert(after[a] == levels[a]);
            } else if a > i {
                assert(after[a] == levels[a - 1]);
            } else {
                assert(after[a].queue[0] == entry);
            }
        }
    }
}

/// The best price after an entry has come to rest is the price of the
/// entry or the best price before, whichever has priority.
pub proof fn lemma_with_entry_best(side: Side, levels: Seq<LevelView>, price: Decimal, entry: BookEntry)
    requires
        side_sorted(side, levels),
    ensures
        with_entry(side, levels, price, entry).len() > 0,
        with_entry(side, levels, price, entry)[0].price.same_number(price) || (levels.len() > 0
            && with_entry(side, levels, price, entry)[0].price == levels[0].price && better(
            side,
            levels[0].price,
            price,
        )),
{
    lemma_position_splits(side, levels, price);
    let i = position(side, levels, price);
    if i > 0 {
        assert(better(side, levels[0].price, price));
    }
}

/// Levels stay sound when the entries of an order leave.
pub proof fn lemma_without_order_sound(side: Side, levels: Seq<LevelView>, price: Decimal, id: OrderId, k: nat)
    requires
        side_sorted(side, levels),
        levels_sound(levels, k),
    ensures
        levels_sound(without_order(side, levels, price, id), k),
{
    lemma_position_splits(side, levels, price);
    let i = position(side, levels, price);
    let after = without_order(side, levels, price, id);
    if i < levels.len() && levels[i].price.same_number(price) {
        let queue = levels[i].queue.filter(is_other_order(id));
        levels[i].queue.filter_lemma(is_other_order(id));
        assert(queue_sound(levels[i].queue, k));
        assert forall|j: int| 0 <= j < queue.len() implies (#[trigger] queue[j]).quantity.sound(k) by {
            assert(levels[i].queue.filter(is_other_order(id)).contains(queue[j]));
            lemma_filter_member(levels[i].queue, is_other_order(id), queue[j]);
            let m = choose|m: int| 0 <= m < levels[i].queue.len() && levels[i].queue[m] == queue[j];
            assert(levels[i].queue[m].quantity.sound(k));
        }
        assert forall|a: int| 0 <= a < after.len() implies queue_sound((#[trigger] after[a]).queue, k) by {
            if queue.len() == 0 {
                assert(after[a] == if a < i { levels[a] } else { levels[a + 1] });
            } else if a != i {
                assert(after[a] == levels[a]);
            }
        }
    }
}

/// What a filter keeps was there before.
pub proof fn lemma_filter_member(queue: Seq<BookEntry>, keep: spec_fn(BookEntry) -> bool, e: BookEntry)
    requires
        queue.filter(keep).contains(e),
    ensures
        queue.contains(e),
    decreases queue.len(),
{
    reveal(Seq::filter);
    if queue.len() > 0 {
        let rest = queue.drop_last().filter(keep);
        if keep(queue.last()) && e == queue.last() {
            assert(queue[queue.len() - 1] == e);
        } else {
            if keep(queue.last()) {
                let j = choose|j: int| 0 <= j < queue.filter(keep).len() && queue.filter(keep)[j] == e;
                assert(queue.filter(keep) == rest.push(queue.last()));
                assert(j < rest.len());
                assert(rest[j] == e);
            }
            assert(rest.contains(e));
            lemma_filter_member(queue.drop_last(), keep, e);
            let m = choose|m: int| 0 <= m < queue.drop_last().len() && queue.drop_last()[m] == e;
            assert(queue[m] == e);
        }
    }
}

/// No level has a price below zero.
pub open spec fn level_prices_nonneg(levels: Seq<LevelView>) -> bool {
    forall|i: int| 0 <= i < levels.len() ==> (#[trigger] levels[i]).price@.units() >= 0
}

/// Levels without a price below zero stay so when an entry comes to rest
/// at a price that is not below zero.
pub proof fn lemma_with_entry_prices(side: Side, levels: Seq<LevelView>, price: Decimal, entry: BookEntry)
    requires
        side_sorted(side, levels),
        level_prices_nonneg(levels),
        price@.units() >= 0,
    ensures
        level_prices_nonneg(with_entry(side, levels, price, entry)),
{
    lemma_position_splits(side, levels, price);
    let i = position(side, levels, price);
    let after = with_entry(side, levels, price, entry);
    assert forall|a: int| 0 <= a < after.len() implies (#[trigger] after[a]).price@.units() >= 0 by {
        if i < levels.len() && levels[i].price.same_number(price) {
            assert(after[a].price == levels[a].price);
        } else {
            if a < i {
                assert(after[a] == levels[a]);
            } else if a > i {
                assert(after[a] == levels[a - 1]);
            }
        }
    }
}

/// Levels that have their prices from levels without a price below zero
/// have none either.
pub proof fn lemma_levels_from_prices(kept: Seq<LevelView>, levels: Seq<LevelView>)
    requires
        levels_from(kept, levels),
        level_prices_nonneg(levels),
    ensures
        level_prices_nonneg(kept),
{
    assert forall|a: int| 0 <= a < kept.len() implies (#[trigger] kept[a]).price@.units() >= 0 by {
        assert(level_from(kept[a], levels));
        let j = choose|j: int|
            0 <= j < levels.len() && (#[trigger] levels[j]).price == kept[a].price && traders_from(
                kept[a].queue,
                levels[j].queue,
            );
        assert(levels[j].price@.units() >= 0);
    }
}

/// The state of a book as a value.
pub struct BookView {
    pub instrument_id: InstrumentId,
    /// Bid levels, highest price first.
    pub bids: Seq<LevelView>,
    /// Ask levels, lowest price first.
    pub asks: Seq<LevelView>,
    /// Where each indexed order rests.
    pub orders: Map<u64, IndexEntry>,
}

impl BookView {
    /// The levels of one side.
    pub open spec fn side(self, side: Side) -> Seq<LevelView> {
        match side {
            Side::Buy => self.bids,
            Side::Sell => self.asks,
        }
    }

    /// The book with the levels of one side replaced.
    pub open spec fn with_side(self, side: Side, levels: Seq<LevelView>) -> BookView {
        match side {
            Side::Buy => BookView { bids: levels, ..self },
            Side::Sell => BookView { asks: levels, ..self },
        }
    }

    /// Both sides are in priority order and hold no empty level.
    pub open spec fn wf(self) -> bool {
        &&& side_sorted(Side::Buy, self.bids)
        &&& side_sorted(Side::Sell, self.asks)
        &&& queues_nonempty(self.bids)
        &&& queues_nonempty(self.asks)
    }

    /// The highest bid price.
    pub open spec fn best_bid(self) -> Option<Decimal> {
        if self.bids.len() > 0 {
            Some(self.bids[0].price)
        } else {
            None
        }
    }

    /// The lowest ask price.
    pub open spec fn best_ask(self) -> Option<Decimal> {
        if self.asks.len() > 0 {
            Some(self.asks[0].price)
        } else {
            None
        }
    }

    /// The book after an order has come to rest and has been indexed.
    pub open spec fn rested(self, side: Side, price: Decimal, entry: BookEntry) -> BookView {
        BookView {
            orders: self.orders.insert(
                entry.order_id.0,
                IndexEntry { side, price, quantity: entry.quantity },
            ),
            ..self.with_side(side, with_entry(side, self.side(side), price, entry))
        }
    }

    /// The book after the indexed order `id` has been canceled: its entries
    /// leave the level that the index names, and the index forgets it.
    pub open spec fn canceled(self, id: OrderId) -> BookView {
        let at = self.orders[id.0];
        BookView {
            orders: self.orders.remove(id.0),
            ..self.with_side(at.side, without_order(at.side, self.side(at.side), at.price, id))
        }
    }

    /// Why the book refuses to let `order` rest, if it does: no price, then
    /// another instrument, then a quantity that is not above zero.
    pub open spec fn refusal(self, order: Order) -> Option<EngineError> {
        if order.price is None {
            Some(EngineError::InvalidOrder)
        } else if order.instrument_id != self.instrument_id {
            Some(EngineError::InstrumentMismatch)
        } else if !order.quantity.is_positive() {
            Some(EngineError::InvalidOrder)
        } else {
            None
        }
    }

    /// The book after `order` has come to rest with its whole quantity.
    pub open spec fn with_order(self, order: Order) -> BookView {
        self.rested(
            order.side,
            order.price->0,
            BookEntry {
                order_id: order.order_id,
                quantity: order.quantity,
                trader_id: order.trader_id,
            },
        )
    }

    /// The ask quantity at or below `limit` that is open to a trader: summed
    /// from the lowest ask up, starting from zero.
    pub open spec fn ask_quantity(self, limit: Decimal, exclude: TraderId) -> Decimal {
        levels_available(
            self.asks.take(reach(Side::Sell, self.asks, limit)),
            exclude,
            Decimal::nil(),
        )
    }

    /// The bid quantity at or above `limit` that is open to a trader: summed
    /// from the lowest such bid up, starting from zero.
    pub open spec fn bid_quantity(self, limit: Decimal, exclude: TraderId) -> Decimal {
        levels_available_rev(
            self.bids.take(reach(Side::Buy, self.bids, limit)),
            exclude,
            Decimal::nil(),
        )
    }

    /// What taking `quantity` from the side `side` gives.
    pub open spec fn taken(self, side: Side, limit: Decimal, quantity: Decimal, exclude: TraderId) -> Taken<
        LevelView,
    > {
        take_levels(side, self.side(side), limit, quantity, exclude)
    }

    /// The book after `quantity` has been taken from the side `side`: the
    /// index forgets the orders that were used up, then learns the smaller
    /// quantities of those that stay.
    pub open spec fn after_take(self, side: Side, limit: Decimal, quantity: Decimal, exclude: TraderId) -> BookView {
        let t = self.taken(side, limit, quantity, exclude);
        BookView {
            orders: with_reduced(self.orders.remove_keys(filled_ids(t.fills)), t.reduced),
            ..self.with_side(side, t.kept)
        }
    }

    /// The resting orders: bids from the lowest price up, then asks from the
    /// lowest price up, each level oldest order first.
    pub open spec fn resting(self) -> Seq<RestingOrder> {
        levels_resting_rev(self.instrument_id, Side::Buy, self.bids) + levels_resting(
            self.instrument_id,
            Side::Sell,
            self.asks,
        )
    }

    /// The book after the resting orders have come to rest in their order,
    /// up to the first one that the book refuses.
    pub open spec fn loaded(self, orders: Seq<RestingOrder>) -> BookView
        decreases orders.len(),
    {
        if orders.len() == 0 || resting_refusal(self.instrument_id, orders[0]) is Some {
            self
        } else {
            self.rested(orders[0].side, orders[0].price, entry_of(orders[0])).loaded(
                orders.drop_first(),
            )
        }
    }

    /// Every resting quantity is above zero and can be written at scale `k`.
    pub open spec fn sound(self, k: nat) -> bool {
        levels_sound(self.bids, k) && levels_sound(self.asks, k)
    }

    /// No resting price is below zero.
    pub open spec fn prices_nonneg(self) -> bool {
        level_prices_nonneg(self.bids) && level_prices_nonneg(self.asks)
    }

    /// The best bid is below the best ask, where the book has both.
    pub open spec fn uncrossed(self) -> bool {
        self.bids.len() > 0 && self.asks.len() > 0 ==> self.bids[0].price.is_below(self.asks[0].price)
    }

    /// An empty book.
    pub open spec fn empty(instrument_id: InstrumentId) -> BookView {
        BookView { instrument_id, bids: Seq::empty(), asks: Seq::empty(), orders: Map::empty() }
    }
}

/// Single-instrument order book.
#[derive(Debug)]
pub struct OrderBook {
    instrument_id: InstrumentId,
    bids: Vec<PriceLevel>,
    asks: Vec<PriceLevel>,
    orders: HashMap<u64, IndexEntry>,
}

impl View for OrderBook {
    type V = BookView;

    closed spec fn view(&self) -> BookView {
        BookView {
            instrument_id: self.instrument_id,
            bids: levels_view(self.bids@),
            asks: levels_view(self.asks@),
            orders: self.orders@,
        }
    }
}

impl OrderBook {
    /// Both sides are in priority order and hold no empty level.
    pub open spec fn wf(&self) -> bool {
        self@.wf()
    }

    pub fn new(instrument_id: InstrumentId) -> (book: OrderBook)
        ensures
            book@ == BookView::empty(instrument_id),
            book.wf(),
            index_exact(book@),
            crate::index_quantities::quantities_indexed(book@),
    {
        let book = OrderBook {
            instrument_id,
            bids: Vec::new(),
            asks: Vec::new(),
            orders: HashMap::new(),
        };
        assert(book@.bids =~= Seq::empty());
        assert(book@.asks =~= Seq::empty());
        assert(book@.orders =~= Map::empty());
        book
    }

    /// Puts an entry to rest on its side and records it in the index.
    pub(crate) fn rest(&mut self, side: Side, price: Decimal, entry: BookEntry)
        requires
            old(self).wf(),
        ensures
            final(self).wf(),
            final(self)@ == old(self)@.rested(side, price, entry),
            forall|k: nat| #[trigger]
                old(self)@.sound(k) && entry.quantity.sound(k) ==> final(self)@.sound(k),
            !holds(old(self)@, entry.order_id.0) ==> index_kept(old(self)@, final(self)@),
            !holds(old(self)@, entry.order_id.0) && crate::book_index::index_covers(old(self)@)
                ==> forall|x: u64|
                holds(final(self)@, x) <==> (holds(old(self)@, x) || x == entry.order_id.0),
    {
        proof {
            if !holds(old(self)@, entry.order_id.0) {
                if crate::book_index::index_covers(old(self)@) {
                    lemma_rested_covers(old(self)@, side, price, entry);
                }
                if crate::index_quantities::quantities_indexed(old(self)@) {
                    crate::index_quantities::lemma_rested_quantities(old(self)@, side, price, entry);
                }
            }
        }
        match side {
            Side::Buy => place_entry(&mut self.bids, side, price, entry),
            Side::Sell => place_entry(&mut self.asks, side, price, entry),
        }
        self.orders.insert(entry.order_id.0, IndexEntry { side, price, quantity: entry.quantity });
        proof {
            assert forall|k: nat| #[trigger] old(self)@.sound(k) && entry.quantity.sound(k) implies self@.sound(
                k,
            ) by {
                lemma_with_entry_sound(side, old(self)@.side(side), price, entry, k);
            }
        }
    }

    /// Add a limit order to the book, at the tail of the queue for its
    /// price. Does not run matching. An order without a price, for another
    /// instrument or with a quantity that is not above zero is refused, and
    /// the book stays as it was.
    pub fn add_order(&mut self, order: &Order) -> (r: Result<(), EngineError>)
        requires
            old(self).wf(),
        ensures
            final(self).wf(),
            match old(self)@.refusal(*order) {
                Some(e) => r == Err::<(), EngineError>(e) && final(self)@ == old(self)@,
                None => r is Ok && final(self)@ == old(self)@.with_order(*order),
            },
            forall|k: nat| #[trigger]
                old(self)@.sound(k) && order.quantity@.fits_scale(k) ==> final(self)@.sound(k),
            !holds(old(self)@, order.order_id.0) ==> index_kept(old(self)@, final(self)@),
    {
        let price = match order.price {
            Some(p) => p,
            None => {
                return Err(EngineError::InvalidOrder);
            },
        };
        if order.instrument_id != self.instrument_id {
            return Err(EngineError::InstrumentMismatch);
        }
        if !order.quantity.positive() {
            return Err(EngineError::InvalidOrder);
        }
        self.rest(
            order.side,
            price,
            BookEntry {
                order_id: order.order_id,
                quantity: order.quantity,
                trader_id: order.trader_id,
            },
        );
        Ok(())
    }

    /// Remove order by id. Returns true if the index knew it; its entries
    /// then leave the level that the index names, and the index forgets it.
    /// An unknown id changes nothing.
    pub fn cancel_order(&mut self, order_id: OrderId) -> (r: bool)
        requires
            old(self).wf(),
        ensures
            final(self).wf(),
            r == old(self)@.orders.contains_key(order_id.0),
            final(self)@ == if r {
                old(self)@.canceled(order_id)
            } else {
                old(self)@
            },
            forall|k: nat| #[trigger] old(self)@.sound(k) ==> final(self)@.sound(k),
            index_kept(old(self)@, final(self)@),
            crate::book_index::index_covers(old(self)@) ==> !holds(final(self)@, order_id.0),
            crate::book_index::index_covers(old(self)@) ==> forall|x: u64|
                holds(final(self)@, x) ==> holds(old(self)@, x),
    {
        proof {
            if crate::book_index::index_covers(old(self)@) {
                if old(self)@.orders.contains_key(order_id.0) {
                    lemma_canceled_covers(old(self)@, order_id);
                } else {
                    crate::book_index::lemma_unknown_rests_not(old(self)@, order_id.0);
                }
            }
            if crate::index_quantities::quantities_indexed(old(self)@) && old(self)@.orders.contains_key(
                order_id.0,
            ) {
                crate::index_quantities::lemma_canceled_quantities(old(self)@, order_id);
            }
        }
        let at = match self.orders.remove(&order_id.0) {
            Some(at) => at,
            None => {
                assert(self@.orders =~= old(self)@.orders);
                return false;
            },
        };
        match at.side {
            Side::Buy => remove_entries(&mut self.bids, at.side, at.price, order_id),
            Side::Sell => remove_entries(&mut self.asks, at.side, at.price, order_id),
        }
        proof {
            assert forall|k: nat| #[trigger] old(self)@.sound(k) implies self@.sound(k) by {
                lemma_without_order_sound(at.side, old(self)@.side(at.side), at.price, order_id, k);
            }
        }
        true
    }

    /// Modify an order: cancel by `order_id`, then add the replacement order
    /// at the tail of the queue for its price. The replacement may use the
    /// same `order_id` or a new one. Where the order is unknown or the book
    /// refuses the replacement, nothing changes.
    pub fn modify_order(&mut self, order_id: OrderId, replacement: &Order) -> (r: Result<(), EngineError>)
        requires
            old(self).wf(),
        ensures
            final(self).wf(),
            !old(self)@.orders.contains_key(order_id.0) ==> r == Err::<(), EngineError>(
                EngineError::UnknownOrder,
            ) && final(self)@ == old(self)@,
            old(self)@.orders.contains_key(order_id.0) ==> match old(self)@.refusal(*replacement) {
                Some(e) => r == Err::<(), EngineError>(e) && final(self)@ == old(self)@,
                None => r is Ok && final(self)@ == old(self)@.canceled(order_id).with_order(
                    *replacement,
                ),
            },
            replacement.order_id == order_id || !holds(old(self)@, replacement.order_id.0) ==> index_kept(
                old(self)@,
                final(self)@,
            ),
    {
        if !self.orders.contains_key(&order_id.0) {
            return Err(EngineError::UnknownOrder);
        }
        let price = match replacement.price {
            Some(p) => p,
            None => {
                return Err(EngineError::InvalidOrder);
            },
        };
        if replacement.instrument_id != self.instrument_id {
            return Err(EngineError::InstrumentMismatch);
        }
        if !replacement.quantity.positive() {
            return Err(EngineError::InvalidOrder);
        }
        let _ = self.cancel_order(order_id);
        self.rest(
            replacement.side,
            price,
            BookEntry {
                order_id: replacement.order_id,
                quantity: replacement.quantity,
                trader_id: replacement.trader_id,
            },
        );
        Ok(())
    }

    /// Total ask quantity at or below given price (excluding exclude_trader).
    /// The sum stops at the largest decimal.
    pub fn available_ask_qty_at_or_below(&self, price_limit: Decimal, exclude_trader: TraderId) -> (total:
        Decimal)
        ensures
            total == self@.ask_quantity(price_limit, exclude_trader),
    {
        let n = reach_of(&self.asks, Side::Sell, &price_limit);
        let mut total = Decimal::zero();
        let ghost levels = self@.asks.take(n as int);
        let ghost start = total;
        let mut i: usize = 0;
        proof {
            assert(levels.skip(0) =~= levels);
        }
        while i < n
            invariant
                i <= n <= self.asks.len(),
                levels == levels_view(self.asks@).take(n as int),
                levels_available(levels, exclude_trader, start) == levels_available(
                    levels.skip(i as int),
                    exclude_trader,
                    total,
                ),
            decreases n - i,
        {
            proof {
                assert(levels.skip(i as int).drop_first() =~= levels.skip(i as int + 1));
                assert(levels.skip(i as int)[0] == levels_view(self.asks@)[i as int]);
            }
            total = add_queue(&self.asks[i].queue, exclude_trader, total);
            i += 1;
        }
        total
    }

    /// Total bid quantity at or above given price (excluding exclude_trader).
    /// The sum stops at the largest decimal.
    pub fn available_bid_qty_at_or_above(&self, price_limit: Decimal, exclude_trader: TraderId) -> (total:
        Decimal)
        ensures
            total == self@.bid_quantity(price_limit, exclude_trader),
    {
        let n = reach_of(&self.bids, Side::Buy, &price_limit);
        let mut total = Decimal::zero();
        let ghost levels = self@.bids.take(n as int);
        let ghost start = total;
        let mut i: usize = n;
        proof {
            assert(levels.take(n as int) =~= levels);
        }
        while i > 0
            invariant
                i <= n <= self.bids.len(),
                levels == levels_view(self.bids@).take(n as int),
                levels_available_rev(levels, exclude_trader, start) == levels_available_rev(
                    levels.take(i as int),
                    exclude_trader,
                    total,
                ),
            decreases i,
        {
            proof {
                assert(levels.take(i as int).drop_last() =~= levels.take(i as int - 1));
                assert(levels.take(i as int).last() == levels_view(self.bids@)[i as int - 1]);
            }
            i -= 1;
            total = add_queue(&self.bids[i].queue, exclude_trader, total);
        }
        total
    }

    /// Takes liquidity from one side, and brings the index up to date.
    pub(crate) fn take_from(&mut self, side: Side, limit: Decimal, quantity: Decimal, exclude: TraderId) -> (r: (
        Vec<Fill>,
        Decimal,
    ))
        requires
            old(self).wf(),
        ensures
            final(self).wf(),
            r.0@ == old(self)@.taken(side, limit, quantity, exclude).fills,
            r.1 == old(self)@.taken(side, limit, quantity, exclude).left,
            final(self)@ == old(self)@.after_take(side, limit, quantity, exclude),
            levels_from(final(self)@.side(side), old(self)@.side(side)),
            fill_prices_from(r.0@, old(self)@.side(side)),
            index_kept(old(self)@, final(self)@),
            forall|x: u64| holds(final(self)@, x) ==> holds(old(self)@, x),
            forall|k: nat| #[trigger]
                levels_sound(old(self)@.side(side), k) && quantity.room(k) ==> levels_take_law(
                    side,
                    limit,
                    quantity,
                    exclude,
                    old(self)@.taken(side, limit, quantity, exclude),
                    k,
                ),
    {
        proof {
            if crate::book_index::index_covers(old(self)@) {
                lemma_after_take_covers(old(self)@, side, limit, quantity, exclude);
                if crate::index_quantities::quantities_indexed(old(self)@) {
                    crate::index_quantities::lemma_after_take_quantities(
                        old(self)@,
                        side,
                        limit,
                        quantity,
                        exclude,
                    );
                }
            }
            crate::book_index::lemma_take_holds(old(self)@, side, limit, quantity, exclude);
        }
        let (fills, reduced, left) = match side {
            Side::Buy => take_from_side(&mut self.bids, side, limit, quantity, exclude),
            Side::Sell => take_from_side(&mut self.asks, side, limit, quantity, exclude),
        };
        let ghost before = self.orders@;
        let ghost mid = self@;
        let mut i: usize = 0;
        proof {
            assert(self.orders@ =~= before.remove_keys(filled_ids(fills@.take(0))));
        }
        while i < fills.len()
            invariant
                i <= fills.len(),
                self.orders@ == before.remove_keys(filled_ids(fills@.take(i as int))),
                self@.bids == mid.bids,
                self@.asks == mid.asks,
                self@.instrument_id == mid.instrument_id,
            decreases fills.len() - i,
        {
            proof {
                assert(fills@.take(i as int + 1).drop_last() =~= fills@.take(i as int));
            }
            if fills[i].resting_fully_filled {
                let _ = self.orders.remove(&fills[i].resting_order_id.0);
            }
            assert(self.orders@ =~= before.remove_keys(filled_ids(fills@.take(i as int + 1))));
            i += 1;
        }
        proof {
            assert(fills@.take(fills.len() as int) =~= fills@);
        }
        let ghost cleared = self.orders@;
        let mut j: usize = 0;
        proof {
            assert(reduced@.skip(0) =~= reduced@);
        }
        while j < reduced.len()
            invariant
                j <= reduced.len(),
                with_reduced(cleared, reduced@) == with_reduced(self.orders@, reduced@.skip(j as int)),
                self@.bids == mid.bids,
                self@.asks == mid.asks,
                self@.instrument_id == mid.instrument_id,
            decreases reduced.len() - j,
        {
            let e = reduced[j];
            proof {
                assert(reduced@.skip(j as int).drop_first() =~= reduced@.skip(j as int + 1));
                assert(reduced@.skip(j as int)[0] == e);
            }
            let found = match self.orders.get(&e.order_id.0) {
                Some(at) => Some(IndexEntry { side: at.side, price: at.price, quantity: e.quantity }),
                None => None,
            };
            if let Some(at) = found {
                self.orders.insert(e.order_id.0, at);
            }
            j += 1;
        }
        (fills, left)
    }

    /// Take liquidity from the ask side (for an incoming buy): lowest price
    /// first, oldest order first, passing over the orders of
    /// `exclude_trader`. Returns the fills and updates the book.
    pub fn take_from_asks(&mut self, price_limit: Decimal, quantity: Decimal, exclude_trader: TraderId) -> (fills:
        Vec<Fill>)
        requires
            old(self).wf(),
        ensures
            final(self).wf(),
            fills@ == old(self)@.taken(Side::Sell, price_limit, quantity, exclude_trader).fills,
            final(self)@ == old(self)@.after_take(Side::Sell, price_limit, quantity, exclude_trader),
            index_kept(old(self)@, final(self)@),
            forall|k: nat| #[trigger]
                old(self)@.sound(k) && quantity.room(k) ==> final(self)@.sound(k) && levels_take_law(
                    Side::Sell,
                    price_limit,
                    quantity,
                    exclude_trader,
                    old(self)@.taken(Side::Sell, price_limit, quantity, exclude_trader),
                    k,
                ),
    {
        let (fills, _) = self.take_from(Side::Sell, price_limit, quantity, exclude_trader);
        proof {
            reveal(levels_take_law);
        }
        fills
    }

    /// Take liquidity from the bid side (for an incoming sell): highest
    /// price first, oldest order first, passing over the orders of
    /// `exclude_trader`. Returns the fills and updates the book.
    pub fn take_from_bids(&mut self, price_limit: Decimal, quantity: Decimal, exclude_trader: TraderId) -> (fills:
        Vec<Fill>)
        requires
            old(self).wf(),
        ensures
            final(self).wf(),
            fills@ == old(self)@.taken(Side::Buy, price_limit, quantity, exclude_trader).fills,
            final(self)@ == old(self)@.after_take(Side::Buy, price_limit, quantity, exclude_trader),
            index_kept(old(self)@, final(self)@),
            forall|k: nat| #[trigger]
                old(self)@.sound(k) && quantity.room(k) ==> final(self)@.sound(k) && levels_take_law(
                    Side::Buy,
                    price_limit,
                    quantity,
                    exclude_trader,
                    old(self)@.taken(Side::Buy, price_limit, quantity, exclude_trader),
                    k,
                ),
    {
        let (fills, _) = self.take_from(Side::Buy, price_limit, quantity, exclude_trader);
        proof {
            reveal(levels_take_law);
        }
        fills
    }

    /// Export resting orders for persistence: bids from the lowest price up,
    /// then asks from the lowest price up, each level oldest order first.
    pub fn resting_orders_snapshot(&self) -> (out: Vec<RestingOrder>)
        ensures
            out@ == self@.resting(),
    {
        let mut out: Vec<RestingOrder> = Vec::new();
        let ghost bids = self@.bids;
        let ghost asks = self@.asks;
        let mut i: usize = self.bids.len();
        proof {
            assert(bids.skip(i as int) =~= Seq::<LevelView>::empty());
        }
        while i > 0
            invariant
                i <= self.bids.len(),
                bids == levels_view(self.bids@),
                out@ == levels_resting_rev(self.instrument_id, Side::Buy, bids.skip(i as int)),
            decreases i,
        {
            i -= 1;
            proof {
                assert(bids.skip(i as int).drop_first() =~= bids.skip(i as int + 1));
                assert(bids.skip(i as int)[0] == bids[i as int]);
            }
            append_level(&mut out, self.instrument_id, Side::Buy, &self.bids[i]);
        }
        let ghost bid_part = out@;
        let mut j: usize = 0;
        proof {
            assert(bids.skip(0) =~= bids);
            assert(asks.take(0) =~= Seq::<LevelView>::empty());
            assert(out@ =~= bid_part + levels_resting(self.instrument_id, Side::Sell, asks.take(0)));
        }
        while j < self.asks.len()
            invariant
                j <= self.asks.len(),
                asks == levels_view(self.asks@),
                out@ == bid_part + levels_resting(self.instrument_id, Side::Sell, asks.take(j as int)),
            decreases self.asks.len() - j,
        {
            let ghost before = out@;
            proof {
                assert(asks.take(j as int + 1).drop_last() =~= asks.take(j as int));
                assert(asks.take(j as int + 1).last() == asks[j as int]);
            }
            append_level(&mut out, self.instrument_id, Side::Sell, &self.asks[j]);
            proof {
                let part = levels_resting(self.instrument_id, Side::Sell, asks.take(j as int));
                let more = level_resting(self.instrument_id, Side::Sell, asks[j as int]);
                assert((bid_part + part) + more =~= bid_part + (part + more));
            }
            j += 1;
        }
        proof {
            assert(asks.take(self.asks.len() as int) =~= asks);
        }
        out
    }

    /// Restore resting orders. Clears the book first, then lets the orders
    /// come to rest in the order given, which becomes their time priority.
    /// Stops at the first order that is for another instrument or has a
    /// quantity that is not above zero, and returns its error; the orders
    /// before it stay loaded.
    pub fn load_resting_orders(
        &mut self,
        orders: &[RestingOrder],
        order_type: OrderType,
        time_in_force: TimeInForce,
    ) -> (r: Result<(), EngineError>)
        ensures
            final(self).wf(),
            final(self)@.instrument_id == old(self)@.instrument_id,
            final(self)@ == BookView::empty(old(self)@.instrument_id).loaded(orders@),
            match first_refusal(old(self)@.instrument_id, orders@) {
                Some(e) => r == Err::<(), EngineError>(e),
                None => r is Ok,
            },
            ids_distinct(orders@) ==> index_exact(final(self)@)
                && crate::index_quantities::quantities_indexed(final(self)@) && forall|x: u64|
                holds(final(self)@, x) ==> ids_listed(orders@, x),
    {
        self.bids = Vec::new();
        self.asks = Vec::new();
        self.orders = HashMap::new();
        let ghost start = BookView::empty(self.instrument_id);
        let mut i: usize = 0;
        proof {
            assert(self@.bids =~= start.bids);
            assert(self@.asks =~= start.asks);
            assert(self@.orders =~= start.orders);
            assert(orders@.skip(0) =~= orders@);
        }
        while i < orders.len()
            invariant
                i <= orders.len(),
                self.wf(),
                self.instrument_id == old(self).instrument_id,
                start == BookView::empty(old(self)@.instrument_id),
                start.loaded(orders@) == self@.loaded(orders@.skip(i as int)),
                ids_distinct(orders@) ==> index_exact(self@)
                    && crate::index_quantities::quantities_indexed(self@) && forall|x: u64|
                    holds(self@, x) ==> exists|j: int|
                        0 <= j < i && (#[trigger] orders@[j]).order_id.0 == x,
                first_refusal(self.instrument_id, orders@) == first_refusal(
                    self.instrument_id,
                    orders@.skip(i as int),
                ),
            decreases orders.len() - i,
        {
            let r = orders[i];
            proof {
                assert(orders@.skip(i as int).drop_first() =~= orders@.skip(i as int + 1));
                assert(orders@.skip(i as int)[0] == r);
            }
            if r.instrument_id != self.instrument_id {
                return Err(EngineError::InstrumentMismatch);
            }
            if !r.quantity.positive() {
                return Err(EngineError::InvalidOrder);
            }
            let ghost before = self@;
            proof {
                if ids_distinct(orders@) && holds(before, r.order_id.0) {
                    let j = choose|j: int| 0 <= j < i && (#[trigger] orders@[j]).order_id.0 == r.order_id.0;
                    assert(orders@[j].order_id != orders@[i as int].order_id);
                }
            }
            self.rest(
                r.side,
                r.price,
                BookEntry { order_id: r.order_id, quantity: r.quantity, trader_id: r.trader_id },
            );
            proof {
                if ids_distinct(orders@) {
                    assert forall|x: u64| holds(self@, x) implies exists|j: int|
                        0 <= j < i + 1 && (#[trigger] orders@[j]).order_id.0 == x by {
                        if holds(before, x) {
                            let j = choose|j: int| 0 <= j < i && (#[trigger] orders@[j]).order_id.0 == x;
                            assert(orders@[j].order_id.0 == x);
                        } else {
                            assert(orders@[i as int].order_id.0 == x);
                        }
                    }
                }
            }
            i += 1;
        }
        Ok(())
    }

    pub fn instrument_id(&self) -> (id: InstrumentId)
        ensures
            id == self@.instrument_id,
    {
        self.instrument_id
    }

    /// Returns true if the book has at least one resting order.
    pub fn has_resting_orders(&self) -> (r: bool)
        ensures
            r == (self@.bids.len() > 0 || self@.asks.len() > 0),
    {
        self.bids.len() > 0 || self.asks.len() > 0
    }

    /// Best bid price (None if empty).
    pub fn best_bid(&self) -> (r: Option<Decimal>)
        ensures
            r == self@.best_bid(),
    {
        if self.bids.len() > 0 {
            Some(self.bids[0].price)
        } else {
            None
        }
    }

    /// Best ask price (None if empty).
    pub fn best_ask(&self) -> (r: Option<Decimal>)
        ensures
            r == self@.best_ask(),
    {
        if self.asks.len() > 0 {
            Some(self.asks[0].price)
        } else {
            None
        }
    }

    /// Whether the book has a bid.
    pub fn has_bid(&self) -> (r: bool)
        ensures
            r == (self@.bids.len() > 0),
    {
        self.best_bid().is_some()
    }

    /// Whether the book has an ask.
    pub fn has_ask(&self) -> (r: bool)
        ensures
            r == (self@.asks.len() > 0),
    {
        self.best_ask().is_some()
    }
}

/// Whether price `a` has priority over price `b` on the side `side`.
fn is_better(side: Side, a: &Decimal, b: &Decimal) -> (r: bool)
    ensures
        r == better(side, *a, *b),
{
    match side {
        Side::Buy => b.less_than(a),
        Side::Sell => a.less_than(b),
    }
}

/// Whether a resting price on the side `side` is within `limit`.
fn is_within(side: Side, price: &Decimal, limit: &Decimal) -> (r: bool)
    ensures
        r == within(side, *price, *limit),
{
    match side {
        Side::Buy => limit.at_most(price),
        Side::Sell => price.at_most(limit),
    }
}

/// The number of leading levels whose price is within `limit`.
fn reach_of(levels: &Vec<PriceLevel>, side: Side, limit: &Decimal) -> (n: usize)
    ensures
        n == reach(side, levels_view(levels@), *limit),
        n <= levels.len(),
{
    let ghost all = levels_view(levels@);
    let mut n: usize = 0;
    proof {
        assert(all.skip(0) =~= all);
    }
    while n < levels.len() && is_within(side, &levels[n].price, limit)
        invariant
            n <= levels.len(),
            all == levels_view(levels@),
            reach(side, all, *limit) == n + reach(side, all.skip(n as int), *limit),
        decreases levels.len() - n,
    {
        proof {
            assert(all.skip(n as int).drop_first() =~= all.skip(n as int + 1));
            assert(all.skip(n as int)[0] == all[n as int]);
        }
        n += 1;
    }
    proof {
        if n < levels.len() {
            assert(all.skip(n as int)[0] == all[n as int]);
        }
    }
    n
}

/// Adds to `total` the quantity that a queue offers to a trader.
fn add_queue(queue: &Vec<BookEntry>, exclude: TraderId, total: Decimal) -> (r: Decimal)
    ensures
        r == queue_available(queue@, exclude, total),
{
    let mut sum = total;
    let mut i: usize = 0;
    proof {
        assert(queue@.skip(0) =~= queue@);
    }
    while i < queue.len()
        invariant
            i <= queue.len(),
            queue_available(queue@, exclude, total) == queue_available(queue@.skip(i as int), exclude, sum),
        decreases queue.len() - i,
    {
        let e = queue[i];
        proof {
            assert(queue@.skip(i as int).drop_first() =~= queue@.skip(i as int + 1));
            assert(queue@.skip(i as int)[0] == e);
        }
        if e.trader_id != exclude {
            sum = Decimal::plus(sum, e.quantity);
        }
        i += 1;
    }
    sum
}

/// Takes `quantity` from one queue. Returns the fills, what stays of the
/// queue, what is left of the quantity, and the entries that stay with a
/// smaller quantity.
fn take_from_queue(queue: &Vec<BookEntry>, price: Decimal, quantity: Decimal, exclude: TraderId) -> (r: (
    Vec<Fill>,
    Vec<BookEntry>,
    Decimal,
    Vec<BookEntry>,
))
    ensures
        r.0@ == take_queue(queue@, price, quantity, exclude).fills,
        r.1@ == take_queue(queue@, price, quantity, exclude).kept,
        r.2 == take_queue(queue@, price, quantity, exclude).left,
        r.3@ == take_queue(queue@, price, quantity, exclude).reduced,
        queue_outcome(
            LevelView { price, queue: queue@ },
            quantity,
            exclude,
            take_queue(queue@, price, quantity, exclude),
        ),
{
    let ghost all = take_queue(queue@, price, quantity, exclude);
    let mut fills: Vec<Fill> = Vec::new();
    let mut reduced: Vec<BookEntry> = Vec::new();
    let mut kept: Vec<BookEntry> = Vec::new();
    let mut left = quantity;
    let mut i: usize = 0;
    proof {
        assert(queue@.skip(0) =~= queue@);
        assert(fills@ + all.fills =~= all.fills);
        assert(reduced@ + all.reduced =~= all.reduced);
        assert(kept@ + all.kept =~= all.kept);
        assert forall|k: nat| #[trigger] queue_sound(queue@, k) && quantity.room(k) implies queue_take_law(
            quantity,
            exclude,
            Taken { fills: fills@, kept: kept@, left, reduced: reduced@ },
            k,
        ) by {
        }
    }
    while i < queue.len()
        invariant
            i <= queue.len(),
            all == take_queue(queue@, price, quantity, exclude),
            all.fills == fills@ + take_queue(queue@.skip(i as int), price, left, exclude).fills,
            all.reduced == reduced@ + take_queue(queue@.skip(i as int), price, left, exclude).reduced,
            all.kept == kept@ + take_queue(queue@.skip(i as int), price, left, exclude).kept,
            all.left == take_queue(queue@.skip(i as int), price, left, exclude).left,
            traders_from(kept@, queue@),
            forall|j: int| 0 <= j < fills@.len() ==> (#[trigger] fills@[j]).price == price,
            forall|k: nat| #[trigger]
                queue_sound(queue@, k) && quantity.room(k) ==> queue_take_law(
                    quantity,
                    exclude,
                    Taken { fills: fills@, kept: kept@, left, reduced: reduced@ },
                    k,
                ),
        decreases queue.len() - i,
    {
        let e = queue[i];
        let ghost here = queue@.skip(i as int);
        let ghost fills1 = fills@;
        let ghost reduced1 = reduced@;
        let ghost kept1 = kept@;
        let ghost left1 = left;
        let ghost before = Taken { fills: fills1, kept: kept1, left: left1, reduced: reduced1 };
        proof {
            assert(here.drop_first() =~= queue@.skip(i as int + 1));
            assert(here[0] == e);
            assert(has_trader(queue@, e.trader_id));
        }
        if !left.positive() || e.trader_id == exclude {
            kept.push(e);
            proof {
                let next = take_queue(queue@.skip(i as int + 1), price, left, exclude);
                if !left.is_positive() {
                    assert(take_queue(here, price, left, exclude).kept == here);
                    assert(next.kept == queue@.skip(i as int + 1));
                    assert(kept1 + here =~= kept@ + queue@.skip(i as int + 1));
                } else {
                    assert(kept1 + (seq![e] + next.kept) =~= kept@ + next.kept);
                }
                assert forall|j: int| 0 <= j < kept@.len() implies has_trader(
                    queue@,
                    (#[trigger] kept@[j]).trader_id,
                ) by {
                    if j < kept1.len() {
                        assert(kept@[j] == kept1[j]);
                    }
                }
                assert forall|k: nat| #[trigger]
                    queue_sound(queue@, k) && quantity.room(k) implies queue_take_law(
                    quantity,
                    exclude,
                    Taken { fills: fills@, kept: kept@, left, reduced: reduced@ },
                    k,
                ) by {
                    assert(queue_take_law(quantity, exclude, before, k));
                    assert forall|j: int| 0 <= j < kept@.len() implies (
                    #[trigger] kept@[j]).quantity.sound(k) by {
                        if j < kept1.len() {
                            assert(kept@[j] == kept1[j]);
                        }
                    }
                    if left.is_positive() {
                        assert forall|j: int| 0 <= j < kept@.len() implies (#[trigger] kept@[j]).trader_id
                            == exclude by {
                            if j < kept1.len() {
                                assert(kept@[j] == kept1[j]);
                            }
                        }
                    }
                }
            }
        } else {
            let fill_qty = Decimal::lesser(left, e.quantity);
            let full = e.quantity.at_most(&fill_qty);
            let stay_qty = Decimal::minus(e.quantity, fill_qty);
            let rest = Decimal::minus(left, fill_qty);
            let ghost next = take_queue(queue@.skip(i as int + 1), price, rest, exclude);
            fills.push(
                Fill {
                    resting_order_id: e.order_id,
                    resting_trader_id: e.trader_id,
                    price,
                    quantity: fill_qty,
                    resting_fully_filled: full,
                },
            );
            if !full {
                let stay = BookEntry { order_id: e.order_id, quantity: stay_qty, trader_id: e.trader_id };
                kept.push(stay);
                reduced.push(stay);
                proof {
                    assert(kept1 + (seq![stay] + next.kept) =~= kept@ + next.kept);
                    assert(reduced1 + (seq![stay] + next.reduced) =~= reduced@ + next.reduced);
                }
            }
            left = rest;
            proof {
                assert(fills1 + (seq![fill_of(e, price, left1)] + next.fills) =~= fills@ + next.fills);
                assert forall|j: int| 0 <= j < kept@.len() implies has_trader(
                    queue@,
                    (#[trigger] kept@[j]).trader_id,
                ) by {
                    if j < kept1.len() {
                        assert(kept@[j] == kept1[j]);
                    }
                }
                assert forall|j: int| 0 <= j < fills@.len() implies (#[trigger] fills@[j]).price == price by {
                    if j < fills1.len() {
                        assert(fills@[j] == fills1[j]);
                    }
                }
                assert forall|k: nat| #[trigger]
                    queue_sound(queue@, k) && quantity.room(k) implies queue_take_law(
                    quantity,
                    exclude,
                    Taken { fills: fills@, kept: kept@, left, reduced: reduced@ },
                    k,
                ) by {
                    assert(queue_take_law(quantity, exclude, before, k));
                    assert(queue@[i as int].quantity.sound(k));
                    lemma_queue_fill_step(quantity, exclude, before, e, price, rest, stay_qty, k);
                    if full {
                        assert(kept@ == kept1);
                    }
                    if left.is_positive() {
                        assert(full);
                    }
                }
            }
        }
        i += 1;
    }
    proof {
        assert(all.fills =~= fills@);
        assert(all.reduced =~= reduced@);
        assert(all.kept =~= kept@);
        assert(all == (Taken { fills: fills@, kept: kept@, left, reduced: reduced@ }));
        reveal(queue_outcome);
    }
    (fills, kept, left, reduced)
}

/// Takes `quantity` from the levels of one side, best price first. Returns
/// the fills, the entries that stay with a smaller quantity, and what is
/// left of the quantity.
fn take_from_side(levels: &mut Vec<PriceLevel>, side: Side, limit: Decimal, quantity: Decimal, exclude: TraderId) -> (r: (
    Vec<Fill>,
    Vec<BookEntry>,
    Decimal,
))
    requires
        side_sorted(side, levels_view(old(levels)@)),
        queues_nonempty(levels_view(old(levels)@)),
    ensures
        r.0@ == take_levels(side, levels_view(old(levels)@), limit, quantity, exclude).fills,
        r.1@ == take_levels(side, levels_view(old(levels)@), limit, quantity, exclude).reduced,
        r.2 == take_levels(side, levels_view(old(levels)@), limit, quantity, exclude).left,
        levels_view(final(levels)@) == take_levels(
            side,
            levels_view(old(levels)@),
            limit,
            quantity,
            exclude,
        ).kept,
        side_sorted(side, levels_view(final(levels)@)),
        queues_nonempty(levels_view(final(levels)@)),
        levels_from(levels_view(final(levels)@), levels_view(old(levels)@)),
        fill_prices_from(r.0@, levels_view(old(levels)@)),
        forall|k: nat| #[trigger]
            levels_sound(levels_view(old(levels)@), k) && quantity.room(k) ==> levels_take_law(
                side,
                limit,
                quantity,
                exclude,
                take_levels(side, levels_view(old(levels)@), limit, quantity, exclude),
                k,
            ),
{
    let ghost orig = levels_view(levels@);
    let ghost all = take_levels(side, orig, limit, quantity, exclude);
    let mut fills: Vec<Fill> = Vec::new();
    let mut reduced: Vec<BookEntry> = Vec::new();
    let mut left = quantity;
    let mut i: usize = 0;
    let ghost mut k: int = 0;
    let mut active = true;
    proof {
        assert(orig.skip(0) =~= orig);
        assert(orig.take(0) + all.kept =~= all.kept);
        assert(fills@ + all.fills =~= all.fills);
        assert(reduced@ + all.reduced =~= all.reduced);
        lemma_progress_start(side, limit, quantity, exclude, orig);
    }
    while active && i < levels.len()
        invariant
            i <= levels.len(),
            0 <= k <= orig.len(),
            levels.len() - i == orig.len() - k,
            levels_view(levels@).skip(i as int) == orig.skip(k),
            all == take_levels(side, orig, limit, quantity, exclude),
            all.fills == fills@ + take_levels(side, orig.skip(k), limit, left, exclude).fills,
            all.reduced == reduced@ + take_levels(side, orig.skip(k), limit, left, exclude).reduced,
            all.kept == levels_view(levels@).take(i as int) + take_levels(
                side,
                orig.skip(k),
                limit,
                left,
                exclude,
            ).kept,
            all.left == take_levels(side, orig.skip(k), limit, left, exclude).left,
            !active ==> take_levels(side, orig.skip(k), limit, left, exclude) == (Taken {
                fills: Seq::<Fill>::empty(),
                kept: orig.skip(k),
                left,
                reduced: Seq::<BookEntry>::empty(),
            }),
            !active ==> k < orig.len() && (!within(side, orig[k].price, limit) || !left.is_positive()),
            side_sorted(side, levels_view(levels@)),
            queues_nonempty(levels_view(levels@)),
            take_progress(
                side,
                limit,
                quantity,
                exclude,
                orig,
                levels_view(levels@),
                i as int,
                fills@,
                left,
                reduced@,
            ),
        decreases orig.len() - k + if active { 1int } else { 0int },
    {
        let ghost cur = levels_view(levels@);
        let ghost here = orig.skip(k);
        proof {
            assert(here[0] == cur.skip(i as int)[0]);
            assert(cur.skip(i as int)[0] == cur[i as int]);
            assert(here.drop_first() =~= orig.skip(k + 1));
            assert(here[0] == orig[k]);
        }
        if !is_within(side, &levels[i].price, &limit) || !left.positive() {
            active = false;
        } else {
            let price = levels[i].price;
            let ghost fills1 = fills@;
            let ghost reduced1 = reduced@;
            let ghost left1 = left;
            let ghost first = take_queue(here[0].queue, price, left, exclude);
            let (mut more, kept, rest, mut less) = take_from_queue(&levels[i].queue, price, left, exclude);
            fills.append(&mut more);
            reduced.append(&mut less);
            let ghost next = take_levels(side, orig.skip(k + 1), limit, rest, exclude);
            proof {
                assert(fills1 + (first.fills + next.fills) =~= fills@ + next.fills);
                assert(reduced1 + (first.reduced + next.reduced) =~= reduced@ + next.reduced);
                lemma_progress_step(
                    side,
                    limit,
                    quantity,
                    exclude,
                    orig,
                    cur,
                    i as int,
                    k,
                    fills1,
                    left1,
                    reduced1,
                    first,
                );
            }
            left = rest;
            if kept.len() == 0 {
                let _ = levels.remove(i);
                proof {
                    let after = levels_view(levels@);
                    assert(after =~= cur.remove(i as int));
                    assert(after.skip(i as int) =~= cur.skip(i as int).drop_first());
                    assert(after.take(i as int) =~= cur.take(i as int));
                    assert forall|a: int, b: int| 0 <= a < b < after.len() implies better(
                        side,
                        #[trigger] after[a].price,
                        #[trigger] after[b].price,
                    ) by {
                        assert(after[a] == if a < i { cur[a] } else { cur[a + 1] });
                        assert(after[b] == if b < i { cur[b] } else { cur[b + 1] });
                    }
                    assert forall|a: int| 0 <= a < after.len() implies (#[trigger] after[a]).queue.len()
                        > 0 by {
                        assert(after[a] == if a < i { cur[a] } else { cur[a + 1] });
                    }
                }
            } else {
                let level = &mut levels[i];
                level.queue = kept;
                proof {
                    let after = levels_view(levels@);
                    let stays = LevelView { price, queue: kept@ };
                    assert(after =~= cur.update(i as int, stays));
                    assert(after.skip(i as int + 1) =~= cur.skip(i as int).drop_first());
                    assert(after.take(i as int + 1) =~= cur.take(i as int) + seq![stays]);
                    assert(cur.take(i as int) + (seq![stays] + next.kept) =~= after.take(i as int + 1)
                        + next.kept);
                    assert forall|a: int, b: int| 0 <= a < b < after.len() implies better(
                        side,
                        #[trigger] after[a].price,
                        #[trigger] after[b].price,
                    ) by {
                        assert(after[a].price == cur[a].price);
                        assert(after[b].price == cur[b].price);
                    }
                    assert forall|a: int| 0 <= a < after.len() implies (#[trigger] after[a]).queue.len()
                        > 0 by {
                        if a != i {
                            assert(after[a] == cur[a]);
                        }
                    }
                }
                i += 1;
            }
            proof {
                k = k + 1;
            }
        }
    }
    proof {
        let cur = levels_view(levels@);
        if active {
            assert(orig.skip(k).len() == 0);
        }
        assert(cur.take(i as int) + cur.skip(i as int) =~= cur);
        assert(fills@ + Seq::<Fill>::empty() =~= fills@);
        assert(reduced@ + Seq::<BookEntry>::empty() =~= reduced@);
        assert(all == (Taken { fills: fills@, kept: cur, left, reduced: reduced@ }));
        lemma_progress_done(side, limit, quantity, exclude, orig, cur, i as int, k, fills@, left, reduced@);
    }
    (fills, reduced, left)
}

/// Appends the resting orders of one level, oldest first.
fn append_level(out: &mut Vec<RestingOrder>, instrument_id: InstrumentId, side: Side, level: &PriceLevel)
    ensures
        final(out)@ == old(out)@ + level_resting(instrument_id, side, level@),
{
    let ghost before = out@;
    let mut j: usize = 0;
    proof {
        assert(out@ =~= before + level_resting(instrument_id, side, level@).take(0));
    }
    while j < level.queue.len()
        invariant
            j <= level.queue.len(),
            out@ == before + level_resting(instrument_id, side, level@).take(j as int),
        decreases level.queue.len() - j,
    {
        let e = level.queue[j];
        out.push(
            RestingOrder {
                order_id: e.order_id,
                instrument_id,
                side,
                price: level.price,
                quantity: e.quantity,
                trader_id: e.trader_id,
            },
        );
        proof {
            let all = level_resting(instrument_id, side, level@);
            assert(all.take(j as int + 1) =~= all.take(j as int).push(all[j as int]));
            assert(out@ =~= before + all.take(j as int + 1));
        }
        j += 1;
    }
    proof {
        let all = level_resting(instrument_id, side, level@);
        assert(all.take(all.len() as int) =~= all);
    }
}

/// The place of `price` among the levels, found by bisection.
fn find_position(levels: &Vec<PriceLevel>, side: Side, price: &Decimal) -> (i: usize)
    requires
        side_sorted(side, levels_view(levels@)),
    ensures
        i == position(side, levels_view(levels@), *price),
        i <= levels.len(),
{
    let ghost all = levels_view(levels@);
    let mut lo: usize = 0;
    let mut hi: usize = levels.len();
    while lo < hi
        invariant
            lo <= hi <= levels.len(),
            all == levels_view(levels@),
            side_sorted(side, all),
            forall|k: int| 0 <= k < lo ==> better(side, (#[trigger] all[k]).price, *price),
            forall|k: int| hi <= k < all.len() ==> !better(side, (#[trigger] all[k]).price, *price),
        decreases hi - lo,
    {
        let mid = lo + (hi - lo) / 2;
        if is_better(side, &levels[mid].price, price) {
            proof {
                assert forall|k: int| 0 <= k < mid + 1 implies better(side, (#[trigger] all[k]).price, *price) by {
                    if k < mid {
                        assert(better(side, all[k].price, all[mid as int].price));
                    }
                }
            }
            lo = mid + 1;
        } else {
            proof {
                assert forall|k: int| mid <= k < all.len() implies !better(
                    side,
                    (#[trigger] all[k]).price,
                    *price,
                ) by {
                    if k > mid {
                        assert(better(side, all[mid as int].price, all[k].price));
                    }
                }
            }
            hi = mid;
        }
    }
    proof {
        lemma_position(side, all, *price, lo as int);
    }
    lo
}

/// Puts an entry to rest at `price`: at the tail of the level for that
/// price, or alone in a new level at its place.
fn place_entry(levels: &mut Vec<PriceLevel>, side: Side, price: Decimal, entry: BookEntry)
    requires
        side_sorted(side, levels_view(old(levels)@)),
        queues_nonempty(levels_view(old(levels)@)),
    ensures
        levels_view(final(levels)@) == with_entry(side, levels_view(old(levels)@), price, entry),
        side_sorted(side, levels_view(final(levels)@)),
        queues_nonempty(levels_view(final(levels)@)),
{
    let ghost before = levels_view(levels@);
    let i = find_position(levels, side, &price);
    if i < levels.len() && levels[i].price.equals(&price) {
        let level = &mut levels[i];
        level.queue.push(entry);
        proof {
            let after = levels_view(levels@);
            assert(after =~= before.update(
                i as int,
                LevelView { price: before[i as int].price, queue: before[i as int].queue.push(entry) },
            ));
            assert forall|a: int, b: int| 0 <= a < b < after.len() implies better(
                side,
                #[trigger] after[a].price,
                #[trigger] after[b].price,
            ) by {
                assert(after[a].price == before[a].price);
                assert(after[b].price == before[b].price);
            }
            assert forall|a: int| 0 <= a < after.len() implies (#[trigger] after[a]).queue.len() > 0 by {
                if a != i {
                    assert(after[a] == before[a]);
                }
            }
        }
    } else {
        let mut queue: Vec<BookEntry> = Vec::new();
        queue.push(entry);
        levels.insert(i, PriceLevel { price, queue });
        proof {
            let after = levels_view(levels@);
            lemma_position_splits(side, before, price);
            assert(after =~= before.insert(i as int, LevelView { price, queue: seq![entry] }));
            assert forall|a: int, b: int| 0 <= a < b < after.len() implies better(
                side,
                #[trigger] after[a].price,
                #[trigger] after[b].price,
            ) by {
                if a < i {
                    assert(after[a] == before[a]);
                } else if a > i {
                    assert(after[a] == before[a - 1]);
                }
                if b < i {
                    assert(after[b] == before[b]);
                } else if b > i {
                    assert(after[b] == before[b - 1]);
                }
            }
            assert forall|a: int| 0 <= a < after.len() implies (#[trigger] after[a]).queue.len() > 0 by {
                if a < i {
                    assert(after[a] == before[a]);
                } else if a > i {
                    assert(after[a] == before[a - 1]);
                }
            }
        }
    }
}

/// The entries of a queue but those of order `id`, in their order.
fn other_entries(queue: &Vec<BookEntry>, id: OrderId) -> (kept: Vec<BookEntry>)
    ensures
        kept@ == queue@.filter(is_other_order(id)),
{
    let mut kept: Vec<BookEntry> = Vec::new();
    let mut i: usize = 0;
    proof {
        reveal(Seq::filter);
        assert(queue@.take(0) =~= Seq::<BookEntry>::empty());
    }
    while i < queue.len()
        invariant
            i <= queue.len(),
            kept@ == queue@.take(i as int).filter(is_other_order(id)),
        decreases queue.len() - i,
    {
        let e = queue[i];
        proof {
            queue@.lemma_take_succ_push(i as int);
            queue@.take(i as int).lemma_filter_push(e, is_other_order(id));
        }
        if e.order_id != id {
            kept.push(e);
        }
        i += 1;
    }
    proof {
        assert(queue@.take(queue.len() as int) =~= queue@);
    }
    kept
}

/// Takes the entries of order `id` out of the level for `price`, and the
/// level with its last entry.
fn remove_entries(levels: &mut Vec<PriceLevel>, side: Side, price: Decimal, id: OrderId)
    requires
        side_sorted(side, levels_view(old(levels)@)),
        queues_nonempty(levels_view(old(levels)@)),
    ensures
        levels_view(final(levels)@) == without_order(side, levels_view(old(levels)@), price, id),
        side_sorted(side, levels_view(final(levels)@)),
        queues_nonempty(levels_view(final(levels)@)),
{
    let ghost before = levels_view(levels@);
    let i = find_position(levels, side, &price);
    if i < levels.len() && levels[i].price.equals(&price) {
        let kept = other_entries(&levels[i].queue, id);
        if kept.len() == 0 {
            let _ = levels.remove(i);
            proof {
                let after = levels_view(levels@);
                assert(after =~= before.remove(i as int));
                assert forall|a: int, b: int| 0 <= a < b < after.len() implies better(
                    side,
                    #[trigger] after[a].price,
                    #[trigger] after[b].price,
                ) by {
                    assert(after[a] == if a < i { before[a] } else { before[a + 1] });
                    assert(after[b] == if b < i { before[b] } else { before[b + 1] });
                }
                assert forall|a: int| 0 <= a < after.len() implies (#[trigger] after[a]).queue.len() > 0 by {
                    assert(after[a] == if a < i { before[a] } else { before[a + 1] });
                }
            }
        } else {
            let level = &mut levels[i];
            level.queue = kept;
            proof {
                let after = levels_view(levels@);
                assert(after =~= before.update(
                    i as int,
                    LevelView { price: before[i as int].price, queue: kept@ },
                ));
                assert forall|a: int, b: int| 0 <= a < b < after.len() implies better(
                    side,
                    #[trigger] after[a].price,
                    #[trigger] after[b].price,
                ) by {
                    assert(after[a].price == before[a].price);
                    assert(after[b].price == before[b].price);
                }
                assert forall|a: int| 0 <= a < after.len() implies (#[trigger] after[a]).queue.len() > 0 by {
                    if a != i {
                        assert(after[a] == before[a]);
                    }
                }
            }
        }
    }
}

} // verus!
