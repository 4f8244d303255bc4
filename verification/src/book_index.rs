//! What the index of a book knows of the orders that rest in it.
//!
//! A book's index covers the book when every resting entry is indexed with
//! its side and the price of its level, and no queue holds an order twice.
//! The laws of this module say that letting an order with a fresh id rest,
//! canceling and taking keep it so, and that a canceled order rests no
//! more.

use crate::decimal::Decimal;
use crate::matching::{matched, price_limit, remainder_entry, resting_side, rests, killed};
use crate::types::{Order, RestingOrder};
use crate::order_book::{
    better, fill_of, filled_ids, is_other_order, lemma_filter_member, lemma_position_splits, position,
    queues_nonempty, reduced_entry, side_sorted, take_levels, take_queue, with_entry, with_reduced,
    within, without_order, BookEntry, BookView, Fill, IndexEntry, LevelView,
};
use crate::types::{OrderId, Side, TraderId};
use vstd::prelude::*;

verus! {

/// The queue holds an entry of the order `id`.
pub open spec fn queue_holds(queue: Seq<BookEntry>, id: u64) -> bool {
    exists|j: int| 0 <= j < queue.len() && (#[trigger] queue[j]).order_id.0 == id
}

/// One of the levels holds an entry of the order `id`.
pub open spec fn levels_hold(levels: Seq<LevelView>, id: u64) -> bool {
    exists|i: int| 0 <= i < levels.len() && queue_holds((#[trigger] levels[i]).queue, id)
}

/// The order `id` rests in the book.
pub open spec fn holds(book: BookView, id: u64) -> bool {
    levels_hold(book.bids, id) || levels_hold(book.asks, id)
}

/// No order has two entries in the queue.
pub open spec fn queue_distinct(queue: Seq<BookEntry>) -> bool {
    forall|a: int, b: int|
        0 <= a < b < queue.len() ==> (#[trigger] queue[a]).order_id != (#[trigger] queue[b]).order_id
}

/// No order has two entries in the queue of a level.
pub open spec fn queues_distinct(levels: Seq<LevelView>) -> bool {
    forall|i: int| 0 <= i < levels.len() ==> queue_distinct((#[trigger] levels[i]).queue)
}

/// The index knows the order `id` to rest on the side `side` at `price`.
pub open spec fn indexed_at(orders: Map<u64, IndexEntry>, id: u64, side: Side, price: Decimal) -> bool {
    orders.contains_key(id) && orders[id].side == side && orders[id].price.same_number(price)
}

/// The index knows every entry of the queue to rest on the side `side` at
/// `price`.
pub open spec fn queue_indexed(orders: Map<u64, IndexEntry>, side: Side, price: Decimal, queue: Seq<BookEntry>) -> bool {
    forall|j: int| 0 <= j < queue.len() ==> indexed_at(orders, (#[trigger] queue[j]).order_id.0, side, price)
}

/// The index knows every entry of the levels of the side `side` with its
/// side and the price of its level.
pub open spec fn side_indexed(orders: Map<u64, IndexEntry>, side: Side, levels: Seq<LevelView>) -> bool {
    forall|i: int|
        0 <= i < levels.len() ==> queue_indexed(orders, side, (#[trigger] levels[i]).price, levels[i].queue)
}

/// The index covers the book: it knows every resting entry with its side
/// and the price of its level, and no queue holds an order twice.
pub open spec fn index_covers(book: BookView) -> bool {
    &&& side_indexed(book.orders, Side::Buy, book.bids)
    &&& side_indexed(book.orders, Side::Sell, book.asks)
    &&& queues_distinct(book.bids)
    &&& queues_distinct(book.asks)
}

/// The index is exact: it covers the book, and every order that it knows
/// rests in the book.
pub open spec fn index_exact(book: BookView) -> bool {
    &&& index_covers(book)
    &&& forall|id: u64| #[trigger] book.orders.contains_key(id) ==> holds(book, id)
}

/// One of the resting orders has the id `x`.
pub open spec fn ids_listed(orders: Seq<RestingOrder>, x: u64) -> bool {
    exists|j: int| 0 <= j < orders.len() && (#[trigger] orders[j]).order_id.0 == x
}

/// No two of the resting orders have the same id.
pub open spec fn ids_distinct(orders: Seq<RestingOrder>) -> bool {
    forall|a: int, b: int|
        0 <= a < b < orders.len() ==> (#[trigger] orders[a]).order_id != (#[trigger] orders[b]).order_id
}

/// The index is kept: where it covered the book before it covers the book
/// afterwards, where it was exact it is exact, and where it recorded the
/// quantities of the entries it records them.
pub open spec fn index_kept(before: BookView, after: BookView) -> bool {
    &&& index_covers(before) ==> index_covers(after)
    &&& index_exact(before) ==> index_exact(after)
    &&& crate::index_quantities::quantities_kept(before, after)
}

/// Where the index covers a side, an order that it knows to rest elsewhere
/// is not among the entries of the level.
pub proof fn lemma_not_at_level(
    orders: Map<u64, IndexEntry>,
    side: Side,
    levels: Seq<LevelView>,
    i: int,
    id: u64,
    other_side: Side,
    price: Decimal,
)
    requires
        side_indexed(orders, side, levels),
        0 <= i < levels.len(),
        indexed_at(orders, id, other_side, price),
        other_side != side || !levels[i].price.same_number(price),
    ensures
        !queue_holds(levels[i].queue, id),
{
    if queue_holds(levels[i].queue, id) {
        let j = choose|j: int| 0 <= j < levels[i].queue.len() && (#[trigger] levels[i].queue[j]).order_id.0 == id;
        assert(queue_indexed(orders, side, levels[i].price, levels[i].queue));
        assert(indexed_at(orders, levels[i].queue[j].order_id.0, side, levels[i].price));
    }
}

/// Where the index covers the book, an order that it does not know rests
/// nowhere in the book.
pub proof fn lemma_unknown_rests_not(book: BookView, id: u64)
    requires
        index_covers(book),
        !book.orders.contains_key(id),
    ensures
        !holds(book, id),
{
    if levels_hold(book.bids, id) {
        let i = choose|i: int| 0 <= i < book.bids.len() && queue_holds((#[trigger] book.bids[i]).queue, id);
        let j = choose|j: int| 0 <= j < book.bids[i].queue.len() && (#[trigger] book.bids[i].queue[j]).order_id.0 == id;
        assert(queue_indexed(book.orders, Side::Buy, book.bids[i].price, book.bids[i].queue));
        assert(indexed_at(book.orders, book.bids[i].queue[j].order_id.0, Side::Buy, book.bids[i].price));
    }
    if levels_hold(book.asks, id) {
        let i = choose|i: int| 0 <= i < book.asks.len() && queue_holds((#[trigger] book.asks[i]).queue, id);
        let j = choose|j: int| 0 <= j < book.asks[i].queue.len() && (#[trigger] book.asks[i].queue[j]).order_id.0 == id;
        assert(queue_indexed(book.orders, Side::Sell, book.asks[i].price, book.asks[i].queue));
        assert(indexed_at(book.orders, book.asks[i].queue[j].order_id.0, Side::Sell, book.asks[i].price));
    }
}

/// Letting an entry with a fresh id rest keeps the index covering the book.
pub proof fn lemma_rested_covers(book: BookView, side: Side, price: Decimal, entry: BookEntry)
    requires
        book.wf(),
        index_covers(book),
        !holds(book, entry.order_id.0),
    ensures
        index_covers(book.rested(side, price, entry)),
        forall|id: u64|
            holds(book.rested(side, price, entry), id) <==> (holds(book, id) || id == entry.order_id.0),
        index_exact(book) ==> index_exact(book.rested(side, price, entry)),
{
    let after = book.rested(side, price, entry);
    let levels = book.side(side);
    let new_levels = with_entry(side, levels, price, entry);
    lemma_position_splits(side, levels, price);
    let p = position(side, levels, price);
    let joins = p < levels.len() && levels[p].price.same_number(price);
    // the side that takes the entry
    assert forall|i: int| 0 <= i < new_levels.len() implies queue_indexed(
        after.orders,
        side,
        (#[trigger] new_levels[i]).price,
        new_levels[i].queue,
    ) && queue_distinct(new_levels[i].queue) by {
        let old_i = if joins || i < p {
            i
        } else {
            i - 1
        };
        if !joins && i == p {
            assert(new_levels[i].queue =~= seq![entry]);
        } else {
            assert(queue_indexed(book.orders, side, levels[old_i].price, levels[old_i].queue));
            assert(queue_distinct(levels[old_i].queue));
            assert(new_levels[i].price == levels[old_i].price);
            assert forall|j: int| 0 <= j < new_levels[i].queue.len() implies indexed_at(
                after.orders,
                (#[trigger] new_levels[i].queue[j]).order_id.0,
                side,
                new_levels[i].price,
            ) by {
                if j < levels[old_i].queue.len() {
                    assert(new_levels[i].queue[j] == levels[old_i].queue[j]);
                    assert(queue_holds(levels[old_i].queue, levels[old_i].queue[j].order_id.0));
                    assert(levels_hold(levels, levels[old_i].queue[j].order_id.0));
                }
            }
            assert forall|a: int, b: int| 0 <= a < b < new_levels[i].queue.len() implies (
            #[trigger] new_levels[i].queue[a]).order_id != (#[trigger] new_levels[i].queue[b]).order_id by {
                if b < levels[old_i].queue.len() {
                    assert(new_levels[i].queue[a] == levels[old_i].queue[a]);
                    assert(new_levels[i].queue[b] == levels[old_i].queue[b]);
                } else {
                    assert(new_levels[i].queue[a] == levels[old_i].queue[a]);
                    assert(queue_holds(levels[old_i].queue, levels[old_i].queue[a].order_id.0));
                    assert(levels_hold(levels, levels[old_i].queue[a].order_id.0));
                }
            }
        }
    }
    // the other side
    let other = match side {
        Side::Buy => Side::Sell,
        Side::Sell => Side::Buy,
    };
    let others = book.side(other);
    assert forall|i: int| 0 <= i < others.len() implies queue_indexed(
        after.orders,
        other,
        (#[trigger] others[i]).price,
        others[i].queue,
    ) by {
        assert(queue_indexed(book.orders, other, others[i].price, others[i].queue));
        assert forall|j: int| 0 <= j < others[i].queue.len() implies indexed_at(
            after.orders,
            (#[trigger] others[i].queue[j]).order_id.0,
            other,
            others[i].price,
        ) by {
            assert(queue_holds(others[i].queue, others[i].queue[j].order_id.0));
            assert(levels_hold(others, others[i].queue[j].order_id.0));
        }
    }
    // what rests afterwards
    assert forall|id: u64| holds(after, id) <==> (holds(book, id) || id == entry.order_id.0) by {
        if levels_hold(levels, id) {
            let i = choose|i: int| 0 <= i < levels.len() && queue_holds((#[trigger] levels[i]).queue, id);
            let j = choose|j: int| 0 <= j < levels[i].queue.len() && (#[trigger] levels[i].queue[j]).order_id.0 == id;
            let new_i = if joins || i < p {
                i
            } else {
                i + 1
            };
            assert(new_levels[new_i].queue[j] == levels[i].queue[j]);
            assert(queue_holds(new_levels[new_i].queue, id));
        }
        if id == entry.order_id.0 {
            let j = if joins {
                levels[p].queue.len() as int
            } else {
                0
            };
            assert(new_levels[p].queue[j] == entry);
            assert(queue_holds(new_levels[p].queue, id));
        }
        if levels_hold(new_levels, id) && id != entry.order_id.0 {
            let i = choose|i: int| 0 <= i < new_levels.len() && queue_holds((#[trigger] new_levels[i]).queue, id);
            let j = choose|j: int|
                0 <= j < new_levels[i].queue.len() && (#[trigger] new_levels[i].queue[j]).order_id.0 == id;
            let old_i = if joins || i < p {
                i
            } else {
                i - 1
            };
            if !joins && i == p {
                assert(new_levels[i].queue =~= seq![entry]);
            } else {
                assert(new_levels[i].queue[j] == levels[old_i].queue[j]);
                assert(queue_holds(levels[old_i].queue, id));
            }
        }
    }
}

/// What a filter keeps of a queue without an order twice holds no order
/// twice.
pub proof fn lemma_filter_distinct(queue: Seq<BookEntry>, keep: spec_fn(BookEntry) -> bool)
    requires
        queue_distinct(queue),
    ensures
        queue_distinct(queue.filter(keep)),
    decreases queue.len(),
{
    reveal(Seq::filter);
    if queue.len() > 0 {
        let front = queue.drop_last();
        assert forall|a: int, b: int| 0 <= a < b < front.len() implies (#[trigger] front[a]).order_id != (
        #[trigger] front[b]).order_id by {
            assert(front[a] == queue[a]);
            assert(front[b] == queue[b]);
        }
        lemma_filter_distinct(front, keep);
        let kept = queue.filter(keep);
        if keep(queue.last()) {
            assert forall|a: int, b: int| 0 <= a < b < kept.len() implies (#[trigger] kept[a]).order_id != (
            #[trigger] kept[b]).order_id by {
                if b == kept.len() - 1 {
                    assert(front.filter(keep)[a] == kept[a]);
                    assert(front.filter(keep).contains(kept[a]));
                    lemma_filter_member(front, keep, kept[a]);
                    let m = choose|m: int| 0 <= m < front.len() && front[m] == kept[a];
                    assert(queue[m] == kept[a]);
                    assert(queue[queue.len() - 1] == kept[b]);
                } else {
                    assert(front.filter(keep)[a] == kept[a]);
                    assert(front.filter(keep)[b] == kept[b]);
                }
            }
        }
    }
}

/// Canceling an indexed order keeps the index covering the book, and the
/// order rests no more; no other order comes or goes.
pub proof fn lemma_canceled_covers(book: BookView, id: OrderId)
    requires
        book.wf(),
        index_covers(book),
        book.orders.contains_key(id.0),
    ensures
        index_covers(book.canceled(id)),
        !holds(book.canceled(id), id.0),
        forall|x: u64| holds(book.canceled(id), x) <==> (holds(book, x) && x != id.0),
        index_exact(book) ==> index_exact(book.canceled(id)),
{
    let after = book.canceled(id);
    let at = book.orders[id.0];
    let side = at.side;
    let levels = book.side(side);
    let new_levels = without_order(side, levels, at.price, id);
    lemma_position_splits(side, levels, at.price);
    let p = position(side, levels, at.price);
    let found = p < levels.len() && levels[p].price.same_number(at.price);
    let other = match side {
        Side::Buy => Side::Sell,
        Side::Sell => Side::Buy,
    };
    let others = book.side(other);
    // where the order does not rest before
    assert forall|i: int| 0 <= i < others.len() implies !queue_holds((#[trigger] others[i]).queue, id.0) by {
        lemma_not_at_level(book.orders, other, others, i, id.0, side, at.price);
    }
    assert forall|i: int| 0 <= i < levels.len() && !(found && i == p) implies !queue_holds(
        (#[trigger] levels[i]).queue,
        id.0,
    ) by {
        if levels[i].price.same_number(at.price) {
            if i < p {
                assert(better(side, levels[i].price, at.price));
            } else {
                assert(!better(side, levels[p].price, at.price));
                assert(better(side, levels[p].price, levels[i].price));
            }
        }
        lemma_not_at_level(book.orders, side, levels, i, id.0, side, at.price);
    }
    let kept = if found {
        levels[p].queue.filter(is_other_order(id))
    } else {
        Seq::<BookEntry>::empty()
    };
    if found {
        levels[p].queue.filter_lemma(is_other_order(id));
        assert(queue_distinct(levels[p].queue));
        lemma_filter_distinct(levels[p].queue, is_other_order(id));
        assert forall|j: int| 0 <= j < kept.len() implies indexed_at(
            book.orders,
            (#[trigger] kept[j]).order_id.0,
            side,
            levels[p].price,
        ) && kept[j].order_id != id && queue_holds(levels[p].queue, kept[j].order_id.0) by {
            assert(is_other_order(id)(kept[j]));
            assert(levels[p].queue.filter(is_other_order(id)).contains(kept[j]));
            lemma_filter_member(levels[p].queue, is_other_order(id), kept[j]);
            let m = choose|m: int| 0 <= m < levels[p].queue.len() && levels[p].queue[m] == kept[j];
            assert(queue_indexed(book.orders, side, levels[p].price, levels[p].queue));
            assert(indexed_at(book.orders, levels[p].queue[m].order_id.0, side, levels[p].price));
        }
    }
    // the side that the order leaves
    assert forall|i: int| 0 <= i < new_levels.len() implies queue_indexed(
        after.orders,
        side,
        (#[trigger] new_levels[i]).price,
        new_levels[i].queue,
    ) && queue_distinct(new_levels[i].queue) && !queue_holds(new_levels[i].queue, id.0) by {
        let old_i = if found && kept.len() == 0 && i >= p {
            i + 1
        } else {
            i
        };
        if found && kept.len() > 0 && i == p {
            assert(new_levels[i].queue == kept);
            assert forall|j: int| 0 <= j < kept.len() implies indexed_at(
                after.orders,
                (#[trigger] kept[j]).order_id.0,
                side,
                new_levels[i].price,
            ) by {
            }
            if queue_holds(kept, id.0) {
                let j = choose|j: int| 0 <= j < kept.len() && (#[trigger] kept[j]).order_id.0 == id.0;
                assert(kept[j].order_id != id);
            }
        } else {
            assert(new_levels[i] == levels[old_i]);
            assert(queue_indexed(book.orders, side, levels[old_i].price, levels[old_i].queue));
            assert(queue_distinct(levels[old_i].queue));
            assert(!queue_holds(levels[old_i].queue, id.0));
            assert forall|j: int| 0 <= j < levels[old_i].queue.len() implies indexed_at(
                after.orders,
                (#[trigger] levels[old_i].queue[j]).order_id.0,
                side,
                levels[old_i].price,
            ) by {
                assert(queue_holds(levels[old_i].queue, levels[old_i].queue[j].order_id.0));
            }
        }
    }
    assert forall|i: int| 0 <= i < others.len() implies queue_indexed(
        after.orders,
        other,
        (#[trigger] others[i]).price,
        others[i].queue,
    ) by {
        assert(queue_indexed(book.orders, other, others[i].price, others[i].queue));
        assert forall|j: int| 0 <= j < others[i].queue.len() implies indexed_at(
            after.orders,
            (#[trigger] others[i].queue[j]).order_id.0,
            other,
            others[i].price,
        ) by {
            assert(queue_holds(others[i].queue, others[i].queue[j].order_id.0));
        }
    }
    assert(!levels_hold(new_levels, id.0));
    assert(!levels_hold(others, id.0));
    // what rests afterwards
    assert forall|x: u64| holds(after, x) <==> (holds(book, x) && x != id.0) by {
        if levels_hold(new_levels, x) {
            let i = choose|i: int| 0 <= i < new_levels.len() && queue_holds((#[trigger] new_levels[i]).queue, x);
            let old_i = if found && kept.len() == 0 && i >= p {
                i + 1
            } else {
                i
            };
            if found && kept.len() > 0 && i == p {
                let j = choose|j: int| 0 <= j < kept.len() && (#[trigger] kept[j]).order_id.0 == x;
                assert(queue_holds(levels[p].queue, kept[j].order_id.0));
            } else {
                assert(new_levels[i] == levels[old_i]);
            }
            assert(levels_hold(levels, x));
        }
        if levels_hold(levels, x) && x != id.0 {
            let i = choose|i: int| 0 <= i < levels.len() && queue_holds((#[trigger] levels[i]).queue, x);
            let j = choose|j: int| 0 <= j < levels[i].queue.len() && (#[trigger] levels[i].queue[j]).order_id.0 == x;
            if found && i == p {
                assert(is_other_order(id)(levels[i].queue[j]));
                assert(kept.contains(levels[i].queue[j]));
                let n = choose|n: int| 0 <= n < kept.len() && kept[n] == levels[i].queue[j];
                assert(kept.len() > 0);
                assert(new_levels[p].queue[n].order_id.0 == x);
                assert(queue_holds(new_levels[p].queue, x));
            } else {
                let new_i = if found && kept.len() == 0 && i > p {
                    i - 1
                } else {
                    i
                };
                assert(new_levels[new_i] == levels[i]);
                assert(queue_holds(new_levels[new_i].queue, x));
            }
        }
    }
}

/// Every entry of `kept` is of an order that `queue` holds.
pub open spec fn ids_from(kept: Seq<BookEntry>, queue: Seq<BookEntry>) -> bool {
    forall|a: int| 0 <= a < kept.len() ==> queue_holds(queue, (#[trigger] kept[a]).order_id.0)
}

/// Every fill is of an order that `queue` holds, at the price `price`.
pub open spec fn fills_from(fills: Seq<Fill>, queue: Seq<BookEntry>, price: Decimal) -> bool {
    forall|b: int|
        0 <= b < fills.len() ==> queue_holds(queue, (#[trigger] fills[b]).resting_order_id.0) && fills[b].price
            == price
}

/// No entry of `kept` is of an order that one of the fills used up.
pub open spec fn kept_apart(kept: Seq<BookEntry>, fills: Seq<Fill>) -> bool {
    forall|a: int, b: int|
        0 <= a < kept.len() && 0 <= b < fills.len() && (#[trigger] fills[b]).resting_fully_filled ==> (
        #[trigger] kept[a]).order_id != fills[b].resting_order_id
}

/// What taking from a queue keeps and fills is of orders that the queue
/// holds; where the queue holds no order twice, neither does what is
/// kept, and no order that was used up is kept.
pub proof fn lemma_take_queue_ids(queue: Seq<BookEntry>, price: Decimal, quantity: Decimal, exclude: TraderId)
    ensures
        ids_from(take_queue(queue, price, quantity, exclude).kept, queue),
        fills_from(take_queue(queue, price, quantity, exclude).fills, queue, price),
        queue_distinct(queue) ==> queue_distinct(take_queue(queue, price, quantity, exclude).kept)
            && kept_apart(
            take_queue(queue, price, quantity, exclude).kept,
            take_queue(queue, price, quantity, exclude).fills,
        ),
    decreases queue.len(),
{
    let t = take_queue(queue, price, quantity, exclude);
    if queue.len() == 0 || !quantity.is_positive() {
        assert forall|a: int| 0 <= a < t.kept.len() implies queue_holds(
            queue,
            (#[trigger] t.kept[a]).order_id.0,
        ) by {
            assert(queue[a].order_id.0 == t.kept[a].order_id.0);
        }
    } else {
        let e = queue[0];
        let rest = queue.drop_first();
        let skipped = e.trader_id == exclude;
        let fill = fill_of(e, price, quantity);
        let left = if skipped {
            quantity
        } else {
            quantity.difference(fill.quantity)
        };
        let r = take_queue(rest, price, left, exclude);
        lemma_take_queue_ids(rest, price, left, exclude);
        let head_kept = skipped || !fill.resting_fully_filled;
        let head = if skipped {
            e
        } else {
            reduced_entry(e, quantity)
        };
        assert(t.kept =~= if head_kept {
            seq![head] + r.kept
        } else {
            r.kept
        });
        assert(t.fills =~= if skipped {
            r.fills
        } else {
            seq![fill] + r.fills
        });
        assert forall|x: u64| queue_holds(rest, x) implies queue_holds(queue, x) by {
            let j = choose|j: int| 0 <= j < rest.len() && (#[trigger] rest[j]).order_id.0 == x;
            assert(queue[j + 1].order_id.0 == x);
        }
        assert(queue_holds(queue, e.order_id.0));
        assert forall|a: int| 0 <= a < t.kept.len() implies queue_holds(
            queue,
            (#[trigger] t.kept[a]).order_id.0,
        ) by {
            if head_kept {
                if a > 0 {
                    assert(t.kept[a] == r.kept[a - 1]);
                    assert(queue_holds(rest, r.kept[a - 1].order_id.0));
                }
            } else {
                assert(t.kept[a] == r.kept[a]);
                assert(queue_holds(rest, r.kept[a].order_id.0));
            }
        }
        assert forall|b: int| 0 <= b < t.fills.len() implies queue_holds(
            queue,
            (#[trigger] t.fills[b]).resting_order_id.0,
        ) && t.fills[b].price == price by {
            if skipped {
                assert(t.fills[b] == r.fills[b]);
                assert(queue_holds(rest, r.fills[b].resting_order_id.0));
            } else if b > 0 {
                assert(t.fills[b] == r.fills[b - 1]);
                assert(queue_holds(rest, r.fills[b - 1].resting_order_id.0));
            }
        }
        if queue_distinct(queue) {
            assert forall|a: int, b: int| 0 <= a < b < rest.len() implies (#[trigger] rest[a]).order_id != (
            #[trigger] rest[b]).order_id by {
                assert(rest[a] == queue[a + 1]);
                assert(rest[b] == queue[b + 1]);
            }
            assert forall|x: u64| queue_holds(rest, x) implies x != e.order_id.0 by {
                let j = choose|j: int| 0 <= j < rest.len() && (#[trigger] rest[j]).order_id.0 == x;
                assert(queue[j + 1] == rest[j]);
                assert(queue[0].order_id != queue[j + 1].order_id);
            }
            assert forall|a: int, b: int| 0 <= a < b < t.kept.len() implies (#[trigger] t.kept[a]).order_id != (
            #[trigger] t.kept[b]).order_id by {
                if head_kept {
                    assert(t.kept[b] == r.kept[b - 1]);
                    assert(queue_holds(rest, r.kept[b - 1].order_id.0));
                    if a > 0 {
                        assert(t.kept[a] == r.kept[a - 1]);
                    }
                } else {
                    assert(t.kept[a] == r.kept[a]);
                    assert(t.kept[b] == r.kept[b]);
                }
            }
            assert forall|a: int, b: int|
                0 <= a < t.kept.len() && 0 <= b < t.fills.len() && (
                #[trigger] t.fills[b]).resting_fully_filled implies (#[trigger] t.kept[a]).order_id
                != t.fills[b].resting_order_id by {
                let from_head_kept = head_kept && a == 0;
                let from_head_fill = !skipped && b == 0;
                let ra = if head_kept {
                    a - 1
                } else {
                    a
                };
                let rb = if skipped {
                    b
                } else {
                    b - 1
                };
                if !from_head_kept {
                    assert(t.kept[a] == r.kept[ra]);
                    assert(queue_holds(rest, r.kept[ra].order_id.0));
                }
                if !from_head_fill {
                    assert(t.fills[b] == r.fills[rb]);
                    assert(queue_holds(rest, r.fills[rb].resting_order_id.0));
                }
            }
        }
    }
}

/// The level has the price of one of the levels, and its entries are of
/// orders that the level with this price holds.
pub open spec fn level_ids_from(level: LevelView, levels: Seq<LevelView>) -> bool {
    exists|i: int|
        0 <= i < levels.len() && (#[trigger] levels[i]).price == level.price && ids_from(
            level.queue,
            levels[i].queue,
        )
}

/// Every level of `kept` has the price of one of the levels, and its
/// entries are of orders that the level with this price holds.
pub open spec fn levels_ids_from(kept: Seq<LevelView>, levels: Seq<LevelView>) -> bool {
    forall|a: int| 0 <= a < kept.len() ==> level_ids_from(#[trigger] kept[a], levels)
}

/// The fill is of an order that one of the levels holds, at its price.
pub open spec fn fill_from_levels(fill: Fill, levels: Seq<LevelView>) -> bool {
    exists|i: int|
        0 <= i < levels.len() && (#[trigger] levels[i]).price == fill.price && queue_holds(
            levels[i].queue,
            fill.resting_order_id.0,
        )
}

/// Every fill is of an order that one of the levels holds, at its price.
pub open spec fn fills_from_levels(fills: Seq<Fill>, levels: Seq<LevelView>) -> bool {
    forall|b: int| 0 <= b < fills.len() ==> fill_from_levels(#[trigger] fills[b], levels)
}

/// No level of `kept` holds an order that one of the fills used up at the
/// price of the level.
pub open spec fn levels_apart(kept: Seq<LevelView>, fills: Seq<Fill>) -> bool {
    forall|a: int, b: int|
        0 <= a < kept.len() && 0 <= b < fills.len() && (#[trigger] fills[b]).resting_fully_filled && (
        #[trigger] kept[a]).price == fills[b].price ==> !queue_holds(
            kept[a].queue,
            fills[b].resting_order_id.0,
        )
}

/// What taking from levels keeps and fills is of orders that the levels
/// hold, at their prices; where no queue holds an order twice, no queue
/// does afterwards, and no order that was used up is kept at its price.
pub proof fn lemma_take_levels_ids(
    side: Side,
    levels: Seq<LevelView>,
    limit: Decimal,
    quantity: Decimal,
    exclude: TraderId,
)
    requires
        side_sorted(side, levels),
    ensures
        side_sorted(side, take_levels(side, levels, limit, quantity, exclude).kept),
        queues_nonempty(levels) ==> queues_nonempty(take_levels(side, levels, limit, quantity, exclude).kept),
        levels_ids_from(take_levels(side, levels, limit, quantity, exclude).kept, levels),
        fills_from_levels(take_levels(side, levels, limit, quantity, exclude).fills, levels),
        queues_distinct(levels) ==> queues_distinct(take_levels(side, levels, limit, quantity, exclude).kept)
            && levels_apart(
            take_levels(side, levels, limit, quantity, exclude).kept,
            take_levels(side, levels, limit, quantity, exclude).fills,
        ),
    decreases levels.len(),
{
    let t = take_levels(side, levels, limit, quantity, exclude);
    assert forall|i: int| 0 <= i < levels.len() implies ids_from((#[trigger] levels[i]).queue, levels[i].queue) by {
        assert forall|a: int| 0 <= a < levels[i].queue.len() implies queue_holds(
            levels[i].queue,
            (#[trigger] levels[i].queue[a]).order_id.0,
        ) by {
        }
    }
    if levels.len() == 0 || !within(side, levels[0].price, limit) || !quantity.is_positive() {
        assert forall|a: int| 0 <= a < t.kept.len() implies level_ids_from(#[trigger] t.kept[a], levels) by {
            assert(levels[a].price == t.kept[a].price);
        }
    } else {
        let first = take_queue(levels[0].queue, levels[0].price, quantity, exclude);
        let others = levels.drop_first();
        let rest = take_levels(side, others, limit, first.left, exclude);
        lemma_take_queue_ids(levels[0].queue, levels[0].price, quantity, exclude);
        assert forall|i: int, j: int| 0 <= i < j < others.len() implies better(
            side,
            #[trigger] others[i].price,
            #[trigger] others[j].price,
        ) by {
            assert(others[i] == levels[i + 1]);
            assert(others[j] == levels[j + 1]);
        }
        lemma_take_levels_ids(side, others, limit, first.left, exclude);
        let head_kept = first.kept.len() > 0;
        let head = LevelView { price: levels[0].price, queue: first.kept };
        assert(t.kept =~= if head_kept {
            seq![head] + rest.kept
        } else {
            rest.kept
        });
        assert(t.fills =~= first.fills + rest.fills);
        // what comes from the other levels has another price than the first
        assert forall|l: LevelView| level_ids_from(l, others) implies level_ids_from(l, levels) && l.price
            != levels[0].price by {
            let i = choose|i: int|
                0 <= i < others.len() && (#[trigger] others[i]).price == l.price && ids_from(
                    l.queue,
                    others[i].queue,
                );
            assert(levels[i + 1] == others[i]);
            assert(better(side, levels[0].price, levels[i + 1].price));
        }
        assert forall|f: Fill| fill_from_levels(f, others) implies fill_from_levels(f, levels) && f.price
            != levels[0].price by {
            let i = choose|i: int|
                0 <= i < others.len() && (#[trigger] others[i]).price == f.price && queue_holds(
                    others[i].queue,
                    f.resting_order_id.0,
                );
            assert(levels[i + 1] == others[i]);
            assert(better(side, levels[0].price, levels[i + 1].price));
        }
        assert forall|a: int| 0 <= a < t.kept.len() implies level_ids_from(#[trigger] t.kept[a], levels) by {
            if head_kept && a == 0 {
                assert(levels[0].price == t.kept[a].price);
            } else {
                let ra = if head_kept {
                    a - 1
                } else {
                    a
                };
                assert(t.kept[a] == rest.kept[ra]);
                assert(level_ids_from(rest.kept[ra], others));
            }
        }
        assert forall|b: int| 0 <= b < t.fills.len() implies fill_from_levels(#[trigger] t.fills[b], levels) by {
            if b < first.fills.len() {
                assert(t.fills[b] == first.fills[b]);
                assert(levels[0].price == t.fills[b].price);
            } else {
                assert(t.fills[b] == rest.fills[b - first.fills.len()]);
                assert(fill_from_levels(rest.fills[b - first.fills.len()], others));
            }
        }
        assert forall|a: int, b: int| 0 <= a < b < t.kept.len() implies better(
            side,
            #[trigger] t.kept[a].price,
            #[trigger] t.kept[b].price,
        ) by {
            let rb = if head_kept {
                b - 1
            } else {
                b
            };
            assert(t.kept[b] == rest.kept[rb]);
            if head_kept && a == 0 {
                assert(level_ids_from(rest.kept[rb], others));
                let i = choose|i: int|
                    0 <= i < others.len() && (#[trigger] others[i]).price == rest.kept[rb].price && ids_from(
                        rest.kept[rb].queue,
                        others[i].queue,
                    );
                assert(levels[i + 1] == others[i]);
                assert(better(side, levels[0].price, levels[i + 1].price));
            } else {
                let ra = if head_kept {
                    a - 1
                } else {
                    a
                };
                assert(t.kept[a] == rest.kept[ra]);
            }
        }
        if queues_nonempty(levels) {
            assert forall|i: int| 0 <= i < others.len() implies (#[trigger] others[i]).queue.len() > 0 by {
                assert(others[i] == levels[i + 1]);
            }
            assert forall|a: int| 0 <= a < t.kept.len() implies (#[trigger] t.kept[a]).queue.len() > 0 by {
                if !(head_kept && a == 0) {
                    let ra = if head_kept {
                        a - 1
                    } else {
                        a
                    };
                    assert(t.kept[a] == rest.kept[ra]);
                }
            }
        }
        if queues_distinct(levels) {
            assert(queue_distinct(levels[0].queue));
            assert forall|i: int| 0 <= i < others.len() implies queue_distinct((#[trigger] others[i]).queue) by {
                assert(others[i] == levels[i + 1]);
            }
            assert forall|a: int| 0 <= a < t.kept.len() implies queue_distinct((#[trigger] t.kept[a]).queue) by {
                if !(head_kept && a == 0) {
                    let ra = if head_kept {
                        a - 1
                    } else {
                        a
                    };
                    assert(t.kept[a] == rest.kept[ra]);
                }
            }
            assert forall|a: int, b: int|
                0 <= a < t.kept.len() && 0 <= b < t.fills.len() && (
                #[trigger] t.fills[b]).resting_fully_filled && (#[trigger] t.kept[a]).price
                    == t.fills[b].price implies !queue_holds(t.kept[a].queue, t.fills[b].resting_order_id.0) by {
                let from_head_kept = head_kept && a == 0;
                let from_head_fill = b < first.fills.len();
                let ra = if head_kept {
                    a - 1
                } else {
                    a
                };
                let rb = b - first.fills.len();
                if !from_head_kept {
                    assert(t.kept[a] == rest.kept[ra]);
                    assert(level_ids_from(rest.kept[ra], others));
                }
                if !from_head_fill {
                    assert(t.fills[b] == rest.fills[rb]);
                    assert(fill_from_levels(rest.fills[rb], others));
                } else {
                    assert(t.fills[b] == first.fills[b]);
                }
                if from_head_kept && from_head_fill {
                    if queue_holds(first.kept, first.fills[b].resting_order_id.0) {
                        let c = choose|c: int|
                            0 <= c < first.kept.len() && (#[trigger] first.kept[c]).order_id.0
                                == first.fills[b].resting_order_id.0;
                        assert(first.kept[c].order_id != first.fills[b].resting_order_id);
                    }
                }
            }
        }
    }
}

/// One of the fills has used up the order `id`.
pub open spec fn used_up(fills: Seq<Fill>, id: u64) -> bool {
    exists|b: int|
        0 <= b < fills.len() && (#[trigger] fills[b]).resting_fully_filled && fills[b].resting_order_id.0
            == id
}

/// Every order that a queue holds is kept or used up when the queue is
/// taken from.
pub proof fn lemma_take_queue_complete(queue: Seq<BookEntry>, price: Decimal, quantity: Decimal, exclude: TraderId)
    ensures
        forall|id: u64|
            queue_holds(queue, id) ==> queue_holds(take_queue(queue, price, quantity, exclude).kept, id)
                || used_up(take_queue(queue, price, quantity, exclude).fills, id),
    decreases queue.len(),
{
    let t = take_queue(queue, price, quantity, exclude);
    if queue.len() == 0 || !quantity.is_positive() {
    } else {
        let e = queue[0];
        let rest = queue.drop_first();
        let skipped = e.trader_id == exclude;
        let fill = fill_of(e, price, quantity);
        let left = if skipped {
            quantity
        } else {
            quantity.difference(fill.quantity)
        };
        let r = take_queue(rest, price, left, exclude);
        lemma_take_queue_complete(rest, price, left, exclude);
        let head_kept = skipped || !fill.resting_fully_filled;
        let head = if skipped {
            e
        } else {
            reduced_entry(e, quantity)
        };
        assert(t.kept =~= if head_kept {
            seq![head] + r.kept
        } else {
            r.kept
        });
        assert(t.fills =~= if skipped {
            r.fills
        } else {
            seq![fill] + r.fills
        });
        assert forall|id: u64| queue_holds(queue, id) implies queue_holds(t.kept, id) || used_up(
            t.fills,
            id,
        ) by {
            let j = choose|j: int| 0 <= j < queue.len() && (#[trigger] queue[j]).order_id.0 == id;
            if j == 0 {
                if head_kept {
                    assert(t.kept[0].order_id.0 == id);
                } else {
                    assert(t.fills[0].resting_fully_filled && t.fills[0].resting_order_id.0 == id);
                }
            } else {
                assert(rest[j - 1] == queue[j]);
                assert(queue_holds(rest, id));
                if queue_holds(r.kept, id) {
                    let c = choose|c: int| 0 <= c < r.kept.len() && (#[trigger] r.kept[c]).order_id.0 == id;
                    let tc = if head_kept {
                        c + 1
                    } else {
                        c
                    };
                    assert(t.kept[tc] == r.kept[c]);
                } else {
                    let b = choose|b: int|
                        0 <= b < r.fills.len() && (#[trigger] r.fills[b]).resting_fully_filled
                            && r.fills[b].resting_order_id.0 == id;
                    let tb = if skipped {
                        b
                    } else {
                        b + 1
                    };
                    assert(t.fills[tb] == r.fills[b]);
                }
            }
        }
    }
}

/// Every order that the levels hold is kept or used up when the levels are
/// taken from.
pub proof fn lemma_take_levels_complete(
    side: Side,
    levels: Seq<LevelView>,
    limit: Decimal,
    quantity: Decimal,
    exclude: TraderId,
)
    ensures
        forall|id: u64|
            levels_hold(levels, id) ==> levels_hold(take_levels(side, levels, limit, quantity, exclude).kept, id)
                || used_up(take_levels(side, levels, limit, quantity, exclude).fills, id),
    decreases levels.len(),
{
    let t = take_levels(side, levels, limit, quantity, exclude);
    if levels.len() == 0 || !within(side, levels[0].price, limit) || !quantity.is_positive() {
    } else {
        let first = take_queue(levels[0].queue, levels[0].price, quantity, exclude);
        let others = levels.drop_first();
        let rest = take_levels(side, others, limit, first.left, exclude);
        lemma_take_queue_complete(levels[0].queue, levels[0].price, quantity, exclude);
        lemma_take_levels_complete(side, others, limit, first.left, exclude);
        let head_kept = first.kept.len() > 0;
        let head = LevelView { price: levels[0].price, queue: first.kept };
        assert(t.kept =~= if head_kept {
            seq![head] + rest.kept
        } else {
            rest.kept
        });
        assert(t.fills =~= first.fills + rest.fills);
        assert forall|id: u64| levels_hold(levels, id) implies levels_hold(t.kept, id) || used_up(
            t.fills,
            id,
        ) by {
            let i = choose|i: int| 0 <= i < levels.len() && queue_holds((#[trigger] levels[i]).queue, id);
            if i == 0 {
                if queue_holds(first.kept, id) {
                    assert(t.kept[0].queue == first.kept);
                } else {
                    let b = choose|b: int|
                        0 <= b < first.fills.len() && (#[trigger] first.fills[b]).resting_fully_filled
                            && first.fills[b].resting_order_id.0 == id;
                    assert(t.fills[b] == first.fills[b]);
                }
            } else {
                assert(others[i - 1] == levels[i]);
                assert(levels_hold(others, id));
                if levels_hold(rest.kept, id) {
                    let a = choose|a: int| 0 <= a < rest.kept.len() && queue_holds((#[trigger] rest.kept[a]).queue, id);
                    let ta = if head_kept {
                        a + 1
                    } else {
                        a
                    };
                    assert(t.kept[ta] == rest.kept[a]);
                } else {
                    let b = choose|b: int|
                        0 <= b < rest.fills.len() && (#[trigger] rest.fills[b]).resting_fully_filled
                            && rest.fills[b].resting_order_id.0 == id;
                    assert(t.fills[b + first.fills.len()] == rest.fills[b]);
                }
            }
        }
    }
}

/// Writing smaller quantities to the index changes neither which orders
/// it knows nor their sides and prices.
pub proof fn lemma_with_reduced(orders: Map<u64, IndexEntry>, reduced: Seq<BookEntry>)
    ensures
        forall|id: u64| #[trigger]
            with_reduced(orders, reduced).contains_key(id) <==> orders.contains_key(id),
        forall|id: u64| #[trigger]
            orders.contains_key(id) ==> with_reduced(orders, reduced).contains_key(id) && with_reduced(
                orders,
                reduced,
            )[id].side == orders[id].side && with_reduced(orders, reduced)[id].price == orders[id].price,
    decreases reduced.len(),
{
    if reduced.len() > 0 {
        let e = reduced[0];
        let next = if orders.contains_key(e.order_id.0) {
            orders.insert(
                e.order_id.0,
                IndexEntry {
                    side: orders[e.order_id.0].side,
                    price: orders[e.order_id.0].price,
                    quantity: e.quantity,
                },
            )
        } else {
            orders
        };
        lemma_with_reduced(next, reduced.drop_first());
        assert(with_reduced(orders, reduced) == with_reduced(next, reduced.drop_first()));
        assert forall|id: u64| #[trigger]
            with_reduced(orders, reduced).contains_key(id) <==> orders.contains_key(id) by {
            assert(with_reduced(next, reduced.drop_first()).contains_key(id) <==> next.contains_key(id));
            assert(next.contains_key(id) <==> orders.contains_key(id));
        }
        assert forall|id: u64| #[trigger] orders.contains_key(id) implies with_reduced(
            orders,
            reduced,
        ).contains_key(id) && with_reduced(orders, reduced)[id].side == orders[id].side && with_reduced(
            orders,
            reduced,
        )[id].price == orders[id].price by {
            assert(next.contains_key(id));
        }
    }
}

/// The orders that the fills used up are those of the fills that say so.
pub proof fn lemma_filled_ids(fills: Seq<Fill>, id: u64)
    ensures
        filled_ids(fills).contains(id) <==> exists|b: int|
            0 <= b < fills.len() && (#[trigger] fills[b]).resting_fully_filled && fills[b].resting_order_id.0
                == id,
    decreases fills.len(),
{
    if fills.len() > 0 {
        let front = fills.drop_last();
        lemma_filled_ids(front, id);
        if filled_ids(fills).contains(id) {
            if fills.last().resting_fully_filled && fills.last().resting_order_id.0 == id {
                assert(fills[fills.len() - 1].resting_fully_filled);
            } else {
                let b = choose|b: int|
                    0 <= b < front.len() && (#[trigger] front[b]).resting_fully_filled
                        && front[b].resting_order_id.0 == id;
                assert(fills[b] == front[b]);
            }
        }
        if exists|b: int|
            0 <= b < fills.len() && (#[trigger] fills[b]).resting_fully_filled && fills[b].resting_order_id.0
                == id {
            let b = choose|b: int|
                0 <= b < fills.len() && (#[trigger] fills[b]).resting_fully_filled && fills[b].resting_order_id.0
                    == id;
            if b < front.len() {
                assert(front[b] == fills[b]);
            }
        }
    }
}

/// Taking liquidity keeps the index covering the book, and lets no order
/// come to rest.
pub proof fn lemma_after_take_covers(book: BookView, side: Side, limit: Decimal, quantity: Decimal, exclude: TraderId)
    requires
        book.wf(),
        index_covers(book),
    ensures
        index_covers(book.after_take(side, limit, quantity, exclude)),
        forall|x: u64| holds(book.after_take(side, limit, quantity, exclude), x) ==> holds(book, x),
        index_exact(book) ==> index_exact(book.after_take(side, limit, quantity, exclude)),
{
    let after = book.after_take(side, limit, quantity, exclude);
    lemma_take_levels_complete(side, book.side(side), limit, quantity, exclude);
    let levels = book.side(side);
    let t = take_levels(side, levels, limit, quantity, exclude);
    let base = book.orders.remove_keys(filled_ids(t.fills));
    lemma_take_levels_ids(side, levels, limit, quantity, exclude);
    lemma_with_reduced(base, t.reduced);
    let other = match side {
        Side::Buy => Side::Sell,
        Side::Sell => Side::Buy,
    };
    let others = book.side(other);
    // an order that was used up was indexed on the side taken from, at
    // the price of its fill
    assert forall|b: int| 0 <= b < t.fills.len() implies indexed_at(
        book.orders,
        (#[trigger] t.fills[b]).resting_order_id.0,
        side,
        t.fills[b].price,
    ) by {
        assert(fill_from_levels(t.fills[b], levels));
        let i = choose|i: int|
            0 <= i < levels.len() && (#[trigger] levels[i]).price == t.fills[b].price && queue_holds(
                levels[i].queue,
                t.fills[b].resting_order_id.0,
            );
        let j = choose|j: int|
            0 <= j < levels[i].queue.len() && (#[trigger] levels[i].queue[j]).order_id.0
                == t.fills[b].resting_order_id.0;
        assert(queue_indexed(book.orders, side, levels[i].price, levels[i].queue));
    }
    assert forall|a: int| 0 <= a < t.kept.len() implies queue_indexed(
        after.orders,
        side,
        (#[trigger] t.kept[a]).price,
        t.kept[a].queue,
    ) by {
        assert(level_ids_from(t.kept[a], levels));
        let i = choose|i: int|
            0 <= i < levels.len() && (#[trigger] levels[i]).price == t.kept[a].price && ids_from(
                t.kept[a].queue,
                levels[i].queue,
            );
        assert(queue_indexed(book.orders, side, levels[i].price, levels[i].queue));
        assert forall|c: int| 0 <= c < t.kept[a].queue.len() implies indexed_at(
            after.orders,
            (#[trigger] t.kept[a].queue[c]).order_id.0,
            side,
            t.kept[a].price,
        ) by {
            let id = t.kept[a].queue[c].order_id.0;
            assert(queue_holds(levels[i].queue, id));
            let j = choose|j: int| 0 <= j < levels[i].queue.len() && (#[trigger] levels[i].queue[j]).order_id.0 == id;
            assert(indexed_at(book.orders, levels[i].queue[j].order_id.0, side, levels[i].price));
            lemma_filled_ids(t.fills, id);
            if filled_ids(t.fills).contains(id) {
                let b = choose|b: int|
                    0 <= b < t.fills.len() && (#[trigger] t.fills[b]).resting_fully_filled
                        && t.fills[b].resting_order_id.0 == id;
                assert(indexed_at(book.orders, t.fills[b].resting_order_id.0, side, t.fills[b].price));
                assert(fill_from_levels(t.fills[b], levels));
                let i2 = choose|i2: int|
                    0 <= i2 < levels.len() && (#[trigger] levels[i2]).price == t.fills[b].price && queue_holds(
                        levels[i2].queue,
                        t.fills[b].resting_order_id.0,
                    );
                if i2 < i {
                    assert(better(side, levels[i2].price, levels[i].price));
                }
                if i < i2 {
                    assert(better(side, levels[i].price, levels[i2].price));
                }
                assert(t.kept[a].price == t.fills[b].price);
                assert(queue_holds(t.kept[a].queue, t.fills[b].resting_order_id.0));
            }
            assert(base.contains_key(id));
        }
    }
    assert forall|i: int| 0 <= i < others.len() implies queue_indexed(
        after.orders,
        other,
        (#[trigger] others[i]).price,
        others[i].queue,
    ) by {
        assert(queue_indexed(book.orders, other, others[i].price, others[i].queue));
        assert forall|c: int| 0 <= c < others[i].queue.len() implies indexed_at(
            after.orders,
            (#[trigger] others[i].queue[c]).order_id.0,
            other,
            others[i].price,
        ) by {
            let id = others[i].queue[c].order_id.0;
            lemma_filled_ids(t.fills, id);
            if filled_ids(t.fills).contains(id) {
                let b = choose|b: int|
                    0 <= b < t.fills.len() && (#[trigger] t.fills[b]).resting_fully_filled
                        && t.fills[b].resting_order_id.0 == id;
                assert(indexed_at(book.orders, t.fills[b].resting_order_id.0, side, t.fills[b].price));
            }
            assert(base.contains_key(id));
        }
    }
    assert forall|x: u64| holds(after, x) implies holds(book, x) by {
        if levels_hold(t.kept, x) {
            let a = choose|a: int| 0 <= a < t.kept.len() && queue_holds((#[trigger] t.kept[a]).queue, x);
            let c = choose|c: int| 0 <= c < t.kept[a].queue.len() && (#[trigger] t.kept[a].queue[c]).order_id.0 == x;
            assert(level_ids_from(t.kept[a], levels));
            let i = choose|i: int|
                0 <= i < levels.len() && (#[trigger] levels[i]).price == t.kept[a].price && ids_from(
                    t.kept[a].queue,
                    levels[i].queue,
                );
            assert(queue_holds(levels[i].queue, t.kept[a].queue[c].order_id.0));
            assert(levels_hold(levels, x));
        }
    }
    if index_exact(book) {
        assert forall|id: u64| #[trigger] after.orders.contains_key(id) implies holds(after, id) by {
            assert(base.contains_key(id));
            assert(book.orders.contains_key(id));
            lemma_filled_ids(t.fills, id);
            assert(holds(book, id));
        }
    }
}

/// Taking liquidity lets no order come to rest.
pub proof fn lemma_take_holds(book: BookView, side: Side, limit: Decimal, quantity: Decimal, exclude: TraderId)
    requires
        book.wf(),
    ensures
        forall|x: u64| holds(book.after_take(side, limit, quantity, exclude), x) ==> holds(book, x),
{
    let after = book.after_take(side, limit, quantity, exclude);
    let levels = book.side(side);
    let t = take_levels(side, levels, limit, quantity, exclude);
    lemma_take_levels_ids(side, levels, limit, quantity, exclude);
    assert forall|x: u64| holds(after, x) implies holds(book, x) by {
        if levels_hold(t.kept, x) {
            let a = choose|a: int| 0 <= a < t.kept.len() && queue_holds((#[trigger] t.kept[a]).queue, x);
            let c = choose|c: int| 0 <= c < t.kept[a].queue.len() && (#[trigger] t.kept[a].queue[c]).order_id.0 == x;
            assert(level_ids_from(t.kept[a], levels));
            let i = choose|i: int|
                0 <= i < levels.len() && (#[trigger] levels[i]).price == t.kept[a].price && ids_from(
                    t.kept[a].queue,
                    levels[i].queue,
                );
            assert(queue_holds(levels[i].queue, t.kept[a].queue[c].order_id.0));
            assert(levels_hold(levels, x));
        }
    }
}

/// Matching an order whose id rests nowhere in the book keeps the index
/// covering the book. No order comes to rest but the order itself, and it
/// only where it is due to rest.
pub proof fn lemma_matched_covers(book: BookView, order: Order, next_trade_id: u64, next_exec_id: u64)
    requires
        book.wf(),
        index_covers(book),
        !holds(book, order.order_id.0),
    ensures
        matched(book, order, next_trade_id, next_exec_id).book.wf(),
        index_covers(matched(book, order, next_trade_id, next_exec_id).book),
        index_exact(book) ==> index_exact(matched(book, order, next_trade_id, next_exec_id).book),
        forall|x: u64|
            holds(matched(book, order, next_trade_id, next_exec_id).book, x) ==> holds(book, x) || (x
                == order.order_id.0 && !killed(book, order) && rests(
                book.after_take(resting_side(order), price_limit(order), order.quantity, order.trader_id),
                order,
                book.taken(resting_side(order), price_limit(order), order.quantity, order.trader_id).fills,
            )),
{
    if !killed(book, order) {
        let side = resting_side(order);
        let limit = price_limit(order);
        let t = book.taken(side, limit, order.quantity, order.trader_id);
        let after = book.after_take(side, limit, order.quantity, order.trader_id);
        lemma_take_levels_ids(side, book.side(side), limit, order.quantity, order.trader_id);
        lemma_after_take_covers(book, side, limit, order.quantity, order.trader_id);
        assert(after.wf());
        if rests(after, order, t.fills) {
            let entry = remainder_entry(order, t.fills);
            lemma_rested_covers(after, order.side, order.price->0, entry);
            crate::order_book::lemma_with_entry_wf(order.side, after.side(order.side), order.price->0, entry);
        }
    }
}

} // verus!
