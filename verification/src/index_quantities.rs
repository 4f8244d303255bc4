//! The quantities that the index of a book records.
//!
//! The index records for every order the quantity that still rests. The
//! laws of this module say that letting an order with a fresh id rest,
//! canceling and taking keep the recorded quantities those of the resting
//! entries.

use crate::book_index::{
    holds, index_covers, indexed_at, lemma_after_take_covers, lemma_take_holds,
    lemma_take_levels_ids, levels_hold, queue_distinct, queue_holds, queue_indexed,
};
use crate::matching::{killed, matched, price_limit, remainder_entry, resting_side, rests};
use crate::types::Order;
use crate::decimal::Decimal;
use crate::order_book::{
    better, fill_of, filled_ids, is_other_order, lemma_filter_member, lemma_position_splits, position,
    reduced_entry, take_levels, take_queue, with_entry, with_reduced, within, without_order,
    BookEntry, BookView, IndexEntry, LevelView,
};
use crate::types::{OrderId, Side, TraderId};
use vstd::prelude::*;

verus! {

/// One of the levels holds the entry `e`.
pub open spec fn levels_have(levels: Seq<LevelView>, e: BookEntry) -> bool {
    exists|i: int, j: int|
        0 <= i < levels.len() && 0 <= j < levels[i].queue.len() && #[trigger] levels[i].queue[j] == e
}

/// For every entry of the levels that the index knows, it records the
/// quantity of the entry.
pub open spec fn quantities_match(orders: Map<u64, IndexEntry>, levels: Seq<LevelView>) -> bool {
    forall|i: int, j: int|
        0 <= i < levels.len() && 0 <= j < levels[i].queue.len() && orders.contains_key(
            (#[trigger] levels[i].queue[j]).order_id.0,
        ) ==> orders[levels[i].queue[j].order_id.0].quantity == levels[i].queue[j].quantity
}

/// For every resting entry that the index knows, it records the quantity
/// of the entry.
pub open spec fn quantities_indexed(book: BookView) -> bool {
    quantities_match(book.orders, book.bids) && quantities_match(book.orders, book.asks)
}

/// The quantities are kept: where the index covered the book and recorded
/// the quantities of its entries before, it records them afterwards.
pub open spec fn quantities_kept(before: BookView, after: BookView) -> bool {
    index_covers(before) && quantities_indexed(before) ==> quantities_indexed(after)
}

/// Letting an entry with a fresh id rest keeps the recorded quantities
/// those of the entries.
pub proof fn lemma_rested_quantities(book: BookView, side: Side, price: Decimal, entry: BookEntry)
    requires
        book.wf(),
        quantities_indexed(book),
        !holds(book, entry.order_id.0),
    ensures
        quantities_indexed(book.rested(side, price, entry)),
{
    let after = book.rested(side, price, entry);
    let levels = book.side(side);
    let new_levels = with_entry(side, levels, price, entry);
    lemma_position_splits(side, levels, price);
    let p = position(side, levels, price);
    let joins = p < levels.len() && levels[p].price.same_number(price);
    assert forall|i: int, j: int|
        0 <= i < new_levels.len() && 0 <= j < new_levels[i].queue.len() && after.orders.contains_key(
            (#[trigger] new_levels[i].queue[j]).order_id.0,
        ) implies after.orders[new_levels[i].queue[j].order_id.0].quantity
        == new_levels[i].queue[j].quantity by {
        let old_i = if joins || i < p {
            i
        } else {
            i - 1
        };
        if !joins && i == p {
            assert(new_levels[i].queue =~= seq![entry]);
        } else if j < levels[old_i].queue.len() {
            assert(new_levels[i].queue[j] == levels[old_i].queue[j]);
            assert(queue_holds(levels[old_i].queue, levels[old_i].queue[j].order_id.0));
            assert(levels_hold(levels, levels[old_i].queue[j].order_id.0));
        }
    }
    let other = match side {
        Side::Buy => Side::Sell,
        Side::Sell => Side::Buy,
    };
    let others = book.side(other);
    assert forall|i: int, j: int|
        0 <= i < others.len() && 0 <= j < others[i].queue.len() && after.orders.contains_key(
            (#[trigger] others[i].queue[j]).order_id.0,
        ) implies after.orders[others[i].queue[j].order_id.0].quantity == others[i].queue[j].quantity by {
        assert(queue_holds(others[i].queue, others[i].queue[j].order_id.0));
        assert(levels_hold(others, others[i].queue[j].order_id.0));
    }
}

/// Canceling an order keeps the recorded quantities those of the entries.
pub proof fn lemma_canceled_quantities(book: BookView, id: OrderId)
    requires
        book.wf(),
        quantities_indexed(book),
        book.orders.contains_key(id.0),
    ensures
        quantities_indexed(book.canceled(id)),
{
    let after = book.canceled(id);
    let at = book.orders[id.0];
    let side = at.side;
    let levels = book.side(side);
    let new_levels = without_order(side, levels, at.price, id);
    lemma_position_splits(side, levels, at.price);
    let p = position(side, levels, at.price);
    let found = p < levels.len() && levels[p].price.same_number(at.price);
    assert forall|i: int, j: int|
        0 <= i < new_levels.len() && 0 <= j < new_levels[i].queue.len() && after.orders.contains_key(
            (#[trigger] new_levels[i].queue[j]).order_id.0,
        ) implies after.orders[new_levels[i].queue[j].order_id.0].quantity
        == new_levels[i].queue[j].quantity by {
        if found {
            let kept = levels[p].queue.filter(is_other_order(id));
            let old_i = if kept.len() == 0 && i >= p {
                i + 1
            } else {
                i
            };
            if kept.len() > 0 && i == p {
                assert(kept.contains(kept[j]));
                lemma_filter_member(levels[p].queue, is_other_order(id), kept[j]);
                let m = choose|m: int| 0 <= m < levels[p].queue.len() && levels[p].queue[m] == kept[j];
                assert(levels[p].queue[m].order_id.0 == kept[j].order_id.0);
            } else {
                assert(new_levels[i] == levels[old_i]);
                assert(levels[old_i].queue[j] == new_levels[i].queue[j]);
            }
        }
    }
}

/// What stays of a queue that is taken from is made of entries of the
/// queue and of the entries that stay with a smaller quantity, and all of
/// these stay.
pub proof fn lemma_take_queue_entries(queue: Seq<BookEntry>, price: Decimal, quantity: Decimal, exclude: TraderId)
    ensures
        forall|a: int|
            0 <= a < take_queue(queue, price, quantity, exclude).kept.len() ==> queue.contains(
                #[trigger] take_queue(queue, price, quantity, exclude).kept[a],
            ) || take_queue(queue, price, quantity, exclude).reduced.contains(
                take_queue(queue, price, quantity, exclude).kept[a],
            ),
        forall|c: int|
            0 <= c < take_queue(queue, price, quantity, exclude).reduced.len() ==> take_queue(
                queue,
                price,
                quantity,
                exclude,
            ).kept.contains(#[trigger] take_queue(queue, price, quantity, exclude).reduced[c]),
    decreases queue.len(),
{
    let t = take_queue(queue, price, quantity, exclude);
    if queue.len() == 0 || !quantity.is_positive() {
        assert forall|a: int| 0 <= a < t.kept.len() implies queue.contains(#[trigger] t.kept[a]) by {
            assert(queue[a] == t.kept[a]);
        }
    } else {
        let e = queue[0];
        let rest = queue.drop_first();
        let skipped = e.trader_id == exclude;
        let fill = fill_of(e, price, quantity);
        let left = if skipped {
            quantity
        } else {
            quantity.difference(fill.quantity)
        };
        let r = take_queue(rest, price, left, exclude);
        lemma_take_queue_entries(rest, price, left, exclude);
        let head_kept = skipped || !fill.resting_fully_filled;
        let head_reduced = !skipped && !fill.resting_fully_filled;
        let head = if skipped {
            e
        } else {
            reduced_entry(e, quantity)
        };
        assert(t.kept =~= if head_kept {
            seq![head] + r.kept
        } else {
            r.kept
        });
        assert(t.reduced =~= if head_reduced {
            seq![head] + r.reduced
        } else {
            r.reduced
        });
        assert forall|x: BookEntry| rest.contains(x) implies queue.contains(x) by {
            let m = choose|m: int| 0 <= m < rest.len() && rest[m] == x;
            assert(queue[m + 1] == x);
        }
        assert forall|x: BookEntry| r.reduced.contains(x) implies t.reduced.contains(x) by {
            let m = choose|m: int| 0 <= m < r.reduced.len() && r.reduced[m] == x;
            let tm = if head_reduced {
                m + 1
            } else {
                m
            };
            assert(t.reduced[tm] == x);
        }
        assert forall|x: BookEntry| r.kept.contains(x) implies t.kept.contains(x) by {
            let m = choose|m: int| 0 <= m < r.kept.len() && r.kept[m] == x;
            let tm = if head_kept {
                m + 1
            } else {
                m
            };
            assert(t.kept[tm] == x);
        }
        assert forall|a: int| 0 <= a < t.kept.len() implies queue.contains(#[trigger] t.kept[a])
            || t.reduced.contains(t.kept[a]) by {
            if head_kept && a == 0 {
                if skipped {
                    assert(queue[0] == t.kept[0]);
                } else {
                    assert(t.reduced[0] == t.kept[0]);
                }
            } else {
                let ra = if head_kept {
                    a - 1
                } else {
                    a
                };
                assert(t.kept[a] == r.kept[ra]);
            }
        }
        assert forall|c: int| 0 <= c < t.reduced.len() implies t.kept.contains(#[trigger] t.reduced[c]) by {
            if head_reduced && c == 0 {
                assert(t.kept[0] == t.reduced[0]);
            } else {
                let rc = if head_reduced {
                    c - 1
                } else {
                    c
                };
                assert(t.reduced[c] == r.reduced[rc]);
            }
        }
    }
}

/// What stays of levels that are taken from is made of entries of the
/// levels and of the entries that stay with a smaller quantity, and all of
/// these stay.
pub proof fn lemma_take_levels_entries(
    side: Side,
    levels: Seq<LevelView>,
    limit: Decimal,
    quantity: Decimal,
    exclude: TraderId,
)
    ensures
        forall|a: int, b: int|
            0 <= a < take_levels(side, levels, limit, quantity, exclude).kept.len() && 0 <= b < take_levels(
                side,
                levels,
                limit,
                quantity,
                exclude,
            ).kept[a].queue.len() ==> levels_have(
                levels,
                #[trigger] take_levels(side, levels, limit, quantity, exclude).kept[a].queue[b],
            ) || take_levels(side, levels, limit, quantity, exclude).reduced.contains(
                take_levels(side, levels, limit, quantity, exclude).kept[a].queue[b],
            ),
        forall|c: int|
            0 <= c < take_levels(side, levels, limit, quantity, exclude).reduced.len() ==> levels_have(
                take_levels(side, levels, limit, quantity, exclude).kept,
                #[trigger] take_levels(side, levels, limit, quantity, exclude).reduced[c],
            ),
    decreases levels.len(),
{
    let t = take_levels(side, levels, limit, quantity, exclude);
    if levels.len() == 0 || !within(side, levels[0].price, limit) || !quantity.is_positive() {
        assert forall|a: int, b: int| 0 <= a < t.kept.len() && 0 <= b < t.kept[a].queue.len() implies levels_have(
            levels,
            #[trigger] t.kept[a].queue[b],
        ) by {
            assert(levels[a].queue[b] == t.kept[a].queue[b]);
        }
    } else {
        let first = take_queue(levels[0].queue, levels[0].price, quantity, exclude);
        let others = levels.drop_first();
        let rest = take_levels(side, others, limit, first.left, exclude);
        lemma_take_queue_entries(levels[0].queue, levels[0].price, quantity, exclude);
        lemma_take_levels_entries(side, others, limit, first.left, exclude);
        let head_kept = first.kept.len() > 0;
        let head = LevelView { price: levels[0].price, queue: first.kept };
        assert(t.kept =~= if head_kept {
            seq![head] + rest.kept
        } else {
            rest.kept
        });
        assert(t.reduced =~= first.reduced + rest.reduced);
        assert forall|x: BookEntry| levels_have(others, x) implies levels_have(levels, x) by {
            let (i, j) = choose|i: int, j: int|
                0 <= i < others.len() && 0 <= j < others[i].queue.len() && #[trigger] others[i].queue[j] == x;
            assert(levels[i + 1].queue[j] == x);
        }
        assert forall|x: BookEntry| levels_have(rest.kept, x) implies levels_have(t.kept, x) by {
            let (i, j) = choose|i: int, j: int|
                0 <= i < rest.kept.len() && 0 <= j < rest.kept[i].queue.len() && #[trigger] rest.kept[i].queue[j]
                    == x;
            let ti = if head_kept {
                i + 1
            } else {
                i
            };
            assert(t.kept[ti].queue[j] == x);
        }
        assert forall|a: int, b: int| 0 <= a < t.kept.len() && 0 <= b < t.kept[a].queue.len() implies levels_have(
            levels,
            #[trigger] t.kept[a].queue[b],
        ) || t.reduced.contains(t.kept[a].queue[b]) by {
            let e = t.kept[a].queue[b];
            if head_kept && a == 0 {
                assert(first.kept[b] == e);
                if levels[0].queue.contains(e) {
                    let m = choose|m: int| 0 <= m < levels[0].queue.len() && levels[0].queue[m] == e;
                    assert(levels[0].queue[m] == e);
                } else {
                    let m = choose|m: int| 0 <= m < first.reduced.len() && first.reduced[m] == e;
                    assert(t.reduced[m] == e);
                }
            } else {
                let ra = if head_kept {
                    a - 1
                } else {
                    a
                };
                assert(t.kept[a] == rest.kept[ra]);
                assert(rest.kept[ra].queue[b] == e);
                if !levels_have(others, e) {
                    let m = choose|m: int| 0 <= m < rest.reduced.len() && rest.reduced[m] == e;
                    assert(t.reduced[m + first.reduced.len()] == e);
                }
            }
        }
        assert forall|c: int| 0 <= c < t.reduced.len() implies levels_have(t.kept, #[trigger] t.reduced[c]) by {
            if c < first.reduced.len() {
                assert(t.reduced[c] == first.reduced[c]);
                assert(first.kept.contains(first.reduced[c]));
                let m = choose|m: int| 0 <= m < first.kept.len() && first.kept[m] == first.reduced[c];
                assert(t.kept[0].queue[m] == t.reduced[c]);
            } else {
                assert(t.reduced[c] == rest.reduced[c - first.reduced.len()]);
                assert(levels_have(rest.kept, rest.reduced[c - first.reduced.len()]));
            }
        }
    }
}

/// Writing smaller quantities to the index leaves the quantity of an order
/// that is not among them as it was, and gives an order that is among
/// them the quantity that is written, where all that is written for it is
/// the same.
pub proof fn lemma_with_reduced_quantity(orders: Map<u64, IndexEntry>, reduced: Seq<BookEntry>, id: u64, q: Decimal)
    requires
        orders.contains_key(id),
    ensures
        with_reduced(orders, reduced).contains_key(id),
        (forall|c: int| 0 <= c < reduced.len() ==> (#[trigger] reduced[c]).order_id.0 != id) ==> with_reduced(
            orders,
            reduced,
        )[id].quantity == orders[id].quantity,
        (exists|c: int| 0 <= c < reduced.len() && (#[trigger] reduced[c]).order_id.0 == id) && (forall|c: int|
            0 <= c < reduced.len() && (#[trigger] reduced[c]).order_id.0 == id ==> reduced[c].quantity == q)
            ==> with_reduced(orders, reduced)[id].quantity == q,
    decreases reduced.len(),
{
    if reduced.len() > 0 {
        let e = reduced[0];
        let rest = reduced.drop_first();
        let next = if orders.contains_key(e.order_id.0) {
            orders.insert(
                e.order_id.0,
                IndexEntry {
                    side: orders[e.order_id.0].side,
                    price: orders[e.order_id.0].price,
                    quantity: e.quantity,
                },
            )
        } else {
            orders
        };
        lemma_with_reduced_quantity(next, rest, id, q);
        assert(with_reduced(orders, reduced) == with_reduced(next, rest));
        if forall|c: int| 0 <= c < reduced.len() ==> (#[trigger] reduced[c]).order_id.0 != id {
            assert(reduced[0].order_id.0 != id);
            assert forall|c: int| 0 <= c < rest.len() implies (#[trigger] rest[c]).order_id.0 != id by {
                assert(rest[c] == reduced[c + 1]);
            }
        }
        if (exists|c: int| 0 <= c < reduced.len() && (#[trigger] reduced[c]).order_id.0 == id) && (forall|c: int|
            0 <= c < reduced.len() && (#[trigger] reduced[c]).order_id.0 == id ==> reduced[c].quantity == q) {
            assert forall|c: int| 0 <= c < rest.len() && (#[trigger] rest[c]).order_id.0 == id implies rest[c].quantity
                == q by {
                assert(rest[c] == reduced[c + 1]);
            }
            if exists|c: int| 0 <= c < rest.len() && (#[trigger] rest[c]).order_id.0 == id {
            } else {
                assert forall|c: int| 0 <= c < rest.len() implies (#[trigger] rest[c]).order_id.0 != id by {
                }
                let c = choose|c: int| 0 <= c < reduced.len() && (#[trigger] reduced[c]).order_id.0 == id;
                if c > 0 {
                    assert(rest[c - 1] == reduced[c]);
                }
                assert(reduced[0].order_id.0 == id);
            }
        }
    }
}

/// Taking liquidity keeps the recorded quantities those of the entries.
pub proof fn lemma_after_take_quantities(book: BookView, side: Side, limit: Decimal, quantity: Decimal, exclude: TraderId)
    requires
        book.wf(),
        index_covers(book),
        quantities_indexed(book),
    ensures
        quantities_indexed(book.after_take(side, limit, quantity, exclude)),
{
    let after = book.after_take(side, limit, quantity, exclude);
    let levels = book.side(side);
    let t = take_levels(side, levels, limit, quantity, exclude);
    let base = book.orders.remove_keys(filled_ids(t.fills));
    lemma_take_levels_entries(side, levels, limit, quantity, exclude);
    lemma_take_levels_ids(side, levels, limit, quantity, exclude);
    lemma_after_take_covers(book, side, limit, quantity, exclude);
    crate::book_index::lemma_with_reduced(base, t.reduced);
    let other = match side {
        Side::Buy => Side::Sell,
        Side::Sell => Side::Buy,
    };
    let others = book.side(other);
    // an order has one entry among those that stay on the side taken from
    assert forall|a: int, b: int, a2: int, b2: int|
        0 <= a < t.kept.len() && 0 <= b < t.kept[a].queue.len() && 0 <= a2 < t.kept.len() && 0 <= b2
            < t.kept[a2].queue.len() && (#[trigger] t.kept[a].queue[b]).order_id == (
        #[trigger] t.kept[a2].queue[b2]).order_id implies t.kept[a].queue[b] == t.kept[a2].queue[b2] by {
        let id = t.kept[a].queue[b].order_id.0;
        assert(queue_indexed(after.orders, side, t.kept[a].price, t.kept[a].queue));
        assert(queue_indexed(after.orders, side, t.kept[a2].price, t.kept[a2].queue));
        assert(indexed_at(after.orders, t.kept[a].queue[b].order_id.0, side, t.kept[a].price));
        assert(indexed_at(after.orders, t.kept[a2].queue[b2].order_id.0, side, t.kept[a2].price));
        if a < a2 {
            assert(better(side, t.kept[a].price, t.kept[a2].price));
        }
        if a2 < a {
            assert(better(side, t.kept[a2].price, t.kept[a].price));
        }
        assert(queue_distinct(t.kept[a].queue));
        if b < b2 {
            assert(t.kept[a].queue[b].order_id != t.kept[a].queue[b2].order_id);
        }
        if b2 < b {
            assert(t.kept[a].queue[b2].order_id != t.kept[a].queue[b].order_id);
        }
    }
    assert forall|a: int, b: int|
        0 <= a < t.kept.len() && 0 <= b < t.kept[a].queue.len() && after.orders.contains_key(
            (#[trigger] t.kept[a].queue[b]).order_id.0,
        ) implies after.orders[t.kept[a].queue[b].order_id.0].quantity == t.kept[a].queue[b].quantity by {
        let e = t.kept[a].queue[b];
        let id = e.order_id.0;
        assert(base.contains_key(id));
        lemma_with_reduced_quantity(base, t.reduced, id, e.quantity);
        if exists|c: int| 0 <= c < t.reduced.len() && (#[trigger] t.reduced[c]).order_id.0 == id {
            assert forall|c: int| 0 <= c < t.reduced.len() && (#[trigger] t.reduced[c]).order_id.0
                == id implies t.reduced[c].quantity == e.quantity by {
                assert(levels_have(t.kept, t.reduced[c]));
                let (a2, b2) = choose|a2: int, b2: int|
                    0 <= a2 < t.kept.len() && 0 <= b2 < t.kept[a2].queue.len() && #[trigger] t.kept[a2].queue[b2]
                        == t.reduced[c];
                assert(t.kept[a2].queue[b2].order_id == t.kept[a].queue[b].order_id);
            }
        } else {
            assert forall|c: int| 0 <= c < t.reduced.len() implies (#[trigger] t.reduced[c]).order_id.0
                != id by {
            }
            if t.reduced.contains(e) {
                let c = choose|c: int| 0 <= c < t.reduced.len() && t.reduced[c] == e;
                assert(t.reduced[c].order_id.0 == id);
            }
            assert(levels_have(levels, e));
            let (i, j) = choose|i: int, j: int|
                0 <= i < levels.len() && 0 <= j < levels[i].queue.len() && #[trigger] levels[i].queue[j] == e;
            assert(book.orders[levels[i].queue[j].order_id.0].quantity == levels[i].queue[j].quantity);
        }
    }
    assert forall|i: int, j: int|
        0 <= i < others.len() && 0 <= j < others[i].queue.len() && after.orders.contains_key(
            (#[trigger] others[i].queue[j]).order_id.0,
        ) implies after.orders[others[i].queue[j].order_id.0].quantity == others[i].queue[j].quantity by {
        let id = others[i].queue[j].order_id.0;
        assert(base.contains_key(id));
        lemma_with_reduced_quantity(base, t.reduced, id, others[i].queue[j].quantity);
        assert(queue_indexed(book.orders, other, others[i].price, others[i].queue));
        assert(indexed_at(book.orders, others[i].queue[j].order_id.0, other, others[i].price));
        assert forall|c: int| 0 <= c < t.reduced.len() implies (#[trigger] t.reduced[c]).order_id.0 != id by {
            if t.reduced[c].order_id.0 == id {
                assert(levels_have(t.kept, t.reduced[c]));
                let (a2, b2) = choose|a2: int, b2: int|
                    0 <= a2 < t.kept.len() && 0 <= b2 < t.kept[a2].queue.len() && #[trigger] t.kept[a2].queue[b2]
                        == t.reduced[c];
                assert(queue_indexed(after.orders, side, t.kept[a2].price, t.kept[a2].queue));
                assert(indexed_at(after.orders, t.kept[a2].queue[b2].order_id.0, side, t.kept[a2].price));
                assert(after.orders[id].side == book.orders[id].side);
            }
        }
    }
}

/// Matching an order whose id rests nowhere in the book keeps the recorded
/// quantities those of the entries.
pub proof fn lemma_matched_quantities(book: BookView, order: Order, next_trade_id: u64, next_exec_id: u64)
    requires
        book.wf(),
        index_covers(book),
        quantities_indexed(book),
        !holds(book, order.order_id.0),
    ensures
        quantities_indexed(matched(book, order, next_trade_id, next_exec_id).book),
{
    if !killed(book, order) {
        let side = resting_side(order);
        let limit = price_limit(order);
        let t = book.taken(side, limit, order.quantity, order.trader_id);
        let after = book.after_take(side, limit, order.quantity, order.trader_id);
        lemma_take_levels_ids(side, book.side(side), limit, order.quantity, order.trader_id);
        lemma_after_take_quantities(book, side, limit, order.quantity, order.trader_id);
        lemma_take_holds(book, side, limit, order.quantity, order.trader_id);
        assert(after.wf());
        if rests(after, order, t.fills) {
            lemma_rested_quantities(after, order.side, order.price->0, remainder_entry(order, t.fills));
        }
    }
}

} // verus!
