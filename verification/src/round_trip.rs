//! Snapshots reproduce books.
//!
//! The resting orders that a book exports, loaded into an empty book of the
//! same instrument, give the same price levels with the same queues: time
//! priority survives a snapshot. The laws of this module say so for one
//! book and for all the books of an engine, and that what matching gives
//! depends on nothing of a book but its levels.

use crate::book_index::{
    holds, ids_distinct, ids_listed, index_covers, indexed_at, levels_hold, queue_distinct, queue_holds,
    queue_indexed,
};
use crate::matching::matched;
use crate::multi_engine::snapshot_distinct;
use crate::multi_engine::{lemma_place_is, lemma_place_of, place_of, ListingView, MultiView};
use crate::order_book::{
    better, entry_of, first_refusal, lemma_position, level_resting, levels_resting, levels_resting_rev,
    queues_nonempty, side_sorted, with_entry, BookEntry, BookView, LevelView,
};
use crate::types::{InstrumentId, Order, RestingOrder, Side};
use vstd::prelude::*;

verus! {

/// Every entry of the queue has a quantity above zero.
pub open spec fn queue_positive(queue: Seq<BookEntry>) -> bool {
    forall|j: int| 0 <= j < queue.len() ==> (#[trigger] queue[j]).quantity.is_positive()
}

/// Every entry of every level has a quantity above zero.
pub open spec fn levels_positive(levels: Seq<LevelView>) -> bool {
    forall|i: int| 0 <= i < levels.len() ==> queue_positive((#[trigger] levels[i]).queue)
}

/// The other side.
pub open spec fn opposite(side: Side) -> Side {
    match side {
        Side::Buy => Side::Sell,
        Side::Sell => Side::Buy,
    }
}

/// The levels `base` with one more level at the place where loading puts
/// it: in front for bids, which are loaded from the lowest price up, at the
/// end for asks.
pub open spec fn placed(side: Side, base: Seq<LevelView>, level: LevelView) -> Seq<LevelView> {
    match side {
        Side::Buy => seq![level] + base,
        Side::Sell => base.push(level),
    }
}

/// Loading two lists one after the other is loading them in one go, where
/// the book refuses nothing of the first.
pub proof fn lemma_loaded_concat(book: BookView, a: Seq<RestingOrder>, b: Seq<RestingOrder>)
    requires
        first_refusal(book.instrument_id, a) is None,
    ensures
        book.loaded(a + b) == book.loaded(a).loaded(b),
        book.loaded(a).instrument_id == book.instrument_id,
        first_refusal(book.instrument_id, a + b) == first_refusal(book.instrument_id, b),
    decreases a.len(),
{
    if a.len() == 0 {
        assert(a + b =~= b);
    } else {
        let next = book.rested(a[0].side, a[0].price, entry_of(a[0]));
        assert((a + b)[0] == a[0]);
        assert((a + b).drop_first() =~= a.drop_first() + b);
        lemma_loaded_concat(next, a.drop_first(), b);
    }
}

/// Loading what is left of the entries of one level, from the entry at
/// place `j` on, completes the level at its place.
pub proof fn lemma_load_queue(book: BookView, side: Side, base: Seq<LevelView>, level: LevelView, j: int)
    requires
        0 <= j <= level.queue.len(),
        level.queue.len() > 0,
        queue_positive(level.queue),
        side_sorted(side, placed(side, base, level)),
        book.side(side) == if j == 0 {
            base
        } else {
            placed(side, base, LevelView { price: level.price, queue: level.queue.take(j) })
        },
    ensures
        book.loaded(level_resting(book.instrument_id, side, level).skip(j)).side(side) == placed(
            side,
            base,
            level,
        ),
        book.loaded(level_resting(book.instrument_id, side, level).skip(j)).side(opposite(side))
            == book.side(opposite(side)),
        book.loaded(level_resting(book.instrument_id, side, level).skip(j)).instrument_id
            == book.instrument_id,
        first_refusal(book.instrument_id, level_resting(book.instrument_id, side, level).skip(j)) is None,
    decreases level.queue.len() - j,
{
    let all = level_resting(book.instrument_id, side, level);
    let whole = placed(side, base, level);
    if j == level.queue.len() {
        assert(level.queue.take(j) =~= level.queue);
        assert(all.skip(j) =~= Seq::<RestingOrder>::empty());
    } else {
        let o = all[j];
        let e = level.queue[j];
        assert(all.skip(j)[0] == o);
        assert(all.skip(j).drop_first() =~= all.skip(j + 1));
        assert(entry_of(o) == e);
        assert(e.quantity.is_positive());
        let levels = book.side(side);
        let grown = LevelView { price: level.price, queue: level.queue.take(j + 1) };
        assert(level.queue.take(j + 1) =~= level.queue.take(j).push(e));
        match side {
            Side::Buy => {
                if base.len() > 0 {
                    assert(whole[0] == level);
                    assert(whole[1] == base[0]);
                    assert(better(side, whole[0].price, whole[1].price));
                }
                lemma_position(side, levels, level.price, 0);
                if j == 0 {
                    assert(level.queue.take(1) =~= seq![e]);
                    assert(with_entry(side, levels, level.price, e) =~= placed(side, base, grown));
                } else {
                    assert(with_entry(side, levels, level.price, e) =~= placed(side, base, grown));
                }
            },
            Side::Sell => {
                assert forall|k: int| 0 <= k < base.len() implies better(
                    side,
                    (#[trigger] levels[k]).price,
                    level.price,
                ) by {
                    assert(whole[k] == base[k]);
                    assert(whole[base.len() as int] == level);
                    assert(better(side, whole[k].price, whole[base.len() as int].price));
                }
                lemma_position(side, levels, level.price, base.len() as int);
                if j == 0 {
                    assert(level.queue.take(1) =~= seq![e]);
                    assert(with_entry(side, levels, level.price, e) =~= placed(side, base, grown));
                } else {
                    assert(with_entry(side, levels, level.price, e) =~= placed(side, base, grown));
                }
            },
        }
        let next = book.rested(side, level.price, e);
        assert(next.side(side) == placed(side, base, grown));
        lemma_load_queue(next, side, base, level, j + 1);
    }
}

/// Loading the resting orders of bid levels, lowest price first, into a
/// book without bids gives these levels.
pub proof fn lemma_load_bids(book: BookView, bids: Seq<LevelView>)
    requires
        book.bids.len() == 0,
        side_sorted(Side::Buy, bids),
        queues_nonempty(bids),
        levels_positive(bids),
    ensures
        book.loaded(levels_resting_rev(book.instrument_id, Side::Buy, bids)).bids == bids,
        book.loaded(levels_resting_rev(book.instrument_id, Side::Buy, bids)).asks == book.asks,
        book.loaded(levels_resting_rev(book.instrument_id, Side::Buy, bids)).instrument_id
            == book.instrument_id,
        first_refusal(book.instrument_id, levels_resting_rev(book.instrument_id, Side::Buy, bids)) is None,
    decreases bids.len(),
{
    if bids.len() == 0 {
        assert(book.bids =~= bids);
    } else {
        let tail = bids.drop_first();
        let id = book.instrument_id;
        assert forall|i: int, j: int| 0 <= i < j < tail.len() implies better(
            Side::Buy,
            #[trigger] tail[i].price,
            #[trigger] tail[j].price,
        ) by {
            assert(tail[i] == bids[i + 1]);
            assert(tail[j] == bids[j + 1]);
        }
        assert forall|i: int| 0 <= i < tail.len() implies (#[trigger] tail[i]).queue.len() > 0
            && queue_positive(tail[i].queue) by {
            assert(tail[i] == bids[i + 1]);
        }
        lemma_load_bids(book, tail);
        let first = levels_resting_rev(id, Side::Buy, tail);
        let last = level_resting(id, Side::Buy, bids[0]);
        lemma_loaded_concat(book, first, last);
        let mid = book.loaded(first);
        assert(seq![bids[0]] + tail =~= bids);
        assert(last.skip(0) =~= last);
        lemma_load_queue(mid, Side::Buy, tail, bids[0], 0);
    }
}

/// Loading the resting orders of ask levels, lowest price first, into a
/// book without asks gives these levels.
pub proof fn lemma_load_asks(book: BookView, asks: Seq<LevelView>)
    requires
        book.asks.len() == 0,
        side_sorted(Side::Sell, asks),
        queues_nonempty(asks),
        levels_positive(asks),
    ensures
        book.loaded(levels_resting(book.instrument_id, Side::Sell, asks)).asks == asks,
        book.loaded(levels_resting(book.instrument_id, Side::Sell, asks)).bids == book.bids,
        book.loaded(levels_resting(book.instrument_id, Side::Sell, asks)).instrument_id
            == book.instrument_id,
        first_refusal(book.instrument_id, levels_resting(book.instrument_id, Side::Sell, asks)) is None,
    decreases asks.len(),
{
    if asks.len() == 0 {
        assert(book.asks =~= asks);
    } else {
        let front = asks.drop_last();
        let id = book.instrument_id;
        assert forall|i: int, j: int| 0 <= i < j < front.len() implies better(
            Side::Sell,
            #[trigger] front[i].price,
            #[trigger] front[j].price,
        ) by {
            assert(front[i] == asks[i]);
            assert(front[j] == asks[j]);
        }
        assert forall|i: int| 0 <= i < front.len() implies (#[trigger] front[i]).queue.len() > 0
            && queue_positive(front[i].queue) by {
            assert(front[i] == asks[i]);
        }
        lemma_load_asks(book, front);
        let first = levels_resting(id, Side::Sell, front);
        let last = level_resting(id, Side::Sell, asks.last());
        lemma_loaded_concat(book, first, last);
        let mid = book.loaded(first);
        assert(front.push(asks.last()) =~= asks);
        assert(last.skip(0) =~= last);
        lemma_load_queue(mid, Side::Sell, front, asks.last(), 0);
    }
}

/// The resting orders of a book, loaded into an empty book of the same
/// instrument, give its price levels and queues again, and none of them
/// is refused.
pub proof fn lemma_book_round_trip(book: BookView)
    requires
        book.wf(),
        levels_positive(book.bids),
        levels_positive(book.asks),
    ensures
        first_refusal(book.instrument_id, book.resting()) is None,
        BookView::empty(book.instrument_id).loaded(book.resting()).bids == book.bids,
        BookView::empty(book.instrument_id).loaded(book.resting()).asks == book.asks,
        BookView::empty(book.instrument_id).loaded(book.resting()).instrument_id == book.instrument_id,
{
    let id = book.instrument_id;
    let start = BookView::empty(id);
    let bid_part = levels_resting_rev(id, Side::Buy, book.bids);
    let ask_part = levels_resting(id, Side::Sell, book.asks);
    lemma_load_bids(start, book.bids);
    lemma_loaded_concat(start, bid_part, ask_part);
    lemma_load_asks(start.loaded(bid_part), book.asks);
}

/// What matching gives depends on nothing of a book but its instrument and
/// its levels: two books that agree in them give the same trades and
/// reports, and agree in their levels afterwards.
pub proof fn lemma_matched_by_levels(a: BookView, b: BookView, order: Order, next_trade_id: u64, next_exec_id: u64)
    requires
        a.instrument_id == b.instrument_id,
        a.bids == b.bids,
        a.asks == b.asks,
    ensures
        matched(a, order, next_trade_id, next_exec_id).trades == matched(
            b,
            order,
            next_trade_id,
            next_exec_id,
        ).trades,
        matched(a, order, next_trade_id, next_exec_id).reports == matched(
            b,
            order,
            next_trade_id,
            next_exec_id,
        ).reports,
        matched(a, order, next_trade_id, next_exec_id).book.bids == matched(
            b,
            order,
            next_trade_id,
            next_exec_id,
        ).book.bids,
        matched(a, order, next_trade_id, next_exec_id).book.asks == matched(
            b,
            order,
            next_trade_id,
            next_exec_id,
        ).book.asks,
        matched(a, order, next_trade_id, next_exec_id).book.instrument_id == matched(
            b,
            order,
            next_trade_id,
            next_exec_id,
        ).book.instrument_id,
{
}

/// Two books have the same instrument and the same levels.
pub open spec fn same_levels(a: BookView, b: BookView) -> bool {
    a.instrument_id == b.instrument_id && a.bids == b.bids && a.asks == b.asks
}

/// The engine `r` has the instruments of the engine `e`, in the same
/// order and with the same symbols, and its first `k` books have the levels
/// of those of `e`.
pub open spec fn agrees(r: MultiView, e: MultiView, k: int) -> bool {
    &&& r.listings.len() == e.listings.len()
    &&& forall|i: int|
        0 <= i < e.listings.len() ==> (#[trigger] r.listings[i]).id == e.listings[i].id
            && r.listings[i].symbol == e.listings[i].symbol
    &&& forall|i: int| 0 <= i < k && i < e.listings.len() ==> same_levels((#[trigger] r.listings[i]).book, e.listings[i].book)
}

/// Every book of the engine holds quantities above zero only.
pub open spec fn books_positive(e: MultiView) -> bool {
    forall|i: int|
        0 <= i < e.listings.len() ==> levels_positive((#[trigger] e.listings[i]).book.bids)
            && levels_positive(e.listings[i].book.asks)
}

/// Registering what is left of the instruments of an engine, in an engine
/// that has the first `k` of them, gives an engine with all of them.
pub proof fn lemma_registered_agrees(g: MultiView, e: MultiView, k: int)
    requires
        e.wf(),
        0 <= k <= e.listings.len(),
        g.listings.len() == k,
        forall|i: int|
            0 <= i < k ==> (#[trigger] g.listings[i]).id == e.listings[i].id && g.listings[i].symbol
                == e.listings[i].symbol,
    ensures
        agrees(g.registered(e.listed().skip(k)), e, 0),
        g.registered(e.listed().skip(k)).next_trade_id == g.next_trade_id,
        g.registered(e.listed().skip(k)).next_exec_id == g.next_exec_id,
    decreases e.listings.len() - k,
{
    let rest = e.listed().skip(k);
    if k < e.listings.len() {
        let id = e.listings[k].id;
        let symbol = e.listings[k].symbol;
        assert(rest[0] == (id, symbol));
        assert(rest.drop_first() =~= e.listed().skip(k + 1));
        lemma_place_of(g.listings, id);
        if place_of(g.listings, id) < g.listings.len() {
            let p = place_of(g.listings, id);
            assert(g.listings[p].id == e.listings[p].id);
            assert(e.listings[p].id != e.listings[k].id);
        }
        let next = g.with_instrument(id, symbol);
        assert forall|i: int| 0 <= i < k + 1 implies (#[trigger] next.listings[i]).id == e.listings[i].id
            && next.listings[i].symbol == e.listings[i].symbol by {
            if i < k {
                assert(next.listings[i] == g.listings[i]);
            }
        }
        lemma_registered_agrees(next, e, k + 1);
    }
}

/// Loading what is left of the books of an engine, from the book at place
/// `k` on, into an engine with the same instruments whose first `k` books
/// have the levels of those of the engine, gives an engine all of whose
/// books have them.
pub proof fn lemma_loaded_agrees(g: MultiView, e: MultiView, k: int)
    requires
        e.wf(),
        books_positive(e),
        0 <= k <= e.listings.len(),
        agrees(g, e, k),
    ensures
        g.loaded(e.resting().skip(k)) is Ok,
        agrees(g.loaded(e.resting().skip(k))->Ok_0, e, e.listings.len() as int),
        g.loaded(e.resting().skip(k))->Ok_0.next_trade_id == g.next_trade_id,
        g.loaded(e.resting().skip(k))->Ok_0.next_exec_id == g.next_exec_id,
    decreases e.listings.len() - k,
{
    let rest = e.resting().skip(k);
    if k < e.listings.len() {
        let id = e.listings[k].id;
        let book = e.listings[k].book;
        assert(rest[0] == (id, book.resting()));
        assert(rest.drop_first() =~= e.resting().skip(k + 1));
        assert forall|i: int, j: int| 0 <= i < j < g.listings.len() implies (#[trigger] g.listings[i]).id != (
        #[trigger] g.listings[j]).id by {
            assert(e.listings[i].id != e.listings[j].id);
        }
        lemma_place_is(g.listings, id, k);
        lemma_book_round_trip(book);
        let next = g.with_loaded(id, book.resting());
        assert forall|i: int| 0 <= i < e.listings.len() implies (#[trigger] next.listings[i]).id
            == e.listings[i].id && next.listings[i].symbol == e.listings[i].symbol by {
            if i != k {
                assert(next.listings[i] == g.listings[i]);
            }
        }
        assert forall|i: int| 0 <= i < k + 1 && i < e.listings.len() implies same_levels(
            (#[trigger] next.listings[i]).book,
            e.listings[i].book,
        ) by {
            if i != k {
                assert(next.listings[i] == g.listings[i]);
            }
        }
        lemma_loaded_agrees(next, e, k + 1);
    }
}

/// Snapshot round trip: what an engine exports as its instruments, the
/// resting orders of its books and its counters restores an engine with
/// the same instruments in the same order, the same levels and queues in
/// every book, and the same counters.
pub proof fn lemma_engine_round_trip(e: MultiView)
    requires
        e.wf(),
        books_positive(e),
    ensures
        MultiView::restored(e.listed(), e.resting(), e.next_trade_id, e.next_exec_id) is Ok,
        agrees(
            MultiView::restored(e.listed(), e.resting(), e.next_trade_id, e.next_exec_id)->Ok_0,
            e,
            e.listings.len() as int,
        ),
        MultiView::restored(e.listed(), e.resting(), e.next_trade_id, e.next_exec_id)->Ok_0.next_trade_id
            == e.next_trade_id,
        MultiView::restored(e.listed(), e.resting(), e.next_trade_id, e.next_exec_id)->Ok_0.next_exec_id
            == e.next_exec_id,
{
    let start = MultiView::fresh();
    assert(e.listed().skip(0) =~= e.listed());
    assert(e.resting().skip(0) =~= e.resting());
    lemma_registered_agrees(start, e, 0);
    let registered = start.registered(e.listed());
    lemma_loaded_agrees(registered, e, 0);
}

/// Two engines whose books at the place of an instrument have the same
/// levels, with the same counters, give the same trades and reports for an
/// order for this instrument, and their books have the same levels
/// afterwards.
pub proof fn lemma_submit_by_levels(a: MultiView, b: MultiView, order: Order)
    requires
        a.has(order.instrument_id),
        b.has(order.instrument_id),
        same_levels(a.book(order.instrument_id), b.book(order.instrument_id)),
        a.next_trade_id == b.next_trade_id,
        a.next_exec_id == b.next_exec_id,
    ensures
        matched(a.book(order.instrument_id), order, a.next_trade_id, a.next_exec_id).trades == matched(
            b.book(order.instrument_id),
            order,
            b.next_trade_id,
            b.next_exec_id,
        ).trades,
        matched(a.book(order.instrument_id), order, a.next_trade_id, a.next_exec_id).reports == matched(
            b.book(order.instrument_id),
            order,
            b.next_trade_id,
            b.next_exec_id,
        ).reports,
        same_levels(
            a.submitted(order).book(order.instrument_id),
            b.submitted(order).book(order.instrument_id),
        ),
        a.submitted(order).next_trade_id == b.submitted(order).next_trade_id,
        a.submitted(order).next_exec_id == b.submitted(order).next_exec_id,
{
    lemma_matched_by_levels(
        a.book(order.instrument_id),
        b.book(order.instrument_id),
        order,
        a.next_trade_id,
        a.next_exec_id,
    );
    lemma_place_of(a.listings, order.instrument_id);
    lemma_place_of(b.listings, order.instrument_id);
    lemma_same_place(a, order);
    lemma_same_place(b, order);
}

/// Matching an order leaves the instrument of the order where it was among
/// the listings.
pub proof fn lemma_same_place(e: MultiView, order: Order)
    requires
        e.has(order.instrument_id),
    ensures
        e.submitted(order).has(order.instrument_id),
        place_of(e.submitted(order).listings, order.instrument_id) == place_of(
            e.listings,
            order.instrument_id,
        ),
{
    lemma_place_of(e.listings, order.instrument_id);
    let p = place_of(e.listings, order.instrument_id);
    let after = e.submitted(order).listings;
    assert(after.len() == e.listings.len());
    assert forall|i: int| 0 <= i < e.listings.len() implies (#[trigger] e.listings[i]).id == after[i].id by {
        if i != p {
            assert(after[i] == e.listings[i]);
        }
    }
    lemma_ids_place(e.listings, after, order.instrument_id);
}

/// Listings with the same ids, place by place, have every instrument at
/// the same place.
pub proof fn lemma_ids_place(a: Seq<ListingView>, b: Seq<ListingView>, id: InstrumentId)
    requires
        a.len() == b.len(),
        forall|i: int| 0 <= i < a.len() ==> (#[trigger] a[i]).id == b[i].id,
    ensures
        place_of(a, id) == place_of(b, id),
    decreases a.len(),
{
    if a.len() > 0 && a[0].id != id {
        assert(b[0].id == a[0].id);
        assert forall|i: int| 0 <= i < a.drop_first().len() implies (#[trigger] a.drop_first()[i]).id
            == b.drop_first()[i].id by {
            assert(a.drop_first()[i] == a[i + 1]);
            assert(b.drop_first()[i] == b[i + 1]);
        }
        lemma_ids_place(a.drop_first(), b.drop_first(), id);
    } else if a.len() > 0 {
        assert(b[0].id == a[0].id);
    }
}

/// The ids among the resting orders of one level are those of its entries,
/// place by place.
pub proof fn lemma_level_resting_ids(instrument_id: InstrumentId, side: Side, level: LevelView)
    ensures
        forall|x: u64| ids_listed(level_resting(instrument_id, side, level), x) <==> queue_holds(level.queue, x),
        queue_distinct(level.queue) ==> ids_distinct(level_resting(instrument_id, side, level)),
{
    let resting = level_resting(instrument_id, side, level);
    assert forall|x: u64| ids_listed(resting, x) <==> queue_holds(level.queue, x) by {
        if ids_listed(resting, x) {
            let j = choose|j: int| 0 <= j < resting.len() && (#[trigger] resting[j]).order_id.0 == x;
            assert(level.queue[j].order_id.0 == x);
        }
        if queue_holds(level.queue, x) {
            let j = choose|j: int| 0 <= j < level.queue.len() && (#[trigger] level.queue[j]).order_id.0 == x;
            assert(resting[j].order_id.0 == x);
        }
    }
    if queue_distinct(level.queue) {
        assert forall|a: int, b: int| 0 <= a < b < resting.len() implies (#[trigger] resting[a]).order_id != (
        #[trigger] resting[b]).order_id by {
            assert(level.queue[a].order_id != level.queue[b].order_id);
        }
    }
}

/// No order has two entries among the levels.
pub open spec fn side_unique(levels: Seq<LevelView>) -> bool {
    &&& forall|i: int| 0 <= i < levels.len() ==> queue_distinct((#[trigger] levels[i]).queue)
    &&& forall|i: int, j: int, x: u64|
        0 <= i < j < levels.len() && #[trigger] queue_holds(levels[i].queue, x) ==> !#[trigger] queue_holds(
            levels[j].queue,
            x,
        )
}

/// One list after another has an id where one of the two has it, and no id
/// twice where neither has one twice and they share none.
pub proof fn lemma_ids_concat(a: Seq<RestingOrder>, b: Seq<RestingOrder>)
    ensures
        forall|x: u64| ids_listed(a + b, x) <==> (ids_listed(a, x) || ids_listed(b, x)),
        ids_distinct(a) && ids_distinct(b) && (forall|x: u64| ids_listed(a, x) ==> !ids_listed(b, x))
            ==> ids_distinct(a + b),
{
    let all = a + b;
    assert forall|x: u64| ids_listed(all, x) <==> (ids_listed(a, x) || ids_listed(b, x)) by {
        if ids_listed(all, x) {
            let j = choose|j: int| 0 <= j < all.len() && (#[trigger] all[j]).order_id.0 == x;
            if j < a.len() {
                assert(a[j].order_id.0 == x);
            } else {
                assert(b[j - a.len()].order_id.0 == x);
            }
        }
        if ids_listed(a, x) {
            let j = choose|j: int| 0 <= j < a.len() && (#[trigger] a[j]).order_id.0 == x;
            assert(all[j].order_id.0 == x);
        }
        if ids_listed(b, x) {
            let j = choose|j: int| 0 <= j < b.len() && (#[trigger] b[j]).order_id.0 == x;
            assert(all[j + a.len()].order_id.0 == x);
        }
    }
    if ids_distinct(a) && ids_distinct(b) && (forall|x: u64| ids_listed(a, x) ==> !ids_listed(b, x)) {
        assert forall|i: int, j: int| 0 <= i < j < all.len() implies (#[trigger] all[i]).order_id != (
        #[trigger] all[j]).order_id by {
            if j < a.len() {
                assert(a[i].order_id != a[j].order_id);
            } else if i >= a.len() {
                assert(b[i - a.len()].order_id != b[j - a.len()].order_id);
            } else {
                assert(a[i].order_id.0 == all[i].order_id.0);
                assert(ids_listed(a, all[i].order_id.0));
                if all[i].order_id == all[j].order_id {
                    assert(b[j - a.len()].order_id.0 == all[i].order_id.0);
                    assert(ids_listed(b, all[i].order_id.0));
                }
            }
        }
    }
}

/// The ids among the resting orders of levels, listed first level to last,
/// are those that the levels hold, and none is there twice where no order
/// has two entries.
pub proof fn lemma_levels_resting_ids(instrument_id: InstrumentId, side: Side, levels: Seq<LevelView>)
    ensures
        forall|x: u64| ids_listed(levels_resting(instrument_id, side, levels), x) <==> levels_hold(levels, x),
        side_unique(levels) ==> ids_distinct(levels_resting(instrument_id, side, levels)),
    decreases levels.len(),
{
    let resting = levels_resting(instrument_id, side, levels);
    if levels.len() == 0 {
        assert forall|x: u64| !ids_listed(resting, x) && !levels_hold(levels, x) by {
        }
    } else {
        let front = levels.drop_last();
        let a = levels_resting(instrument_id, side, front);
        let b = level_resting(instrument_id, side, levels.last());
        lemma_levels_resting_ids(instrument_id, side, front);
        lemma_level_resting_ids(instrument_id, side, levels.last());
        lemma_ids_concat(a, b);
        assert forall|x: u64| ids_listed(resting, x) <==> levels_hold(levels, x) by {
            if levels_hold(front, x) {
                let i = choose|i: int| 0 <= i < front.len() && queue_holds((#[trigger] front[i]).queue, x);
                assert(levels[i] == front[i]);
            }
            if queue_holds(levels.last().queue, x) {
                assert(queue_holds(levels[levels.len() - 1].queue, x));
            }
            if levels_hold(levels, x) {
                let i = choose|i: int| 0 <= i < levels.len() && queue_holds((#[trigger] levels[i]).queue, x);
                if i < front.len() {
                    assert(front[i] == levels[i]);
                }
            }
        }
        if side_unique(levels) {
            assert(side_unique(front)) by {
                assert forall|i: int| 0 <= i < front.len() implies queue_distinct((#[trigger] front[i]).queue) by {
                    assert(front[i] == levels[i]);
                }
                assert forall|i: int, j: int, x: u64|
                    0 <= i < j < front.len() && #[trigger] queue_holds(
                        front[i].queue,
                        x,
                    ) implies !#[trigger] queue_holds(front[j].queue, x) by {
                    assert(front[i] == levels[i]);
                    assert(front[j] == levels[j]);
                    assert(queue_holds(levels[i].queue, x));
                }
            }
            assert(queue_distinct(levels[levels.len() - 1].queue));
            assert forall|x: u64| ids_listed(a, x) implies !ids_listed(b, x) by {
                assert(levels_hold(front, x));
                let i = choose|i: int| 0 <= i < front.len() && queue_holds((#[trigger] front[i]).queue, x);
                assert(front[i] == levels[i]);
                assert(queue_holds(levels[i].queue, x));
                assert(!queue_holds(levels[levels.len() - 1].queue, x));
            }
        }
    }
}

/// The ids among the resting orders of levels, listed last level to first,
/// are those that the levels hold, and none is there twice where no order
/// has two entries.
pub proof fn lemma_levels_resting_rev_ids(instrument_id: InstrumentId, side: Side, levels: Seq<LevelView>)
    ensures
        forall|x: u64|
            ids_listed(levels_resting_rev(instrument_id, side, levels), x) <==> levels_hold(levels, x),
        side_unique(levels) ==> ids_distinct(levels_resting_rev(instrument_id, side, levels)),
    decreases levels.len(),
{
    let resting = levels_resting_rev(instrument_id, side, levels);
    if levels.len() == 0 {
        assert forall|x: u64| !ids_listed(resting, x) && !levels_hold(levels, x) by {
        }
    } else {
        let tail = levels.drop_first();
        let a = levels_resting_rev(instrument_id, side, tail);
        let b = level_resting(instrument_id, side, levels[0]);
        lemma_levels_resting_rev_ids(instrument_id, side, tail);
        lemma_level_resting_ids(instrument_id, side, levels[0]);
        lemma_ids_concat(a, b);
        assert forall|x: u64| ids_listed(resting, x) <==> levels_hold(levels, x) by {
            if levels_hold(tail, x) {
                let i = choose|i: int| 0 <= i < tail.len() && queue_holds((#[trigger] tail[i]).queue, x);
                assert(levels[i + 1] == tail[i]);
            }
            if levels_hold(levels, x) {
                let i = choose|i: int| 0 <= i < levels.len() && queue_holds((#[trigger] levels[i]).queue, x);
                if i > 0 {
                    assert(tail[i - 1] == levels[i]);
                }
            }
        }
        if side_unique(levels) {
            assert(side_unique(tail)) by {
                assert forall|i: int| 0 <= i < tail.len() implies queue_distinct((#[trigger] tail[i]).queue) by {
                    assert(tail[i] == levels[i + 1]);
                }
                assert forall|i: int, j: int, x: u64|
                    0 <= i < j < tail.len() && #[trigger] queue_holds(
                        tail[i].queue,
                        x,
                    ) implies !#[trigger] queue_holds(tail[j].queue, x) by {
                    assert(tail[i] == levels[i + 1]);
                    assert(tail[j] == levels[j + 1]);
                    assert(queue_holds(levels[i + 1].queue, x));
                }
            }
            assert(queue_distinct(levels[0].queue));
            assert forall|x: u64| ids_listed(a, x) implies !ids_listed(b, x) by {
                assert(levels_hold(tail, x));
                let i = choose|i: int| 0 <= i < tail.len() && queue_holds((#[trigger] tail[i]).queue, x);
                assert(tail[i] == levels[i + 1]);
                if queue_holds(levels[0].queue, x) {
                    assert(!queue_holds(levels[i + 1].queue, x));
                }
            }
        }
    }
}

/// Where the index covers a book, no order has two entries on a side.
pub proof fn lemma_covered_side_unique(book: BookView, side: Side)
    requires
        book.wf(),
        index_covers(book),
    ensures
        side_unique(book.side(side)),
{
    let levels = book.side(side);
    assert forall|i: int, j: int, x: u64|
        0 <= i < j < levels.len() && #[trigger] queue_holds(levels[i].queue, x) implies !#[trigger] queue_holds(
        levels[j].queue,
        x,
    ) by {
        if queue_holds(levels[j].queue, x) {
            let a = choose|a: int| 0 <= a < levels[i].queue.len() && (#[trigger] levels[i].queue[a]).order_id.0 == x;
            let b = choose|b: int| 0 <= b < levels[j].queue.len() && (#[trigger] levels[j].queue[b]).order_id.0 == x;
            assert(queue_indexed(book.orders, side, levels[i].price, levels[i].queue));
            assert(queue_indexed(book.orders, side, levels[j].price, levels[j].queue));
            assert(indexed_at(book.orders, levels[i].queue[a].order_id.0, side, levels[i].price));
            assert(indexed_at(book.orders, levels[j].queue[b].order_id.0, side, levels[j].price));
            assert(better(side, levels[i].price, levels[j].price));
        }
    }
}

/// Where the index covers a book, the ids among the resting orders that
/// the book exports are those of the orders that rest in it, each once.
pub proof fn lemma_resting_ids(book: BookView)
    requires
        book.wf(),
        index_covers(book),
    ensures
        ids_distinct(book.resting()),
        forall|x: u64| ids_listed(book.resting(), x) <==> holds(book, x),
{
    let id = book.instrument_id;
    let a = levels_resting_rev(id, Side::Buy, book.bids);
    let b = levels_resting(id, Side::Sell, book.asks);
    lemma_covered_side_unique(book, Side::Buy);
    lemma_covered_side_unique(book, Side::Sell);
    lemma_levels_resting_rev_ids(id, Side::Buy, book.bids);
    lemma_levels_resting_ids(id, Side::Sell, book.asks);
    lemma_ids_concat(a, b);
    assert forall|x: u64| ids_listed(a, x) implies !ids_listed(b, x) by {
        if ids_listed(b, x) {
            assert(levels_hold(book.bids, x));
            assert(levels_hold(book.asks, x));
            let i = choose|i: int| 0 <= i < book.bids.len() && queue_holds((#[trigger] book.bids[i]).queue, x);
            let j = choose|j: int| 0 <= j < book.asks.len() && queue_holds((#[trigger] book.asks[j]).queue, x);
            let m = choose|m: int| 0 <= m < book.bids[i].queue.len() && (#[trigger] book.bids[i].queue[m]).order_id.0 == x;
            let n = choose|n: int| 0 <= n < book.asks[j].queue.len() && (#[trigger] book.asks[j].queue[n]).order_id.0 == x;
            assert(queue_indexed(book.orders, Side::Buy, book.bids[i].price, book.bids[i].queue));
            assert(queue_indexed(book.orders, Side::Sell, book.asks[j].price, book.asks[j].queue));
            assert(indexed_at(book.orders, book.bids[i].queue[m].order_id.0, Side::Buy, book.bids[i].price));
            assert(indexed_at(book.orders, book.asks[j].queue[n].order_id.0, Side::Sell, book.asks[j].price));
        }
    }
}

/// Where the indexes of an engine cover its books, no order id occurs
/// twice among the resting orders that the engine exports.
pub proof fn lemma_snapshot_distinct(e: MultiView)
    requires
        e.wf(),
        e.covers(),
    ensures
        snapshot_distinct(e.resting()),
{
    let books = e.resting();
    assert forall|b: int| 0 <= b < books.len() implies ids_distinct((#[trigger] books[b]).1) by {
        lemma_resting_ids(e.listings[b].book);
    }
    assert forall|a: int, b: int, x: u64|
        0 <= a < b < books.len() && #[trigger] ids_listed(books[a].1, x) implies !#[trigger] ids_listed(
        books[b].1,
        x,
    ) by {
        lemma_resting_ids(e.listings[a].book);
        lemma_resting_ids(e.listings[b].book);
        if ids_listed(books[b].1, x) {
            assert(holds(e.listings[a].book, x));
            assert(holds(e.listings[b].book, x));
            assert(e.listings[a].id != e.listings[b].id);
        }
    }
}

} // verus!
