//! Multi-instrument matching engine: one order book per instrument, shared
//! trade and execution counters, and an index from order id to instrument
//! by which orders are canceled and modified without naming the instrument.

use crate::book_index::{
    holds, ids_distinct, ids_listed, index_covers, lemma_canceled_covers, lemma_matched_covers,
};
use crate::engine::BookSnapshot;
use crate::execution::{ExecutionReport, Trade};
use crate::matching::{id_at, match_law, match_order, matched, price_law};
use crate::order_book::{BookView, OrderBook};
use crate::types::{EngineError, InstrumentId, Order, OrderId, OrderType, RestingOrder, TimeInForce};
use std::collections::HashMap;
use vstd::prelude::*;
use vstd::std_specs::iter::IteratorSpec;

verus! {

broadcast use vstd::std_specs::hash::group_hash_axioms;

/// Metadata for an instrument (optional symbol for display).
#[derive(Clone, Debug)]
pub struct InstrumentMeta {
    pub symbol: Option<String>,
}

/// One registered instrument with its book.
#[derive(Debug)]
pub struct Listing {
    id: InstrumentId,
    meta: InstrumentMeta,
    book: OrderBook,
}

/// A registered instrument as a value.
pub struct ListingView {
    pub id: InstrumentId,
    pub symbol: Option<String>,
    pub book: BookView,
}

impl View for Listing {
    type V = ListingView;

    closed spec fn view(&self) -> ListingView {
        ListingView { id: self.id, symbol: self.meta.symbol, book: self.book@ }
    }
}

/// The place of instrument `id` among the listings: that of the first
/// listing with this id, or their number where there is none.
pub open spec fn place_of(listings: Seq<ListingView>, id: InstrumentId) -> int
    decreases listings.len(),
{
    if listings.len() == 0 || listings[0].id == id {
        0
    } else {
        1 + place_of(listings.drop_first(), id)
    }
}

/// No listing before the place of `id` has this id; the listing at the
/// place has it, if there is one.
pub proof fn lemma_place_of(listings: Seq<ListingView>, id: InstrumentId)
    ensures
        0 <= place_of(listings, id) <= listings.len(),
        forall|k: int| 0 <= k < place_of(listings, id) ==> (#[trigger] listings[k]).id != id,
        place_of(listings, id) < listings.len() ==> listings[place_of(listings, id)].id == id,
    decreases listings.len(),
{
    if listings.len() == 0 || listings[0].id == id {
    } else {
        let rest = listings.drop_first();
        lemma_place_of(rest, id);
        assert forall|k: int| 0 <= k < place_of(listings, id) implies (#[trigger] listings[k]).id != id by {
            if k > 0 {
                assert(listings[k] == rest[k - 1]);
            }
        }
        if place_of(listings, id) < listings.len() {
            assert(listings[place_of(listings, id)] == rest[place_of(rest, id)]);
        }
    }
}

/// Among listings without a repeated id, the listing at place `k` is found
/// at place `k`.
pub proof fn lemma_place_is(listings: Seq<ListingView>, id: InstrumentId, k: int)
    requires
        0 <= k < listings.len(),
        listings[k].id == id,
        forall|i: int, j: int|
            0 <= i < j < listings.len() ==> (#[trigger] listings[i]).id != (#[trigger] listings[j]).id,
    ensures
        place_of(listings, id) == k,
{
    lemma_place_of(listings, id);
    let p = place_of(listings, id);
    if p > k {
        assert(listings[k].id != id);
    }
    if p < k {
        assert(listings[p].id != listings[k].id);
    }
}

/// Serializable snapshot of MultiEngine state for persistence.
#[derive(Clone, Debug)]
pub struct EngineSnapshot {
    pub instruments: Vec<(InstrumentId, Option<String>)>,
    /// Per-instrument resting orders, in priority order.
    pub books: Vec<(InstrumentId, Vec<RestingOrder>)>,
    pub order_to_instrument: Vec<(OrderId, InstrumentId)>,
    pub next_trade_id: u64,
    pub next_exec_id: u64,
}

/// The resting orders of each book of a snapshot, as values.
pub open spec fn books_view(books: Seq<(InstrumentId, Vec<RestingOrder>)>) -> Seq<
    (InstrumentId, Seq<RestingOrder>),
> {
    Seq::new(books.len(), |i: int| (books[i].0, books[i].1@))
}

/// The order ids of the index entries of a snapshot.
pub open spec fn entry_keys(entries: Seq<(OrderId, InstrumentId)>) -> Seq<u64> {
    Seq::new(entries.len(), |i: int| entries[i].0.0)
}

/// No order id occurs twice among the resting orders of a snapshot, neither
/// in one book nor in two.
pub open spec fn snapshot_distinct(books: Seq<(InstrumentId, Seq<RestingOrder>)>) -> bool {
    &&& forall|b: int| 0 <= b < books.len() ==> ids_distinct((#[trigger] books[b]).1)
    &&& forall|a: int, b: int, x: u64|
        0 <= a < b < books.len() && #[trigger] ids_listed(books[a].1, x) ==> !#[trigger] ids_listed(
            books[b].1,
            x,
        )
}

/// The index after each of the resting orders has been indexed under
/// `instrument`, one after the other.
pub open spec fn indexed(index: Map<u64, InstrumentId>, resting: Seq<RestingOrder>, instrument: InstrumentId) -> Map<
    u64,
    InstrumentId,
>
    decreases resting.len(),
{
    if resting.len() == 0 {
        index
    } else {
        indexed(index.insert(resting[0].order_id.0, instrument), resting.drop_first(), instrument)
    }
}

/// The state of a multi-instrument engine as a value.
pub struct MultiView {
    /// The registered instruments, in the order of their registration.
    pub listings: Seq<ListingView>,
    /// The instrument that each indexed order was sent to.
    pub index: Map<u64, InstrumentId>,
    pub next_trade_id: u64,
    pub next_exec_id: u64,
}

impl MultiView {
    /// The instrument is registered.
    pub open spec fn has(self, id: InstrumentId) -> bool {
        place_of(self.listings, id) < self.listings.len()
    }

    /// The book of a registered instrument.
    pub open spec fn book(self, id: InstrumentId) -> BookView {
        self.listings[place_of(self.listings, id)].book
    }

    /// The engine with the book of a registered instrument replaced.
    pub open spec fn with_book(self, id: InstrumentId, book: BookView) -> MultiView {
        let i = place_of(self.listings, id);
        MultiView {
            listings: self.listings.update(
                i,
                ListingView { id: self.listings[i].id, symbol: self.listings[i].symbol, book },
            ),
            ..self
        }
    }

    /// No instrument is registered twice, each book is well formed and is
    /// the book of its instrument, and the index names registered
    /// instruments only.
    pub open spec fn wf(self) -> bool {
        &&& forall|i: int, j: int|
            0 <= i < j < self.listings.len() ==> (#[trigger] self.listings[i]).id != (
            #[trigger] self.listings[j]).id
        &&& forall|i: int|
            0 <= i < self.listings.len() ==> (#[trigger] self.listings[i]).book.wf()
                && self.listings[i].book.instrument_id == self.listings[i].id
        &&& forall|k: u64| #[trigger] self.index.contains_key(k) ==> self.has(self.index[k])
    }

    /// Why the engine refuses an order, if it does: first for an
    /// instrument that is not registered, then for its form.
    pub open spec fn refusal(self, order: Order) -> Option<EngineError> {
        if !self.has(order.instrument_id) {
            Some(EngineError::UnknownInstrument)
        } else if !order.well_formed() {
            Some(EngineError::InvalidOrder)
        } else {
            None
        }
    }

    /// The engine after `order` has been matched on the book of its
    /// instrument: the counters move on by the number of trades and of
    /// reports, and the order is indexed where the report to it, the last
    /// one, shows a remaining quantity above zero.
    pub open spec fn submitted(self, order: Order) -> MultiView {
        let m = matched(self.book(order.instrument_id), order, self.next_trade_id, self.next_exec_id);
        MultiView {
            index: if m.reports.last().remaining_quantity.is_positive() {
                self.index.insert(order.order_id.0, order.instrument_id)
            } else {
                self.index
            },
            next_trade_id: id_at(self.next_trade_id, m.trades.len() as int),
            next_exec_id: id_at(self.next_exec_id, m.reports.len() as int),
            ..self.with_book(order.instrument_id, m.book)
        }
    }

    /// The indexed order `id` rests in the book that the index names.
    pub open spec fn cancels(self, id: OrderId) -> bool {
        &&& self.index.contains_key(id.0)
        &&& self.has(self.index[id.0])
        &&& self.book(self.index[id.0]).orders.contains_key(id.0)
    }

    /// The engine after order `id` has been canceled in its book and has
    /// left the index.
    pub open spec fn canceled(self, id: OrderId) -> MultiView {
        let instrument = self.index[id.0];
        MultiView {
            index: self.index.remove(id.0),
            ..self.with_book(instrument, self.book(instrument).canceled(id))
        }
    }

    /// Why the engine refuses to modify order `id`, if it does: the index
    /// does not know it, the replacement is for another instrument than
    /// the order, the replacement is not well formed, or the order does not
    /// rest in its book.
    pub open spec fn modify_refusal(self, id: OrderId, replacement: Order) -> Option<EngineError> {
        if !self.index.contains_key(id.0) {
            Some(EngineError::UnknownOrder)
        } else if replacement.instrument_id != self.index[id.0] {
            Some(EngineError::InstrumentMismatch)
        } else if !replacement.well_formed() {
            Some(EngineError::InvalidOrder)
        } else if !self.cancels(id) {
            Some(EngineError::UnknownOrder)
        } else {
            None
        }
    }

    /// The engine with one more instrument and its empty book.
    pub open spec fn with_instrument(self, id: InstrumentId, symbol: Option<String>) -> MultiView {
        MultiView {
            listings: self.listings.push(ListingView { id, symbol, book: BookView::empty(id) }),
            ..self
        }
    }

    /// The engine after an instrument has been registered again: its
    /// symbol is replaced.
    pub open spec fn with_symbol(self, id: InstrumentId, symbol: Option<String>) -> MultiView {
        let i = place_of(self.listings, id);
        MultiView {
            listings: self.listings.update(
                i,
                ListingView { id: self.listings[i].id, symbol, book: self.listings[i].book },
            ),
            ..self
        }
    }

    /// The engine after the instruments have been registered one after the
    /// other, a later entry for the same instrument replacing its symbol.
    pub open spec fn registered(self, initial: Seq<(InstrumentId, Option<String>)>) -> MultiView
        decreases initial.len(),
    {
        if initial.len() == 0 {
            self
        } else if self.has(initial[0].0) {
            self.with_symbol(initial[0].0, initial[0].1).registered(initial.drop_first())
        } else {
            self.with_instrument(initial[0].0, initial[0].1).registered(initial.drop_first())
        }
    }

    /// Why the engine refuses to remove an instrument, if it does: it is
    /// not registered, or its book has resting orders.
    pub open spec fn removal_refusal(self, id: InstrumentId) -> Option<EngineError> {
        if !self.has(id) {
            Some(EngineError::UnknownInstrument)
        } else if self.book(id).bids.len() > 0 || self.book(id).asks.len() > 0 {
            Some(EngineError::InstrumentInUse)
        } else {
            None
        }
    }

    /// The engine without the instrument `id`, its book and the index
    /// entries that name it.
    pub open spec fn without_instrument(self, id: InstrumentId) -> MultiView {
        MultiView {
            listings: self.listings.remove(place_of(self.listings, id)),
            index: Map::new(
                |k: u64| self.index.contains_key(k) && self.index[k] != id,
                |k: u64| self.index[k],
            ),
            ..self
        }
    }

    /// The instruments with their symbols, in the order of their registration.
    pub open spec fn listed(self) -> Seq<(InstrumentId, Option<String>)> {
        Seq::new(self.listings.len(), |i: int| (self.listings[i].id, self.listings[i].symbol))
    }

    /// The resting orders of each book, in the order of registration.
    pub open spec fn resting(self) -> Seq<(InstrumentId, Seq<RestingOrder>)> {
        Seq::new(self.listings.len(), |i: int| (self.listings[i].id, self.listings[i].book.resting()))
    }

    /// The engine after the book of a registered instrument has been
    /// cleared and the resting orders have come to rest in it and have been
    /// indexed.
    pub open spec fn with_loaded(self, id: InstrumentId, resting: Seq<RestingOrder>) -> MultiView {
        MultiView {
            index: indexed(self.index, resting, id),
            ..self.with_book(id, BookView::empty(id).loaded(resting))
        }
    }

    /// The engine after the books of a snapshot have been loaded one after
    /// the other, or the error of the first that cannot be: its instrument
    /// is not registered, or the book refuses one of its orders.
    pub open spec fn loaded(self, books: Seq<(InstrumentId, Seq<RestingOrder>)>) -> Result<
        MultiView,
        EngineError,
    >
        decreases books.len(),
    {
        if books.len() == 0 {
            Ok(self)
        } else if !self.has(books[0].0) {
            Err(EngineError::UnknownInstrument)
        } else if crate::order_book::first_refusal(books[0].0, books[0].1) is Some {
            Err(crate::order_book::first_refusal(books[0].0, books[0].1)->0)
        } else {
            self.with_loaded(books[0].0, books[0].1).loaded(books.drop_first())
        }
    }

    /// The engine that a snapshot restores: its instruments registered in
    /// a fresh engine, its books loaded, its counters taken over.
    pub open spec fn restored(
        instruments: Seq<(InstrumentId, Option<String>)>,
        books: Seq<(InstrumentId, Seq<RestingOrder>)>,
        next_trade_id: u64,
        next_exec_id: u64,
    ) -> Result<MultiView, EngineError> {
        match MultiView::fresh().registered(instruments).loaded(books) {
            Ok(engine) => Ok(MultiView { next_trade_id, next_exec_id, ..engine }),
            Err(e) => Err(e),
        }
    }

    /// The index of each book covers the book, and the index of the engine
    /// knows every resting order with the instrument in whose book it
    /// rests.
    pub open spec fn covers(self) -> bool {
        &&& forall|i: int| 0 <= i < self.listings.len() ==> index_covers((#[trigger] self.listings[i]).book)
        &&& forall|i: int, x: u64|
            0 <= i < self.listings.len() && #[trigger] holds(self.listings[i].book, x)
                ==> self.index.contains_key(x) && self.index[x] == self.listings[i].id
    }

    /// No order rests in any book.
    pub open spec fn idle(self) -> bool {
        forall|i: int|
            0 <= i < self.listings.len() ==> (#[trigger] self.listings[i]).book.bids.len() == 0
                && self.listings[i].book.asks.len() == 0
    }

    /// The order `id` rests in no book.
    pub open spec fn rests_nowhere(self, id: u64) -> bool {
        forall|i: int| 0 <= i < self.listings.len() ==> !holds((#[trigger] self.listings[i]).book, id)
    }

    /// Submitting an order whose id rests nowhere keeps the indexes
    /// covering the books.
    pub proof fn lemma_submitted_covers(self, order: Order)
        requires
            self.wf(),
            self.covers(),
            self.refusal(order) is None,
            self.rests_nowhere(order.order_id.0),
        ensures
            self.submitted(order).covers(),
    {
        let after = self.submitted(order);
        let p = place_of(self.listings, order.instrument_id);
        lemma_place_of(self.listings, order.instrument_id);
        let b = self.listings[p].book;
        let m = matched(b, order, self.next_trade_id, self.next_exec_id);
        lemma_matched_covers(b, order, self.next_trade_id, self.next_exec_id);
        assert forall|i: int| 0 <= i < after.listings.len() implies index_covers(
            (#[trigger] after.listings[i]).book,
        ) by {
            if i != p {
                assert(after.listings[i] == self.listings[i]);
            }
        }
        assert forall|i: int, x: u64|
            0 <= i < after.listings.len() && #[trigger] holds(
                after.listings[i].book,
                x,
            ) implies after.index.contains_key(x) && after.index[x] == after.listings[i].id by {
            if i != p {
                assert(after.listings[i] == self.listings[i]);
                assert(holds(self.listings[i].book, x));
            } else if holds(b, x) {
                assert(holds(self.listings[p].book, x));
            }
        }
    }

    /// Canceling an order that rests in the book that the index names
    /// keeps the indexes covering the books; the order rests nowhere then.
    pub proof fn lemma_canceled_covers(self, id: OrderId)
        requires
            self.wf(),
            self.covers(),
            self.cancels(id),
        ensures
            self.canceled(id).covers(),
            self.canceled(id).rests_nowhere(id.0),
    {
        let after = self.canceled(id);
        let instrument = self.index[id.0];
        let p = place_of(self.listings, instrument);
        lemma_place_of(self.listings, instrument);
        let b = self.listings[p].book;
        lemma_canceled_covers(b, id);
        assert forall|i: int| 0 <= i < after.listings.len() implies index_covers(
            (#[trigger] after.listings[i]).book,
        ) && !holds(after.listings[i].book, id.0) by {
            if i != p {
                assert(after.listings[i] == self.listings[i]);
                if holds(self.listings[i].book, id.0) {
                    assert(self.listings[i].id != self.listings[p].id);
                }
            }
        }
        assert forall|i: int, x: u64|
            0 <= i < after.listings.len() && #[trigger] holds(
                after.listings[i].book,
                x,
            ) implies after.index.contains_key(x) && after.index[x] == after.listings[i].id by {
            if i != p {
                assert(after.listings[i] == self.listings[i]);
                assert(holds(self.listings[i].book, x));
            } else {
                assert(holds(b, x));
                assert(holds(self.listings[p].book, x));
            }
        }
    }

    /// Registering an instrument keeps the indexes covering the books.
    pub proof fn lemma_with_instrument_covers(self, id: InstrumentId, symbol: Option<String>)
        requires
            self.covers(),
        ensures
            self.with_instrument(id, symbol).covers(),
    {
        let after = self.with_instrument(id, symbol);
        let fresh = BookView::empty(id);
        assert(index_covers(fresh));
        assert forall|x: u64| !holds(fresh, x) by {
        }
        assert forall|i: int| 0 <= i < after.listings.len() implies index_covers(
            (#[trigger] after.listings[i]).book,
        ) by {
            if i < self.listings.len() {
                assert(after.listings[i] == self.listings[i]);
            }
        }
        assert forall|i: int, x: u64|
            0 <= i < after.listings.len() && #[trigger] holds(
                after.listings[i].book,
                x,
            ) implies after.index.contains_key(x) && after.index[x] == after.listings[i].id by {
            if i < self.listings.len() {
                assert(after.listings[i] == self.listings[i]);
                assert(holds(self.listings[i].book, x));
            }
        }
    }

    /// Replacing the symbol of an instrument keeps the indexes covering the
    /// books.
    pub proof fn lemma_with_symbol_covers(self, id: InstrumentId, symbol: Option<String>)
        requires
            self.covers(),
            self.has(id),
        ensures
            self.with_symbol(id, symbol).covers(),
    {
        let after = self.with_symbol(id, symbol);
        let p = place_of(self.listings, id);
        lemma_place_of(self.listings, id);
        assert forall|i: int| 0 <= i < after.listings.len() implies index_covers(
            (#[trigger] after.listings[i]).book,
        ) by {
            assert(after.listings[i].book == self.listings[i].book);
        }
        assert forall|i: int, x: u64|
            0 <= i < after.listings.len() && #[trigger] holds(
                after.listings[i].book,
                x,
            ) implies after.index.contains_key(x) && after.index[x] == after.listings[i].id by {
            assert(after.listings[i].book == self.listings[i].book);
            assert(after.listings[i].id == self.listings[i].id);
            assert(holds(self.listings[i].book, x));
        }
    }

    /// Removing an instrument keeps the indexes covering the books.
    pub proof fn lemma_without_instrument_covers(self, id: InstrumentId)
        requires
            self.wf(),
            self.covers(),
            self.has(id),
        ensures
            self.without_instrument(id).covers(),
    {
        let after = self.without_instrument(id);
        let p = place_of(self.listings, id);
        lemma_place_of(self.listings, id);
        assert forall|i: int| 0 <= i < after.listings.len() implies index_covers(
            (#[trigger] after.listings[i]).book,
        ) by {
            assert(after.listings[i] == if i < p { self.listings[i] } else { self.listings[i + 1] });
        }
        assert forall|i: int, x: u64|
            0 <= i < after.listings.len() && #[trigger] holds(
                after.listings[i].book,
                x,
            ) implies after.index.contains_key(x) && after.index[x] == after.listings[i].id by {
            let old_i = if i < p {
                i
            } else {
                i + 1
            };
            assert(after.listings[i] == self.listings[old_i]);
            assert(holds(self.listings[old_i].book, x));
            assert(self.listings[old_i].id != self.listings[p].id);
        }
    }

    /// An engine without instruments, with both counters at 1.
    pub open spec fn fresh() -> MultiView {
        MultiView { listings: Seq::empty(), index: Map::empty(), next_trade_id: 1, next_exec_id: 1 }
    }
}

/// Multi-instrument matching engine. Holds one order book per instrument;
/// instruments can be added and removed. Order ids are global: cancel and
/// modify find the instrument of an order in an index.
#[derive(Debug)]
pub struct MultiEngine {
    listings: Vec<Listing>,
    order_to_instrument: HashMap<u64, InstrumentId>,
    next_trade_id: u64,
    next_exec_id: u64,
}

impl View for MultiEngine {
    type V = MultiView;

    closed spec fn view(&self) -> MultiView {
        MultiView {
            listings: self.listings@.map_values(|l: Listing| l@),
            index: self.order_to_instrument@,
            next_trade_id: self.next_trade_id,
            next_exec_id: self.next_exec_id,
        }
    }
}

/// A copy of an optional symbol.
fn copy_symbol(symbol: &Option<String>) -> (r: Option<String>)
    ensures
        r == *symbol,
{
    match symbol {
        Some(s) => Some(s.clone()),
        None => None,
    }
}

/// The keys of the index, each once, in the order in which the map hands
/// them out.
fn index_keys(index: &HashMap<u64, InstrumentId>) -> (keys: Vec<u64>)
    ensures
        keys@.no_duplicates(),
        keys@.to_set() == index@.dom(),
{
    let ghost all = vstd::std_specs::hash::spec_keys_iter(index).remaining().unref();
    let mut keys: Vec<u64> = Vec::new();
    proof {
        assert(keys@ =~= all.take(0));
    }
    for k in it: index.keys()
        invariant
            it.seq().unref() == all,
            keys@ == all.take(it.index()),
    {
        keys.push(*k);
        proof {
            assert(all[it.index()] == *it.seq()[it.index()]);
            assert(keys@ =~= all.take(it.index() + 1));
        }
    }
    proof {
        assert(keys@ =~= all);
        let refs = vstd::std_specs::hash::spec_keys_iter(index).remaining();
        assert forall|i: int, j: int| 0 <= i < all.len() && 0 <= j < all.len() && i != j implies all[i]
            != all[j] by {
            assert(refs[i] != refs[j]);
        }
    }
    keys
}

/// Takes out of the index the entries that name the instrument `id`.
fn purge(index: &mut HashMap<u64, InstrumentId>, id: InstrumentId)
    ensures
        final(index)@ == Map::new(
            |k: u64| old(index)@.contains_key(k) && old(index)@[k] != id,
            |k: u64| old(index)@[k],
        ),
{
    let keys = index_keys(index);
    let ghost before = index@;
    let mut i: usize = 0;
    proof {
        assert(index@ =~= Map::new(
            |k: u64| before.contains_key(k) && !(keys@.take(0).contains(k) && before[k] == id),
            |k: u64| before[k],
        ));
    }
    while i < keys.len()
        invariant
            i <= keys.len(),
            keys@.to_set() == before.dom(),
            index@ == Map::new(
                |k: u64| before.contains_key(k) && !(keys@.take(i as int).contains(k) && before[k] == id),
                |k: u64| before[k],
            ),
        decreases keys.len() - i,
    {
        let key = keys[i];
        let ghost here = index@;
        proof {
            assert(keys@.take(i as int + 1) =~= keys@.take(i as int).push(key));
            assert forall|k: u64| keys@.take(i as int + 1).contains(k) <==> (keys@.take(i as int).contains(k)
                || k == key) by {
                if keys@.take(i as int).contains(k) {
                    let j = choose|j: int| 0 <= j < i && keys@.take(i as int)[j] == k;
                    assert(keys@.take(i as int + 1)[j] == k);
                }
                if k == key {
                    assert(keys@.take(i as int + 1)[i as int] == k);
                }
            }
        }
        let stale = match index.get(&key) {
            Some(v) => *v == id,
            None => false,
        };
        if stale {
            let _ = index.remove(&key);
        }
        proof {
            assert(index@ =~= Map::new(
                |k: u64|
                    before.contains_key(k) && !(keys@.take(i as int + 1).contains(k) && before[k] == id),
                |k: u64| before[k],
            ));
        }
        i += 1;
    }
    proof {
        assert(keys@.take(keys.len() as int) =~= keys@);
        assert forall|k: u64| before.contains_key(k) implies keys@.contains(k) by {
            assert(keys@.to_set().contains(k));
        }
        assert(index@ =~= Map::new(
            |k: u64| before.contains_key(k) && before[k] != id,
            |k: u64| before[k],
        ));
    }
}

impl MultiEngine {
    /// No instrument is registered twice, each book is well formed and is
    /// the book of its instrument, and the index names registered
    /// instruments only.
    pub open spec fn wf(&self) -> bool {
        self@.wf()
    }

    /// The place of an instrument among the listings.
    fn find(&self, id: InstrumentId) -> (r: Option<usize>)
        ensures
            match r {
                Some(i) => i == place_of(self@.listings, id) && self@.has(id),
                None => !self@.has(id),
            },
    {
        let ghost all = self@.listings;
        let mut i: usize = 0;
        proof {
            assert(all.skip(0) =~= all);
        }
        while i < self.listings.len()
            invariant
                i <= self.listings.len(),
                all == self@.listings,
                place_of(all, id) == i + place_of(all.skip(i as int), id),
            decreases self.listings.len() - i,
        {
            proof {
                assert(all.skip(i as int).drop_first() =~= all.skip(i as int + 1));
                assert(all.skip(i as int)[0] == all[i as int]);
            }
            if self.listings[i].id == id {
                return Some(i);
            }
            i += 1;
        }
        None
    }

    /// An engine without instruments.
    fn empty() -> (engine: MultiEngine)
        ensures
            engine@ == MultiView::fresh(),
            engine.wf(),
            engine@.covers(),
            engine@.idle(),
    {
        let engine = MultiEngine {
            listings: Vec::new(),
            order_to_instrument: HashMap::new(),
            next_trade_id: 1,
            next_exec_id: 1,
        };
        proof {
            assert(engine@.listings =~= Seq::empty());
            assert(engine@.index =~= Map::empty());
        }
        engine
    }

    /// Registers an instrument with an empty book, or replaces the symbol
    /// of one that is registered.
    fn register(&mut self, id: InstrumentId, symbol: Option<String>)
        requires
            old(self).wf(),
        ensures
            final(self).wf(),
            final(self)@ == if old(self)@.has(id) {
                old(self)@.with_symbol(id, symbol)
            } else {
                old(self)@.with_instrument(id, symbol)
            },
            old(self)@.covers() ==> final(self)@.covers(),
            old(self)@.idle() ==> final(self)@.idle(),
    {
        let ghost before = self@;
        proof {
            lemma_place_of(before.listings, id);
            if before.covers() {
                if before.has(id) {
                    before.lemma_with_symbol_covers(id, symbol);
                } else {
                    before.lemma_with_instrument_covers(id, symbol);
                }
            }
        }
        match self.find(id) {
            Some(i) => {
                let listing = &mut self.listings[i];
                listing.meta = InstrumentMeta { symbol };
                proof {
                    assert(self@.listings =~= before.with_symbol(id, symbol).listings);
                    self.lemma_same_ids(before);
                }
            },
            None => {
                self.listings.push(Listing { id, meta: InstrumentMeta { symbol }, book: OrderBook::new(id) });
                proof {
                    let after = self@;
                    assert(after.listings =~= before.with_instrument(id, symbol).listings);
                    assert forall|i: int, j: int| 0 <= i < j < after.listings.len() implies (
                    #[trigger] after.listings[i]).id != (#[trigger] after.listings[j]).id by {
                        if j == before.listings.len() {
                            assert(after.listings[i] == before.listings[i]);
                        } else {
                            assert(after.listings[i] == before.listings[i]);
                            assert(after.listings[j] == before.listings[j]);
                        }
                    }
                    assert forall|i: int| 0 <= i < after.listings.len() implies (
                    #[trigger] after.listings[i]).book.wf() && after.listings[i].book.instrument_id
                        == after.listings[i].id by {
                        if i < before.listings.len() {
                            assert(after.listings[i] == before.listings[i]);
                        }
                    }
                    assert forall|k: u64| #[trigger] after.index.contains_key(k) implies after.has(
                        after.index[k],
                    ) by {
                        let target = before.index[k];
                        assert(before.has(target));
                        lemma_place_of(before.listings, target);
                        let p = place_of(before.listings, target);
                        assert(after.listings[p] == before.listings[p]);
                        lemma_place_is(after.listings, target, p);
                    }
                }
            },
        }
    }

    /// An engine whose listings have the ids of those of a well-formed
    /// engine, place by place, well-formed books, and the same index, is
    /// well formed.
    proof fn lemma_same_ids(&self, before: MultiView)
        requires
            before.wf(),
            self@.listings.len() == before.listings.len(),
            forall|i: int|
                0 <= i < before.listings.len() ==> (#[trigger] self@.listings[i]).id
                    == before.listings[i].id,
            forall|i: int|
                0 <= i < before.listings.len() ==> (#[trigger] self@.listings[i]).book.wf()
                    && self@.listings[i].book.instrument_id == self@.listings[i].id,
            forall|k: u64|
                #[trigger] self@.index.contains_key(k) ==> before.index.contains_key(k) && before.index[k]
                    == self@.index[k],
        ensures
            self.wf(),
    {
        let after = self@;
        assert forall|i: int, j: int| 0 <= i < j < after.listings.len() implies (
        #[trigger] after.listings[i]).id != (#[trigger] after.listings[j]).id by {
            assert(before.listings[i].id != before.listings[j].id);
        }
        assert forall|k: u64| #[trigger] after.index.contains_key(k) implies after.has(after.index[k]) by {
            let target = before.index[k];
            assert(before.has(target));
            lemma_place_of(before.listings, target);
            let p = place_of(before.listings, target);
            assert(after.listings[p].id == before.listings[p].id);
            lemma_place_is(after.listings, target, p);
        }
    }

    /// Creates a multi-instrument engine with the given initial instruments.
    /// Each entry is (instrument_id, optional symbol); a later entry for the
    /// same instrument replaces its symbol.
    pub fn new_with_instruments(initial: Vec<(InstrumentId, Option<String>)>) -> (engine: MultiEngine)
        ensures
            engine.wf(),
            engine@ == MultiView::fresh().registered(initial@),
            engine@.covers(),
            engine@.idle(),
    {
        let mut engine = MultiEngine::empty();
        let mut i: usize = 0;
        proof {
            assert(initial@.skip(0) =~= initial@);
        }
        while i < initial.len()
            invariant
                i <= initial.len(),
                engine.wf(),
                engine@.covers(),
                engine@.idle(),
                MultiView::fresh().registered(initial@) == engine@.registered(initial@.skip(i as int)),
            decreases initial.len() - i,
        {
            proof {
                assert(initial@.skip(i as int).drop_first() =~= initial@.skip(i as int + 1));
                assert(initial@.skip(i as int)[0] == initial@[i as int]);
            }
            let symbol = copy_symbol(&initial[i].1);
            engine.register(initial[i].0, symbol);
            i += 1;
        }
        engine
    }

    /// Add an instrument (new order book). Returns error if instrument already exists.
    pub fn add_instrument(&mut self, instrument_id: InstrumentId, symbol: Option<String>) -> (r: Result<
        (),
        EngineError,
    >)
        requires
            old(self).wf(),
        ensures
            final(self).wf(),
            old(self)@.has(instrument_id) ==> r == Err::<(), EngineError>(
                EngineError::DuplicateInstrument,
            ) && final(self)@ == old(self)@,
            !old(self)@.has(instrument_id) ==> r is Ok && final(self)@ == old(self)@.with_instrument(
                instrument_id,
                symbol,
            ),
            old(self)@.covers() ==> final(self)@.covers(),
    {
        proof {
            if old(self)@.covers() {
                old(self)@.lemma_with_instrument_covers(instrument_id, symbol);
            }
        }
        if self.find(instrument_id).is_some() {
            return Err(EngineError::DuplicateInstrument);
        }
        self.register(instrument_id, symbol);
        Ok(())
    }

    /// Remove an instrument, its book and the index entries that name it.
    /// Returns an error if the instrument is not registered or its book has
    /// resting orders; nothing changes then.
    pub fn remove_instrument(&mut self, instrument_id: InstrumentId) -> (r: Result<(), EngineError>)
        requires
            old(self).wf(),
        ensures
            final(self).wf(),
            match old(self)@.removal_refusal(instrument_id) {
                Some(e) => r == Err::<(), EngineError>(e) && final(self)@ == old(self)@,
                None => r is Ok && final(self)@ == old(self)@.without_instrument(instrument_id),
            },
            old(self)@.covers() ==> final(self)@.covers(),
    {
        let ghost before = self@;
        proof {
            if before.covers() && before.has(instrument_id) {
                before.lemma_without_instrument_covers(instrument_id);
            }
        }
        let i = match self.find(instrument_id) {
            Some(i) => i,
            None => {
                return Err(EngineError::UnknownInstrument);
            },
        };
        if self.listings[i].book.has_resting_orders() {
            return Err(EngineError::InstrumentInUse);
        }
        let _ = self.listings.remove(i);
        purge(&mut self.order_to_instrument, instrument_id);
        proof {
            let after = self@;
            lemma_place_of(before.listings, instrument_id);
            assert(after.listings =~= before.listings.remove(i as int));
            assert(after.index =~= before.without_instrument(instrument_id).index);
            assert forall|a: int, b: int| 0 <= a < b < after.listings.len() implies (
            #[trigger] after.listings[a]).id != (#[trigger] after.listings[b]).id by {
                assert(after.listings[a] == if a < i { before.listings[a] } else { before.listings[a + 1] });
                assert(after.listings[b] == if b < i { before.listings[b] } else { before.listings[b + 1] });
            }
            assert forall|a: int| 0 <= a < after.listings.len() implies (
            #[trigger] after.listings[a]).book.wf() && after.listings[a].book.instrument_id
                == after.listings[a].id by {
                assert(after.listings[a] == if a < i { before.listings[a] } else { before.listings[a + 1] });
            }
            assert forall|k: u64| #[trigger] after.index.contains_key(k) implies after.has(after.index[k]) by {
                let target = before.index[k];
                assert(before.index.contains_key(k));
                assert(before.has(target));
                lemma_place_of(before.listings, target);
                let p = place_of(before.listings, target);
                let q = if p < i { p } else { p - 1 };
                assert(after.listings[q] == before.listings[p]);
                lemma_place_is(after.listings, target, q);
            }
        }
        Ok(())
    }

    /// Snapshot of engine state for persistence: the instruments in the
    /// order of their registration, the resting orders of each book in
    /// priority order, the index entries in no particular order, and the
    /// counters. Restore it with [`MultiEngine::load_from_snapshot`].
    pub fn snapshot(&self) -> (snap: EngineSnapshot)
        ensures
            snap.instruments@ == self@.listed(),
            books_view(snap.books@) == self@.resting(),
            entry_keys(snap.order_to_instrument@).no_duplicates(),
            entry_keys(snap.order_to_instrument@).to_set() == self@.index.dom(),
            forall|i: int|
                0 <= i < snap.order_to_instrument@.len() ==> self@.index.contains_key(
                    (#[trigger] snap.order_to_instrument@[i]).0.0,
                ) && self@.index[snap.order_to_instrument@[i].0.0] == snap.order_to_instrument@[i].1,
            snap.next_trade_id == self@.next_trade_id,
            snap.next_exec_id == self@.next_exec_id,
            self.wf() && self@.covers() ==> snapshot_distinct(books_view(snap.books@)),
    {
        proof {
            if self.wf() && self@.covers() {
                crate::round_trip::lemma_snapshot_distinct(self@);
            }
        }
        let instruments = self.list_instruments();
        let mut books: Vec<(InstrumentId, Vec<RestingOrder>)> = Vec::new();
        let mut i: usize = 0;
        proof {
            assert(books_view(books@) =~= self@.resting().take(0));
        }
        while i < self.listings.len()
            invariant
                i <= self.listings.len(),
                books.len() == i,
                books_view(books@) == self@.resting().take(i as int),
            decreases self.listings.len() - i,
        {
            let resting = self.listings[i].book.resting_orders_snapshot();
            let ghost before = books@;
            books.push((self.listings[i].id, resting));
            proof {
                assert(self@.listings[i as int] == self.listings[i as int]@);
                assert forall|k: int| 0 <= k < i implies books_view(books@)[k] == self@.resting()[k] by {
                    assert(books@[k] == before[k]);
                    assert(books_view(before)[k] == self@.resting().take(i as int)[k]);
                }
                assert(books_view(books@)[i as int] == self@.resting()[i as int]);
                assert(books_view(books@) =~= self@.resting().take(i as int + 1));
            }
            i += 1;
        }
        proof {
            assert(self@.resting().take(self.listings.len() as int) =~= self@.resting());
        }
        let keys = index_keys(&self.order_to_instrument);
        let mut pairs: Vec<(OrderId, InstrumentId)> = Vec::new();
        let mut j: usize = 0;
        proof {
            assert(entry_keys(pairs@) =~= keys@.take(0));
        }
        while j < keys.len()
            invariant
                j <= keys.len(),
                pairs.len() == j,
                keys@.to_set() == self@.index.dom(),
                entry_keys(pairs@) == keys@.take(j as int),
                forall|i: int|
                    0 <= i < pairs@.len() ==> self@.index.contains_key((#[trigger] pairs@[i]).0.0)
                        && self@.index[pairs@[i].0.0] == pairs@[i].1,
            decreases keys.len() - j,
        {
            let key = keys[j];
            proof {
                assert(keys@.to_set().contains(key));
            }
            let target = match self.order_to_instrument.get(&key) {
                Some(v) => *v,
                None => InstrumentId(0),
            };
            let ghost before = pairs@;
            pairs.push((OrderId(key), target));
            proof {
                assert forall|i: int| 0 <= i < j implies entry_keys(pairs@)[i] == keys@[i] by {
                    assert(pairs@[i] == before[i]);
                    assert(entry_keys(before)[i] == keys@.take(j as int)[i]);
                }
                assert(entry_keys(pairs@) =~= keys@.take(j as int + 1));
                assert forall|i: int| 0 <= i < pairs@.len() implies self@.index.contains_key(
                    (#[trigger] pairs@[i]).0.0,
                ) && self@.index[pairs@[i].0.0] == pairs@[i].1 by {
                    if i < j {
                        assert(pairs@[i] == before[i]);
                    }
                }
            }
            j += 1;
        }
        proof {
            assert(keys@.take(keys.len() as int) =~= keys@);
        }
        EngineSnapshot {
            instruments,
            books,
            order_to_instrument: pairs,
            next_trade_id: self.next_trade_id,
            next_exec_id: self.next_exec_id,
        }
    }

    /// Restore engine from a snapshot. Replaces the current state: the
    /// instruments of the snapshot are registered in a fresh engine, the
    /// resting orders of each book come to rest in the order given, which
    /// becomes their time priority, the index is rebuilt from them, and the
    /// counters are taken over. On any error the engine stays as it was.
    pub fn load_from_snapshot(&mut self, snap: EngineSnapshot) -> (r: Result<(), EngineError>)
        requires
            old(self).wf(),
        ensures
            final(self).wf(),
            match MultiView::restored(
                snap.instruments@,
                books_view(snap.books@),
                snap.next_trade_id,
                snap.next_exec_id,
            ) {
                Ok(engine) => r is Ok && final(self)@ == engine,
                Err(e) => r == Err::<(), EngineError>(e) && final(self)@ == old(self)@,
            },
            snapshot_distinct(books_view(snap.books@)) && r is Ok ==> final(self)@.covers(),
    {
        let ghost given = snap;
        let ghost all = books_view(snap.books@);
        let ghost start = MultiView::fresh().registered(snap.instruments@);
        let next_trade_id = snap.next_trade_id;
        let next_exec_id = snap.next_exec_id;
        let books = snap.books;
        let mut fresh = MultiEngine::new_with_instruments(snap.instruments);
        let mut i: usize = 0;
        proof {
            assert(all.skip(0) =~= all);
            assert forall|x: u64| fresh@.rests_nowhere(x) by {
                assert forall|a: int| 0 <= a < fresh@.listings.len() implies !holds(
                    (#[trigger] fresh@.listings[a]).book,
                    x,
                ) by {
                }
            }
        }
        while i < books.len()
            invariant
                i <= books.len(),
                fresh.wf(),
                self.wf(),
                *self == *old(self),
                given == snap,
                books == given.books,
                all == books_view(books@),
                start == MultiView::fresh().registered(given.instruments@),
                start.loaded(all) == fresh@.loaded(all.skip(i as int)),
                snapshot_distinct(all) ==> fresh@.covers() && forall|b: int, x: u64|
                    i <= b < all.len() && #[trigger] ids_listed(all[b].1, x) ==> fresh@.rests_nowhere(x),
            decreases books.len() - i,
        {
            proof {
                assert(all.skip(i as int).drop_first() =~= all.skip(i as int + 1));
                assert(all.skip(i as int)[0] == all[i as int]);
            }
            let id = books[i].0;
            let place = match fresh.find(id) {
                Some(place) => place,
                None => {
                    return Err(EngineError::UnknownInstrument);
                },
            };
            let ghost before = fresh@;
            proof {
                assert(all[i as int].1 == books[i as int].1@);
                if snapshot_distinct(all) {
                    assert(ids_distinct(all[i as int].1));
                    assert forall|x: u64| ids_listed(books[i as int].1@, x) implies before.rests_nowhere(
                        x,
                    ) by {
                        assert(ids_listed(all[i as int].1, x));
                    }
                }
            }
            match fresh.load_book(place, id, &books[i].1) {
                Ok(()) => {},
                Err(e) => {
                    return Err(e);
                },
            }
            proof {
                if snapshot_distinct(all) {
                    assert forall|b: int, x: u64|
                        i + 1 <= b < all.len() && #[trigger] ids_listed(all[b].1, x) implies fresh@.rests_nowhere(
                        x,
                    ) by {
                        assert(before.rests_nowhere(x));
                        assert(!ids_listed(all[i as int].1, x));
                        assert forall|a: int| 0 <= a < fresh@.listings.len() implies !holds(
                            (#[trigger] fresh@.listings[a]).book,
                            x,
                        ) by {
                            if holds(fresh@.listings[a].book, x) {
                                assert(before.listings[a].id == fresh@.listings[a].id);
                            }
                        }
                    }
                }
            }
            i += 1;
        }
        let ghost done = fresh@;
        fresh.next_trade_id = next_trade_id;
        fresh.next_exec_id = next_exec_id;
        proof {
            assert(fresh@.listings =~= done.listings);
            fresh.lemma_same_ids(done);
        }
        *self = fresh;
        Ok(())
    }

    /// Clears the book of the listing at place `i`, lets the resting orders
    /// come to rest in it, and indexes them. Where the book refuses one,
    /// the error is returned and the engine is of no further use.
    fn load_book(&mut self, i: usize, id: InstrumentId, resting: &Vec<RestingOrder>) -> (r: Result<
        (),
        EngineError,
    >)
        requires
            old(self).wf(),
            old(self)@.has(id),
            i == place_of(old(self)@.listings, id),
        ensures
            match crate::order_book::first_refusal(id, resting@) {
                Some(e) => r == Err::<(), EngineError>(e),
                None => r is Ok && final(self).wf() && final(self)@ == old(self)@.with_loaded(
                    id,
                    resting@,
                ),
            },
            r is Ok ==> final(self)@.listings.len() == old(self)@.listings.len(),
            r is Ok ==> forall|a: int|
                0 <= a < old(self)@.listings.len() ==> (#[trigger] final(self)@.listings[a]).id
                    == old(self)@.listings[a].id,
            r is Ok && old(self)@.covers() && ids_distinct(resting@) && (forall|x: u64|
                ids_listed(resting@, x) ==> #[trigger] old(self)@.rests_nowhere(x)) ==> final(self)@.covers()
                && forall|a: int, x: u64|
                0 <= a < final(self)@.listings.len() && #[trigger] holds(final(self)@.listings[a].book, x)
                    ==> ids_listed(resting@, x) || holds(old(self)@.listings[a].book, x),
    {
        let ghost before = self@;
        let ghost sound = before.covers() && ids_distinct(resting@) && (forall|x: u64|
            ids_listed(resting@, x) ==> #[trigger] before.rests_nowhere(x));
        proof {
            lemma_place_of(before.listings, id);
        }
        let listing = &mut self.listings[i];
        match listing.book.load_resting_orders(resting.as_slice(), OrderType::Limit, TimeInForce::GTC) {
            Ok(()) => {},
            Err(e) => {
                return Err(e);
            },
        }
        proof {
            assert(self@.listings =~= before.with_book(id, BookView::empty(id).loaded(resting@)).listings);
            self.lemma_same_ids(before);
            lemma_place_is(self@.listings, id, i as int);
            assert(resting@.skip(0) =~= resting@);
        }
        let ghost loaded = self@;
        proof {
            if sound {
                assert forall|a: int| 0 <= a < loaded.listings.len() implies index_covers(
                    (#[trigger] loaded.listings[a]).book,
                ) by {
                    if a != i {
                        assert(loaded.listings[a] == before.listings[a]);
                    }
                }
                assert forall|a: int, x: u64|
                    0 <= a < loaded.listings.len() && #[trigger] holds(
                        loaded.listings[a].book,
                        x,
                    ) implies if a == i {
                    ids_listed(resting@, x) && ((exists|n: int|
                        0 <= n < resting.len() && (#[trigger] resting@[n]).order_id.0 == x) || (
                    loaded.index.contains_key(x) && loaded.index[x] == id))
                } else {
                    !ids_listed(resting@, x) && loaded.index.contains_key(x) && loaded.index[x]
                        == loaded.listings[a].id
                } by {
                    if a != i {
                        assert(loaded.listings[a] == before.listings[a]);
                        assert(holds(before.listings[a].book, x));
                        if ids_listed(resting@, x) {
                            assert(before.rests_nowhere(x));
                        }
                    }
                }
            }
        }
        let mut j: usize = 0;
        while j < resting.len()
            invariant
                j <= resting.len(),
                self.wf(),
                self@.has(id),
                self@.listings == loaded.listings,
                self@.next_trade_id == loaded.next_trade_id,
                self@.next_exec_id == loaded.next_exec_id,
                indexed(loaded.index, resting@, id) == indexed(self@.index, resting@.skip(j as int), id),
                i == place_of(loaded.listings, id),
                loaded.listings[i as int].id == id,
                sound ==> forall|a: int| 0 <= a < loaded.listings.len() ==> index_covers(
                    (#[trigger] loaded.listings[a]).book,
                ),
                sound ==> forall|a: int, x: u64|
                    0 <= a < loaded.listings.len() && #[trigger] holds(loaded.listings[a].book, x) ==> if a
                        == i {
                        ids_listed(resting@, x) && ((exists|n: int|
                            j <= n < resting.len() && (#[trigger] resting@[n]).order_id.0 == x)
                            || (self@.index.contains_key(x) && self@.index[x] == id))
                    } else {
                        !ids_listed(resting@, x) && self@.index.contains_key(x) && self@.index[x]
                            == loaded.listings[a].id
                    },
            decreases resting.len() - j,
        {
            let ghost here = self@;
            proof {
                assert(resting@.skip(j as int).drop_first() =~= resting@.skip(j as int + 1));
                assert(resting@.skip(j as int)[0] == resting@[j as int]);
            }
            self.order_to_instrument.insert(resting[j].order_id.0, id);
            proof {
                assert(self@.listings =~= here.listings);
                assert forall|k: u64| #[trigger] self@.index.contains_key(k) implies self@.has(
                    self@.index[k],
                ) by {
                    if k != resting[j as int].order_id.0 {
                        assert(here.index.contains_key(k));
                    }
                }
                if sound {
                    assert forall|a: int, x: u64|
                        0 <= a < loaded.listings.len() && #[trigger] holds(
                            loaded.listings[a].book,
                            x,
                        ) implies if a == i {
                        ids_listed(resting@, x) && ((exists|n: int|
                            j + 1 <= n < resting.len() && (#[trigger] resting@[n]).order_id.0 == x)
                            || (self@.index.contains_key(x) && self@.index[x] == id))
                    } else {
                        !ids_listed(resting@, x) && self@.index.contains_key(x) && self@.index[x]
                            == loaded.listings[a].id
                    } by {
                        if a == i {
                            if !(here.index.contains_key(x) && here.index[x] == id) {
                                let n = choose|n: int|
                                    j <= n < resting.len() && (#[trigger] resting@[n]).order_id.0 == x;
                                if n != j {
                                    assert(resting@[n].order_id.0 == x);
                                }
                            }
                        } else {
                            assert(resting@[j as int].order_id.0 != x) by {
                                if resting@[j as int].order_id.0 == x {
                                    assert(ids_listed(resting@, x));
                                }
                            }
                        }
                    }
                }
            }
            j += 1;
        }
        proof {
            if sound {
                assert forall|a: int, x: u64|
                    0 <= a < self@.listings.len() && #[trigger] holds(
                        self@.listings[a].book,
                        x,
                    ) implies self@.index.contains_key(x) && self@.index[x] == self@.listings[a].id by {
                    assert(holds(loaded.listings[a].book, x));
                }
                assert forall|a: int, x: u64|
                    0 <= a < self@.listings.len() && #[trigger] holds(
                        self@.listings[a].book,
                        x,
                    ) implies ids_listed(resting@, x) || holds(before.listings[a].book, x) by {
                    assert(holds(loaded.listings[a].book, x));
                    if a != i {
                        assert(loaded.listings[a] == before.listings[a]);
                    }
                }
            }
        }
        Ok(())
    }

    /// List instruments with optional symbol, in the order of their registration.
    pub fn list_instruments(&self) -> (out: Vec<(InstrumentId, Option<String>)>)
        ensures
            out@ == self@.listed(),
    {
        let mut out: Vec<(InstrumentId, Option<String>)> = Vec::new();
        let mut i: usize = 0;
        while i < self.listings.len()
            invariant
                i <= self.listings.len(),
                out@ == Seq::new(i as nat, |k: int| (self@.listings[k].id, self@.listings[k].symbol)),
            decreases self.listings.len() - i,
        {
            out.push((self.listings[i].id, copy_symbol(&self.listings[i].meta.symbol)));
            proof {
                assert(out@ =~= Seq::new(
                    (i + 1) as nat,
                    |k: int| (self@.listings[k].id, self@.listings[k].symbol),
                ));
            }
            i += 1;
        }
        out
    }

    /// The registered instruments, in the order of their registration.
    pub fn instruments(&self) -> (out: Vec<InstrumentId>)
        ensures
            out@ == Seq::new(self@.listings.len(), |i: int| self@.listings[i].id),
    {
        let mut out: Vec<InstrumentId> = Vec::new();
        let mut i: usize = 0;
        while i < self.listings.len()
            invariant
                i <= self.listings.len(),
                out@ == Seq::new(i as nat, |k: int| self@.listings[k].id),
            decreases self.listings.len() - i,
        {
            out.push(self.listings[i].id);
            proof {
                assert(out@ =~= Seq::new((i + 1) as nat, |k: int| self@.listings[k].id));
            }
            i += 1;
        }
        out
    }

    /// Top-of-book snapshot for a given instrument. Returns `None` if the
    /// instrument is not registered.
    pub fn book_snapshot_for(&self, id: InstrumentId) -> (r: Option<BookSnapshot>)
        ensures
            r == if self@.has(id) {
                Some(
                    BookSnapshot {
                        instrument_id: id,
                        best_bid: self@.book(id).best_bid(),
                        best_ask: self@.book(id).best_ask(),
                    },
                )
            } else {
                None
            },
    {
        match self.find(id) {
            Some(i) => Some(
                BookSnapshot {
                    instrument_id: id,
                    best_bid: self.listings[i].book.best_bid(),
                    best_ask: self.listings[i].book.best_ask(),
                },
            ),
            None => None,
        }
    }

    /// Submit an order to the book of its instrument; returns trades and
    /// execution reports. An order for an instrument that is not
    /// registered, a limit order without a price, a market order with one,
    /// and a quantity that is not above zero are refused, and the engine
    /// stays as it was.
    pub fn submit_order(&mut self, order: Order) -> (r: Result<(Vec<Trade>, Vec<ExecutionReport>), EngineError>)
        requires
            old(self).wf(),
        ensures
            final(self).wf(),
            match old(self)@.refusal(order) {
                Some(e) => r == Err::<(Vec<Trade>, Vec<ExecutionReport>), EngineError>(e) && final(self)@
                    == old(self)@,
                None => {
                    let m = matched(
                        old(self)@.book(order.instrument_id),
                        order,
                        old(self)@.next_trade_id,
                        old(self)@.next_exec_id,
                    );
                    &&& r is Ok
                    &&& r->Ok_0.0@ == m.trades
                    &&& r->Ok_0.1@ == m.reports
                    &&& final(self)@ == old(self)@.submitted(order)
                    &&& price_law(old(self)@.book(order.instrument_id), order, m)
                    &&& forall|k: nat| #[trigger]
                        old(self)@.book(order.instrument_id).sound(k) && order.quantity@.fits_scale(k)
                            ==> match_law(old(self)@.book(order.instrument_id), order, m, k)
                },
            },
            old(self)@.covers() && old(self)@.rests_nowhere(order.order_id.0) ==> final(self)@.covers(),
    {
        proof {
            if old(self)@.covers() && old(self)@.rests_nowhere(order.order_id.0) && old(self)@.refusal(
                order,
            ) is None {
                old(self)@.lemma_submitted_covers(order);
            }
        }
        let i = match self.find(order.instrument_id) {
            Some(i) => i,
            None => {
                return Err(EngineError::UnknownInstrument);
            },
        };
        if !order.is_well_formed() {
            return Err(EngineError::InvalidOrder);
        }
        let (trades, reports) = self.run(i, &order);
        if reports[reports.len() - 1].remaining_quantity.positive() {
            let ghost before = self@;
            self.order_to_instrument.insert(order.order_id.0, order.instrument_id);
            proof {
                assert(self@.listings =~= before.listings);
                assert forall|k: u64| #[trigger] self@.index.contains_key(k) implies self@.has(
                    self@.index[k],
                ) by {
                    if k != order.order_id.0 {
                        assert(before.index.contains_key(k));
                    }
                }
            }
        }
        Ok((trades, reports))
    }

    /// Matches an order on the book of the listing at place `i` and moves
    /// the counters on.
    fn run(&mut self, i: usize, order: &Order) -> (r: (Vec<Trade>, Vec<ExecutionReport>))
        requires
            old(self).wf(),
            old(self)@.has(order.instrument_id),
            i == place_of(old(self)@.listings, order.instrument_id),
        ensures
            final(self).wf(),
            final(self)@.has(order.instrument_id),
            r.1@.len() > 0,
            ({
                let m = matched(
                    old(self)@.book(order.instrument_id),
                    *order,
                    old(self)@.next_trade_id,
                    old(self)@.next_exec_id,
                );
                &&& r.0@ == m.trades
                &&& r.1@ == m.reports
                &&& final(self)@ == (MultiView {
                    next_trade_id: id_at(old(self)@.next_trade_id, m.trades.len() as int),
                    next_exec_id: id_at(old(self)@.next_exec_id, m.reports.len() as int),
                    ..old(self)@.with_book(order.instrument_id, m.book)
                })
                &&& price_law(old(self)@.book(order.instrument_id), *order, m)
                &&& forall|k: nat| #[trigger]
                    old(self)@.book(order.instrument_id).sound(k) && order.quantity.sound(k) ==> match_law(
                        old(self)@.book(order.instrument_id),
                        *order,
                        m,
                        k,
                    )
            }),
    {
        let ghost before = self@;
        let next_trade_id = self.next_trade_id;
        let next_exec_id = self.next_exec_id;
        proof {
            lemma_place_of(before.listings, order.instrument_id);
            assert(before.listings[i as int].book.wf());
        }
        let listing = &mut self.listings[i];
        let (trades, reports) = match_order(&mut listing.book, order, next_trade_id, next_exec_id);
        self.next_trade_id = next_trade_id.wrapping_add(trades.len() as u64);
        self.next_exec_id = next_exec_id.wrapping_add(reports.len() as u64);
        proof {
            let m = matched(before.book(order.instrument_id), *order, next_trade_id, next_exec_id);
            assert(self@.listings =~= before.with_book(order.instrument_id, m.book).listings);
            self.lemma_same_ids(before);
            lemma_place_is(self@.listings, order.instrument_id, i as int);
        }
        (trades, reports)
    }

    /// Cancel a resting order by id. Returns `Some(instrument_id)` if the
    /// index knew the order and it was removed from the book of that
    /// instrument, `None` if not; nothing changes then.
    pub fn cancel_order(&mut self, order_id: OrderId) -> (r: Option<InstrumentId>)
        requires
            old(self).wf(),
        ensures
            final(self).wf(),
            r == if old(self)@.cancels(order_id) {
                Some(old(self)@.index[order_id.0])
            } else {
                None
            },
            final(self)@ == if old(self)@.cancels(order_id) {
                old(self)@.canceled(order_id)
            } else {
                old(self)@
            },
            old(self)@.covers() ==> final(self)@.covers(),
            old(self)@.covers() && r is Some ==> final(self)@.rests_nowhere(order_id.0),
    {
        proof {
            if old(self)@.covers() && old(self)@.cancels(order_id) {
                old(self)@.lemma_canceled_covers(order_id);
            }
        }
        let instrument = match self.order_to_instrument.get(&order_id.0) {
            Some(id) => *id,
            None => {
                return None;
            },
        };
        let i = match self.find(instrument) {
            Some(i) => i,
            None => {
                return None;
            },
        };
        if self.withdraw(i, instrument, order_id) {
            Some(instrument)
        } else {
            None
        }
    }

    /// Cancels an order in the book of the listing at place `i`, and takes
    /// it out of the index if the book knew it.
    fn withdraw(&mut self, i: usize, instrument: InstrumentId, order_id: OrderId) -> (r: bool)
        requires
            old(self).wf(),
            old(self)@.index.contains_key(order_id.0),
            old(self)@.index[order_id.0] == instrument,
            old(self)@.has(instrument),
            i == place_of(old(self)@.listings, instrument),
        ensures
            final(self).wf(),
            r == old(self)@.cancels(order_id),
            final(self)@ == if r {
                old(self)@.canceled(order_id)
            } else {
                old(self)@
            },
    {
        let ghost before = self@;
        proof {
            lemma_place_of(before.listings, instrument);
            assert(before.listings[i as int].book.wf());
        }
        let listing = &mut self.listings[i];
        let removed = listing.book.cancel_order(order_id);
        if removed {
            self.order_to_instrument.remove(&order_id.0);
            proof {
                assert(self@.listings =~= before.canceled(order_id).listings);
                assert(self@.index =~= before.index.remove(order_id.0));
                self.lemma_same_ids(before);
            }
        } else {
            proof {
                assert(self@.listings =~= before.listings);
            }
        }
        removed
    }

    /// Modify: cancel by `order_id`, then match the replacement, which must
    /// be for the instrument of the order. Returns trades and reports. The
    /// old id leaves the index; the replacement is indexed where the report
    /// to it shows a remaining quantity above zero. Where the modification
    /// is refused, the engine stays as it was.
    pub fn modify_order(&mut self, order_id: OrderId, replacement: &Order) -> (r: Result<
        (Vec<Trade>, Vec<ExecutionReport>),
        EngineError,
    >)
        requires
            old(self).wf(),
        ensures
            final(self).wf(),
            match old(self)@.modify_refusal(order_id, *replacement) {
                Some(e) => r == Err::<(Vec<Trade>, Vec<ExecutionReport>), EngineError>(e) && final(self)@
                    == old(self)@,
                None => {
                    let at = old(self)@.canceled(order_id);
                    let m = matched(
                        at.book(replacement.instrument_id),
                        *replacement,
                        at.next_trade_id,
                        at.next_exec_id,
                    );
                    &&& r is Ok
                    &&& r->Ok_0.0@ == m.trades
                    &&& r->Ok_0.1@ == m.reports
                    &&& final(self)@ == at.submitted(*replacement)
                    &&& price_law(at.book(replacement.instrument_id), *replacement, m)
                    &&& forall|k: nat| #[trigger]
                        at.book(replacement.instrument_id).sound(k) && replacement.quantity@.fits_scale(k)
                            ==> match_law(at.book(replacement.instrument_id), *replacement, m, k)
                },
            },
            old(self)@.covers() && (replacement.order_id == order_id || old(self)@.rests_nowhere(
                replacement.order_id.0,
            )) ==> final(self)@.covers(),
    {
        let instrument = match self.order_to_instrument.get(&order_id.0) {
            Some(id) => *id,
            None => {
                return Err(EngineError::UnknownOrder);
            },
        };
        if replacement.instrument_id != instrument {
            return Err(EngineError::InstrumentMismatch);
        }
        if !replacement.is_well_formed() {
            return Err(EngineError::InvalidOrder);
        }
        let i = match self.find(instrument) {
            Some(i) => i,
            None => {
                return Err(EngineError::UnknownOrder);
            },
        };
        if !self.withdraw(i, instrument, order_id) {
            return Err(EngineError::UnknownOrder);
        }
        proof {
            let at = old(self)@.canceled(order_id);
            lemma_place_of(old(self)@.listings, instrument);
            assert(at.listings[i as int].id == instrument);
            lemma_place_is(at.listings, instrument, i as int);
            if old(self)@.covers() && (replacement.order_id == order_id || old(self)@.rests_nowhere(
                replacement.order_id.0,
            )) {
                old(self)@.lemma_canceled_covers(order_id);
                assert(at.rests_nowhere(replacement.order_id.0)) by {
                    if replacement.order_id != order_id {
                        assert forall|a: int| 0 <= a < at.listings.len() implies !holds(
                            (#[trigger] at.listings[a]).book,
                            replacement.order_id.0,
                        ) by {
                            if a != i {
                                assert(at.listings[a] == old(self)@.listings[a]);
                            } else {
                                crate::book_index::lemma_canceled_covers(
                                    old(self)@.listings[a].book,
                                    order_id,
                                );
                            }
                        }
                    }
                }
                at.lemma_submitted_covers(*replacement);
            }
        }
        let (trades, reports) = self.run(i, replacement);
        if reports[reports.len() - 1].remaining_quantity.positive() {
            let ghost before = self@;
            self.order_to_instrument.insert(replacement.order_id.0, replacement.instrument_id);
            proof {
                assert(self@.listings =~= before.listings);
                assert forall|k: u64| #[trigger] self@.index.contains_key(k) implies self@.has(
                    self@.index[k],
                ) by {
                    if k != replacement.order_id.0 {
                        assert(before.index.contains_key(k));
                    }
                }
            }
        }
        Ok((trades, reports))
    }
}

} // verus!
