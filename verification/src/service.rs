//! The registry of markets and the single entry point for orders.

use crate::clock::now_millis;
use crate::engine::Engine;
use crate::model::{
    all_resting, apply_model, book_has, cancel_model, lemma_side_has_iff, order_valid, owned_by,
    resting_orders, BookView,
};
use crate::orderbook::{best_or_mid_model, rejection};
use crate::text::{ascii_lowercase, lower_model, IdSet};
use crate::types::{
    detail_of, detail_views, event_views, order_views, Applied, BookSnapshot, Order, OrderError,
    OrderView, Price,
};
use vstd::prelude::*;

verus! {

/// One market: its identifier in lower case, and its engine.
pub struct Market {
    pub id: String,
    pub engine: Engine,
}

/// The mathematical value of a [`Market`].
pub struct MarketView {
    pub id: Seq<char>,
    pub book: BookView,
}

impl View for Market {
    type V = MarketView;

    open spec fn view(&self) -> MarketView {
        MarketView { id: self.id@, book: self.engine@ }
    }
}

/// The views of a sequence of markets, in the same order.
pub open spec fn market_views(markets: Seq<Market>) -> Seq<MarketView> {
    markets.map_values(|m: Market| m@)
}

/// The mathematical value of an [`OrderBookService`]: its markets in the
/// order of their creation, and the ids of the orders ever submitted.
pub struct ServiceView {
    pub markets: Seq<MarketView>,
    pub seen: Set<Seq<char>>,
}

impl ServiceView {
    /// A market with this identifier exists.
    pub open spec fn has_market(self, id: Seq<char>) -> bool {
        exists|i: int| 0 <= i < self.markets.len() && (#[trigger] self.markets[i]).id == id
    }

    /// The place of the market with this identifier.
    pub open spec fn market_index(self, id: Seq<char>) -> int {
        choose|i: int| 0 <= i < self.markets.len() && (#[trigger] self.markets[i]).id == id
    }

    /// The book of the market with this identifier.
    pub open spec fn book_of(self, id: Seq<char>) -> BookView {
        self.markets[self.market_index(id)].book
    }

    /// The market at place `i` holds a resting order with this id.
    pub open spec fn rests_in(self, i: int, tx: Seq<char>) -> bool {
        0 <= i < self.markets.len() && book_has(self.markets[i].book, tx)
    }

    /// No two resting orders share an id, anywhere in the service, and the
    /// id of every resting order was recorded when it was submitted.
    pub open spec fn ids_wf(self) -> bool {
        &&& forall|i: int|
            0 <= i < self.markets.len() ==> (#[trigger] self.markets[i]).book.ids_unique()
        &&& forall|i: int, tx: Seq<char>| #[trigger] self.rests_in(i, tx) ==> self.seen.contains(tx)
        &&& forall|i: int, j: int, tx: Seq<char>|
            #[trigger] self.rests_in(i, tx) && #[trigger] self.rests_in(j, tx) ==> i == j
    }

    /// Every book is at rest, no two markets share an identifier, and no
    /// two resting orders share an id.
    pub open spec fn wf(self) -> bool {
        &&& forall|i: int|
            0 <= i < self.markets.len() ==> (#[trigger] self.markets[i]).book.wf()
                && self.markets[i].book.uncrossed()
        &&& forall|i: int, j: int|
            0 <= i < j < self.markets.len() ==> (#[trigger] self.markets[i]).id != (
            #[trigger] self.markets[j]).id
        &&& self.ids_wf()
    }

    /// The service with another book for the market with this identifier.
    pub open spec fn with_book(self, id: Seq<char>, book: BookView) -> ServiceView {
        ServiceView {
            markets: self.markets.update(self.market_index(id), MarketView { id, book }),
            seen: self.seen,
        }
    }
}

/// The order as the engine holds it: its market identifier in lower case.
pub open spec fn canonical(o: OrderView) -> OrderView {
    OrderView { market_id: lower_model(o.market_id), ..o }
}

/// What a submission does to the service. An id that was submitted before
/// changes nothing. A new id is recorded, whatever becomes of the order;
/// then the order is applied to the book of its market, where that market
/// exists and the order may enter a book.
pub open spec fn submit_model(s: ServiceView, o: OrderView) -> ServiceView {
    let market = lower_model(o.market_id);
    if s.seen.contains(o.tx_id) {
        s
    } else {
        let recorded = ServiceView { markets: s.markets, seen: s.seen.insert(o.tx_id) };
        if s.has_market(market) && order_valid(o) {
            recorded.with_book(market, apply_model(s.book_of(market), canonical(o)).book)
        } else {
            recorded
        }
    }
}

/// What a cancellation does to the service.
pub open spec fn cancel_order_model(
    s: ServiceView,
    market_id: Seq<char>,
    tx: Seq<char>,
) -> ServiceView {
    let market = lower_model(market_id);
    if s.has_market(market) {
        s.with_book(market, cancel_model(s.book_of(market), tx))
    } else {
        s
    }
}

/// Every resting order of every market, markets in the order of their
/// creation, whose account is `account` when case is ignored. `account` is
/// given in lower case.
pub open spec fn account_orders(markets: Seq<MarketView>, account: Seq<char>) -> Seq<OrderView>
    decreases markets.len(),
{
    if markets.len() == 0 {
        seq![]
    } else {
        account_orders(markets.drop_last(), account) + owned_by(
            all_resting(markets.last().book),
            account,
        )
    }
}

/// The answer to a submission.
#[derive(Debug, PartialEq, Eq)]
pub enum Placed {
    /// The id was submitted before: the order is dropped.
    Duplicate,
    /// No market has the order's market identifier.
    UnknownMarket,
    /// The order may not enter a book.
    Rejected(OrderError),
    /// The order was applied.
    Accepted(Applied),
}

/// Why a request that names a market failed.
#[derive(Debug, Clone, Copy, PartialEq, Eq, Structural)]
pub enum ServiceError {
    /// No market has this identifier.
    UnknownMarket,
}

/// The best prices of a market at one moment.
#[derive(Debug, Clone, Copy, PartialEq, Eq, Structural)]
pub struct PriceUpdate {
    /// The highest bid, or the midpoint where no bid rests.
    pub price_bid_usd: Price,
    /// The lowest ask as the book keys it, negative, or the midpoint where
    /// no ask rests.
    pub price_ask_usd: Price,
    /// Milliseconds since the Unix epoch.
    pub timestamp_ms: i64,
}

/// The markets of the process, and the ids of every order ever submitted.
pub struct OrderBookService {
    markets: Vec<Market>,
    seen: IdSet,
}

impl View for OrderBookService {
    type V = ServiceView;

    closed spec fn view(&self) -> ServiceView {
        ServiceView { markets: market_views(self.markets@), seen: self.seen@ }
    }
}

impl OrderBookService {
    /// Every book is at rest, no two markets share an identifier, and no
    /// two resting orders share an id.
    pub open spec fn wf(&self) -> bool {
        self@.wf()
    }

    /// A service with no market, that has seen no order.
    pub fn new() -> (service: Self)
        ensures
            service@.markets == Seq::<MarketView>::empty(),
            service@.seen == Set::<Seq<char>>::empty(),
            service.wf(),
    {
        let service = OrderBookService { markets: Vec::new(), seen: IdSet::new() };
        assert(service@.markets =~= Seq::<MarketView>::empty());
        service
    }

    /// The place of the market with this identifier, given in lower case.
    fn find(&self, id: &String) -> (place: Option<usize>)
        requires
            self.wf(),
        ensures
            place is Some <==> self@.has_market(id@),
            place matches Some(i) ==> i < self.markets@.len() && self@.market_index(id@) == i
                && self.markets@[i as int].id@ == id@,
    {
        let n = self.markets.len();
        let mut i: usize = 0;
        while i < n
            invariant
                self.wf(),
                n == self.markets@.len(),
                i <= n,
                forall|j: int| 0 <= j < i ==> (#[trigger] self@.markets[j]).id != id@,
            decreases n - i,
        {
            if self.markets[i].id == *id {
                proof {
                    assert(self@.markets[i as int].id == id@);
                    let c = self@.market_index(id@);
                    assert(self@.markets[c].id == id@);
                    if c < i {
                        assert(self@.markets[c].id != self@.markets[i as int].id);
                    } else if c > i {
                        assert(self@.markets[i as int].id != self@.markets[c].id);
                    }
                }
                return Some(i);
            }
            i = i + 1;
        }
        None
    }

    /// The identifiers of the markets, in the order of their creation.
    pub fn market_ids(&self) -> (ids: Vec<String>)
        ensures
            ids@.len() == self@.markets.len(),
            forall|i: int| 0 <= i < ids@.len() ==> (#[trigger] ids@[i])@ == self@.markets[i].id,
    {
        let mut ids: Vec<String> = Vec::new();
        let n = self.markets.len();
        let mut i: usize = 0;
        while i < n
            invariant
                n == self.markets@.len(),
                i <= n,
                ids@.len() == i,
                forall|j: int| 0 <= j < i ==> (#[trigger] ids@[j])@ == self@.markets[j].id,
            decreases n - i,
        {
            ids.push(self.markets[i].id.clone());
            i = i + 1;
        }
        ids
    }

    /// Creates a market with an empty book under the identifier in lower
    /// case, and tells whether it did. An existing market is left as it is.
    pub fn add_market(&mut self, market_id: String) -> (created: bool)
        requires
            old(self).wf(),
        ensures
            created == !old(self)@.has_market(lower_model(market_id@)),
            created ==> final(self)@.markets == old(self)@.markets.push(
                MarketView {
                    id: lower_model(market_id@),
                    book: BookView { bids: Map::empty(), asks: Map::empty() },
                },
            ),
            !created ==> final(self)@.markets == old(self)@.markets,
            final(self)@.seen == old(self)@.seen,
            final(self).wf(),
    {
        let id = ascii_lowercase(market_id.as_str());
        match self.find(&id) {
            Some(_) => false,
            None => {
                let market = Market { id, engine: Engine::new() };
                let ghost added = market@;
                self.markets.push(market);
                proof {
                    assert(self@.markets =~= old(self)@.markets.push(added));
                    assert forall|i: int, j: int| 0 <= i < j < self@.markets.len() implies (
                    #[trigger] self@.markets[i]).id != (#[trigger] self@.markets[j]).id by {
                        if j == old(self)@.markets.len() {
                            assert(old(self)@.markets[i].id != added.id);
                        } else {
                            assert(old(self)@.markets[i].id != old(self)@.markets[j].id);
                        }
                    }
                    let last = old(self)@.markets.len() as int;
                    assert forall|tx: Seq<char>| !book_has(added.book, tx) by {
                        lemma_side_has_iff(added.book.bids, tx);
                        lemma_side_has_iff(added.book.asks, tx);
                    }
                    assert forall|i: int, tx: Seq<char>| #[trigger]
                        self@.rests_in(i, tx) implies old(self)@.rests_in(i, tx) by {}
                    assert forall|i: int| 0 <= i < self@.markets.len() implies (
                    #[trigger] self@.markets[i]).book.ids_unique() by {
                        if i < last {
                            assert(old(self)@.markets[i].book.ids_unique());
                        }
                    }
                    assert forall|i: int| 0 <= i < self@.markets.len() implies (
                    #[trigger] self@.markets[i]).book.wf() && self@.markets[i].book.uncrossed() by {
                        if i < last {
                            assert(old(self)@.markets[i].book.wf());
                        }
                    }
                }
                true
            },
        }
    }

    /// The engine of the market with this identifier, case ignored.
    pub fn lookup(&self, market_id: &str) -> (found: Result<&Engine, ServiceError>)
        requires
            self.wf(),
        ensures
            found is Ok <==> self@.has_market(lower_model(market_id@)),
            found matches Ok(engine) ==> engine@ == self@.book_of(lower_model(market_id@))
                && engine.wf(),
    {
        let id = ascii_lowercase(market_id);
        match self.find(&id) {
            Some(i) => {
                assert(self@.markets[i as int].book.wf());
                Ok(&self.markets[i].engine)
            },
            None => Err(ServiceError::UnknownMarket),
        }
    }

    /// Submits an order. An id that was submitted before is dropped and
    /// nothing changes. A new id is recorded, whatever becomes of the
    /// order; the order then goes to the engine of its market, with its
    /// market identifier in lower case.
    pub fn place_order(&mut self, order: Order) -> (placed: Placed)
        requires
            old(self).wf(),
        ensures
            final(self)@ == submit_model(old(self)@, order@),
            final(self).wf(),
            placed is Duplicate <==> old(self)@.seen.contains(order@.tx_id),
            placed is UnknownMarket <==> !old(self)@.seen.contains(order@.tx_id) && !old(
                self,
            )@.has_market(lower_model(order@.market_id)),
            placed is Rejected <==> !old(self)@.seen.contains(order@.tx_id) && old(
                self,
            )@.has_market(lower_model(order@.market_id)) && !order_valid(order@),
            placed is Accepted <==> !old(self)@.seen.contains(order@.tx_id) && old(
                self,
            )@.has_market(lower_model(order@.market_id)) && order_valid(order@),
            placed matches Placed::Rejected(e) ==> e == rejection(order@),
            placed matches Placed::Accepted(a) ==> {
                let book = old(self)@.book_of(lower_model(order@.market_id));
                &&& event_views(a.events@) == apply_model(book, canonical(order@)).events
                &&& a.rested == apply_model(book, canonical(order@)).rested
                &&& a.discarded == apply_model(book, canonical(order@)).discarded
            },
    {
        if self.seen.contains(&order.tx_id) {
            return Placed::Duplicate;
        }
        self.seen.insert(order.tx_id.clone());
        assert(self@.markets == old(self)@.markets);
        proof {
            assert forall|i: int, tx: Seq<char>| #[trigger] self@.rests_in(i, tx) implies self@.seen.contains(
                tx,
            ) by {
                assert(old(self)@.rests_in(i, tx));
            }
            assert forall|i: int, j: int, tx: Seq<char>| #[trigger]
                self@.rests_in(i, tx) && #[trigger] self@.rests_in(j, tx) implies i == j by {
                assert(old(self)@.rests_in(i, tx) && old(self)@.rests_in(j, tx));
            }
        }
        let id = ascii_lowercase(order.market_id.as_str());
        let ghost submitted = order@;
        let i = match self.find(&id) {
            Some(i) => i,
            None => {
                return Placed::UnknownMarket;
            },
        };
        let mut order = order;
        order.market_id = id;
        assert(order@ == canonical(submitted));
        let ghost before = self@;
        let ghost tx = submitted.tx_id;
        proof {
            assert(before.markets[i as int].book.wf());
            assert(before.markets[i as int].book.ids_unique());
            assert(!book_has(before.markets[i as int].book, tx)) by {
                if book_has(before.markets[i as int].book, tx) {
                    assert(old(self)@.rests_in(i as int, tx));
                }
            }
        }
        let market = &mut self.markets[i];
        let done = market.engine.apply(order);
        proof {
            assert(self@.markets =~= before.markets.update(i as int, self.markets@[i as int]@));
            assert forall|a: int, b: int| 0 <= a < b < self@.markets.len() implies (
            #[trigger] self@.markets[a]).id != (#[trigger] self@.markets[b]).id by {
                assert(before.markets[a].id != before.markets[b].id);
            }
            assert forall|a: int| 0 <= a < self@.markets.len() implies (
            #[trigger] self@.markets[a]).book.wf() && self@.markets[a].book.uncrossed() by {
                if a != i {
                    assert(before.markets[a].book.wf());
                }
            }
            assert forall|a: int| 0 <= a < self@.markets.len() implies (
            #[trigger] self@.markets[a]).book.ids_unique() by {
                if a != i {
                    assert(before.markets[a].book.ids_unique());
                }
            }
            assert forall|a: int, t: Seq<char>| #[trigger] self@.rests_in(a, t) implies before.rests_in(
                a,
                t,
            ) || (a == i && t == tx) by {}
            assert forall|a: int, t: Seq<char>| #[trigger] self@.rests_in(a, t) implies self@.seen.contains(
                t,
            ) by {
                if before.rests_in(a, t) {
                    assert(old(self)@.rests_in(a, t));
                }
            }
            assert forall|a: int, b: int, t: Seq<char>| #[trigger]
                self@.rests_in(a, t) && #[trigger] self@.rests_in(b, t) implies a == b by {
                if t == tx {
                    if before.rests_in(a, t) {
                        assert(old(self)@.rests_in(a, t));
                    }
                    if before.rests_in(b, t) {
                        assert(old(self)@.rests_in(b, t));
                    }
                } else {
                    assert(before.rests_in(a, t) && before.rests_in(b, t));
                }
            }
        }
        match done {
            Ok(applied) => Placed::Accepted(applied),
            Err(e) => {
                assert(self@.markets =~= before.markets);
                Placed::Rejected(e)
            },
        }
    }

    /// Removes the resting order with this id from the market with this
    /// identifier, case ignored, and tells whether it did.
    pub fn cancel_order(&mut self, market_id: &str, tx_id: &String) -> (removed: bool)
        requires
            old(self).wf(),
        ensures
            final(self)@ == cancel_order_model(old(self)@, market_id@, tx_id@),
            final(self).wf(),
            removed == (old(self)@.has_market(lower_model(market_id@)) && book_has(
                old(self)@.book_of(lower_model(market_id@)),
                tx_id@,
            )),
    {
        let id = ascii_lowercase(market_id);
        let i = match self.find(&id) {
            Some(i) => i,
            None => {
                return false;
            },
        };
        let ghost before = self@;
        assert(before.markets[i as int].book.wf());
        assert(before.markets[i as int].book.ids_unique());
        let market = &mut self.markets[i];
        let removed = market.engine.cancel(tx_id);
        proof {
            assert(self@.markets =~= before.markets.update(i as int, self.markets@[i as int]@));
            assert forall|a: int, b: int| 0 <= a < b < self@.markets.len() implies (
            #[trigger] self@.markets[a]).id != (#[trigger] self@.markets[b]).id by {
                assert(before.markets[a].id != before.markets[b].id);
            }
            assert forall|a: int| 0 <= a < self@.markets.len() implies (
            #[trigger] self@.markets[a]).book.wf() && self@.markets[a].book.uncrossed() by {
                if a != i {
                    assert(before.markets[a].book.wf());
                }
            }
            assert forall|a: int| 0 <= a < self@.markets.len() implies (
            #[trigger] self@.markets[a]).book.ids_unique() by {
                if a != i {
                    assert(before.markets[a].book.ids_unique());
                }
            }
            assert forall|a: int, t: Seq<char>| #[trigger] self@.rests_in(a, t) implies before.rests_in(
                a,
                t,
            ) by {}
            assert forall|a: int, b: int, t: Seq<char>| #[trigger]
                self@.rests_in(a, t) && #[trigger] self@.rests_in(b, t) implies a == b by {
                assert(before.rests_in(a, t) && before.rests_in(b, t));
            }
        }
        removed
    }

    /// The resting orders of the market with this identifier, case
    /// ignored: see [`crate::orderbook::OrderBook::snapshot`].
    pub fn get_book(&self, market_id: &str, depth: usize) -> (shot: Result<
        BookSnapshot,
        ServiceError,
    >)
        requires
            self.wf(),
        ensures
            shot is Ok <==> self@.has_market(lower_model(market_id@)),
            shot matches Ok(s) ==> {
                let book = self@.book_of(lower_model(market_id@));
                &&& detail_views(s.bids@) == resting_orders(book.bids, depth as nat).map_values(
                    |o: OrderView| detail_of(o),
                )
                &&& detail_views(s.asks@) == resting_orders(book.asks, depth as nat).map_values(
                    |o: OrderView| detail_of(o),
                )
            },
    {
        match self.lookup(market_id) {
            Ok(engine) => Ok(engine.snapshot(depth)),
            Err(e) => Err(e),
        }
    }

    /// The best prices of the market with this identifier, case ignored,
    /// stamped with the given time.
    pub fn price_update_at(&self, market_id: &str, timestamp_ms: i64) -> (update: Result<
        PriceUpdate,
        ServiceError,
    >)
        requires
            self.wf(),
        ensures
            update is Ok <==> self@.has_market(lower_model(market_id@)),
            update matches Ok(u) ==> {
                let book = self@.book_of(lower_model(market_id@));
                &&& u.price_bid_usd == best_or_mid_model(book.bids)
                &&& u.price_ask_usd == best_or_mid_model(book.asks)
                &&& u.timestamp_ms == timestamp_ms
            },
    {
        match self.lookup(market_id) {
            Ok(engine) => {
                let best = engine.best_prices();
                Ok(PriceUpdate { price_bid_usd: best.0, price_ask_usd: best.1, timestamp_ms })
            },
            Err(e) => Err(e),
        }
    }

    /// The best prices of the market with this identifier, case ignored,
    /// stamped with the time of the call.
    pub fn get_price(&self, market_id: &str) -> (update: Result<PriceUpdate, ServiceError>)
        requires
            self.wf(),
        ensures
            update is Ok <==> self@.has_market(lower_model(market_id@)),
            update matches Ok(u) ==> {
                let book = self@.book_of(lower_model(market_id@));
                &&& u.price_bid_usd == best_or_mid_model(book.bids)
                &&& u.price_ask_usd == best_or_mid_model(book.asks)
            },
    {
        let now = now_millis();
        self.price_update_at(market_id, now)
    }

    /// Every resting order, over all markets in the order of their
    /// creation, whose account is this one, case ignored.
    pub fn get_orders_for_user(&self, account_id: &str) -> (orders: Vec<Order>)
        ensures
            order_views(orders@) == account_orders(self@.markets, lower_model(account_id@)),
    {
        let account = ascii_lowercase(account_id);
        let mut orders: Vec<Order> = Vec::new();
        let n = self.markets.len();
        let mut i: usize = 0;
        assert(self@.markets.take(0) =~= Seq::<MarketView>::empty());
        assert(order_views(orders@) =~= Seq::<OrderView>::empty());
        while i < n
            invariant
                n == self.markets@.len(),
                i <= n,
                order_views(orders@) == account_orders(self@.markets.take(i as int), account@),
            decreases n - i,
        {
            proof {
                assert(self@.markets.take(i + 1).drop_last() =~= self@.markets.take(i as int));
                assert(self@.markets.take(i + 1).last() == self.markets@[i as int]@);
            }
            self.markets[i].engine.collect_for_account(&account, &mut orders);
            i = i + 1;
        }
        assert(self@.markets.take(n as int) =~= self@.markets);
        orders
    }
}

} // verus!
