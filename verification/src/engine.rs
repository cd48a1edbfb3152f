//! The matching engine of one market: the one place where its book changes.

use crate::clock::now_millis;
use crate::model::{
    all_resting, apply_model, book_has, cancel_model, order_valid, owned_by, resting_orders,
    BookView, MatchEventView,
};
use crate::orderbook::{best_or_mid_model, level_sizes, rejection, OrderBook};
use crate::types::{
    detail_of, detail_views, event_views, order_views, trade_model, Applied, BookSnapshot, MatchEvent, Order,
    OrderError, OrderView, Price, Trade,
};
use vstd::prelude::*;

verus! {

/// The trade that a fill records at the given time.
pub fn make_trade(event: &MatchEvent, timestamp: i64) -> (trade: Trade)
    ensures
        trade@ == trade_model(event@, timestamp as int),
{
    Trade {
        buyer: event.yes.account_id.clone(),
        seller: event.no.account_id.clone(),
        price: event.price,
        amount: event.fill,
        timestamp,
    }
}

/// The matching engine of one market. Its book is at rest whenever a call
/// returns: well formed and not crossed.
pub struct Engine {
    book: OrderBook,
}

impl View for Engine {
    type V = BookView;

    closed spec fn view(&self) -> BookView {
        self.book@
    }
}

impl Engine {
    /// The book is at rest: well formed and not crossed.
    pub open spec fn wf(&self) -> bool {
        self@.wf() && self@.uncrossed()
    }

    /// An engine over an empty book.
    pub fn new() -> (engine: Self)
        ensures
            engine@ == (BookView { bids: Map::empty(), asks: Map::empty() }),
            engine.wf(),
    {
        Engine { book: OrderBook::new() }
    }

    /// Applies an incoming order to the book: see [`OrderBook::add_order`].
    pub fn apply(&mut self, order: Order) -> (done: Result<Applied, OrderError>)
        requires
            old(self).wf(),
        ensures
            done is Ok <==> order_valid(order@),
            done matches Err(e) ==> e == rejection(order@) && final(self)@ == old(self)@,
            done matches Ok(a) ==> {
                &&& final(self)@ == apply_model(old(self)@, order@).book
                &&& event_views(a.events@) == apply_model(old(self)@, order@).events
                &&& a.rested == apply_model(old(self)@, order@).rested
                &&& a.discarded == apply_model(old(self)@, order@).discarded
            },
            final(self).wf(),
            forall|tx: Seq<char>| #[trigger]
                book_has(final(self)@, tx) ==> book_has(old(self)@, tx) || tx == order@.tx_id,
            old(self)@.ids_unique() && !book_has(old(self)@, order@.tx_id) ==> final(self)@.ids_unique(),
    {
        self.book.add_order(order)
    }

    /// Applies the order, if there is one and it may enter a book, and
    /// returns the trades this led to, in order, each stamped with the time
    /// at which it was recorded. Without an order, or with one that may not
    /// enter a book, nothing changes and no trade is returned.
    pub fn try_match(&mut self, maybe_new_order: Option<Order>) -> (trades: Vec<Trade>)
        requires
            old(self).wf(),
        ensures
            final(self).wf(),
            final(self)@ == try_match_book(old(self)@, maybe_new_order),
            trades@.len() == try_match_events(old(self)@, maybe_new_order).len(),
            forall|i: int|
                0 <= i < trades@.len() ==> (#[trigger] trades@[i])@ == trade_model(
                    try_match_events(old(self)@, maybe_new_order)[i],
                    trades@[i].timestamp as int,
                ),
    {
        let mut trades: Vec<Trade> = Vec::new();
        let order = match maybe_new_order {
            Some(order) => order,
            None => {
                return trades;
            },
        };
        let applied = match self.apply(order) {
            Ok(applied) => applied,
            Err(_) => {
                return trades;
            },
        };
        let n = applied.events.len();
        let mut i: usize = 0;
        while i < n
            invariant
                n == applied.events@.len(),
                i <= n,
                trades@.len() == i,
                forall|j: int|
                    0 <= j < i ==> (#[trigger] trades@[j])@ == trade_model(
                        applied.events@[j]@,
                        trades@[j].timestamp as int,
                    ),
            decreases n - i,
        {
            let now = now_millis();
            trades.push(make_trade(&applied.events[i], now));
            i = i + 1;
        }
        proof {
            assert forall|i: int| 0 <= i < trades@.len() implies (#[trigger] trades@[i])@
                == trade_model(
                try_match_events(old(self)@, maybe_new_order)[i],
                trades@[i].timestamp as int,
            ) by {
                assert(event_views(applied.events@)[i] == applied.events@[i]@);
            }
        }
        trades
    }

    /// Removes the resting order with this id, and tells whether there was one.
    pub fn cancel(&mut self, tx_id: &String) -> (removed: bool)
        requires
            old(self).wf(),
        ensures
            removed == book_has(old(self)@, tx_id@),
            final(self)@ == cancel_model(old(self)@, tx_id@),
            final(self).wf(),
            forall|other: Seq<char>| #[trigger]
                book_has(final(self)@, other) ==> book_has(old(self)@, other),
            old(self)@.ids_unique() ==> final(self)@.ids_unique() && !book_has(
                final(self)@,
                tx_id@,
            ),
    {
        self.book.cancel(tx_id)
    }

    /// The price and the queue length of each level: see
    /// [`OrderBook::snapshot_top`].
    pub fn snapshot_top(&self, depth: usize) -> (tops: (Vec<(Price, usize)>, Vec<(Price, usize)>))
        ensures
            tops.0@ == level_sizes(self@.bids, depth as nat),
            tops.1@ == level_sizes(self@.asks, depth as nat),
    {
        self.book.snapshot_top(depth)
    }

    /// The resting orders of both sides: see [`OrderBook::snapshot`].
    pub fn snapshot(&self, depth: usize) -> (shot: BookSnapshot)
        ensures
            detail_views(shot.bids@) == resting_orders(self@.bids, depth as nat).map_values(
                |o: OrderView| detail_of(o),
            ),
            detail_views(shot.asks@) == resting_orders(self@.asks, depth as nat).map_values(
                |o: OrderView| detail_of(o),
            ),
    {
        self.book.snapshot(depth)
    }

    /// Adds to `found` a copy of every resting order of the account: see
    /// [`OrderBook::collect_for_account`].
    pub fn collect_for_account(&self, account: &String, found: &mut Vec<Order>)
        ensures
            order_views(final(found)@) == order_views(old(found)@) + owned_by(
                all_resting(self@),
                account@,
            ),
    {
        self.book.collect_for_account(account, found)
    }

    /// The best bid and the best ask: see [`OrderBook::best_prices`].
    pub fn best_prices(&self) -> (best: (Price, Price))
        ensures
            best.0 == best_or_mid_model(self@.bids),
            best.1 == best_or_mid_model(self@.asks),
    {
        self.book.best_prices()
    }
}

/// The book that `try_match` leaves.
pub open spec fn try_match_book(book: BookView, order: Option<Order>) -> BookView {
    match order {
        Some(o) => if order_valid(o@) {
            apply_model(book, o@).book
        } else {
            book
        },
        None => book,
    }
}

/// The fills that `try_match` records, in order.
pub open spec fn try_match_events(book: BookView, order: Option<Order>) -> Seq<MatchEventView> {
    match order {
        Some(o) => if order_valid(o@) {
            apply_model(book, o@).events
        } else {
            Seq::empty()
        },
        None => Seq::empty(),
    }
}

} // verus!
