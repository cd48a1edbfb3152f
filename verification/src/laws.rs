//! What holds of the book and the service over whole histories, proved from
//! the model.

use crate::model::{
    apply_model, best_price, book_has, cancel_model, cancel_price, cancel_side, concat_levels,
    crosses, drop_head, facing_side, first_with, insert_model, is_best, is_desc_listing,
    is_first_with, lemma_apply_model, lemma_cancel_model, lemma_cancel_price_unique,
    lemma_cancel_target, lemma_concat_levels_contains, lemma_first_with_unique,
    lemma_match_keeps_ids, lemma_match_model, lemma_prices_desc_exists, lemma_rest_ids,
    level_has, match_model, order_valid, own_side, prices_desc, remove_at, rest_model,
    resting_orders, side_has, side_qty, side_wf, sum_fills, with_qty, BookView, Side,
};
use crate::service::{submit_model, ServiceView};
use crate::types::{OrderView, Price};
use vstd::prelude::*;

verus! {

/// The book after a sequence of submissions, each applied where it may
/// enter a book and dropped where it may not.
pub open spec fn apply_all(book: BookView, orders: Seq<OrderView>) -> BookView
    decreases orders.len(),
{
    if orders.len() == 0 {
        book
    } else {
        let before = apply_all(book, orders.drop_last());
        if order_valid(orders.last()) {
            apply_model(before, orders.last()).book
        } else {
            before
        }
    }
}

/// The quantity that the submissions traded against the bids of the book,
/// where `against_bids` holds, or against its asks.
pub open spec fn traded_against(book: BookView, orders: Seq<OrderView>, against_bids: bool) -> nat
    decreases orders.len(),
{
    if orders.len() == 0 {
        0
    } else {
        let before = apply_all(book, orders.drop_last());
        let o = orders.last();
        let earlier = traded_against(book, orders.drop_last(), against_bids);
        if order_valid(o) && (o.price_usd < 0) == against_bids {
            earlier + sum_fills(apply_model(before, o).events)
        } else {
            earlier
        }
    }
}

/// The quantity that the submissions left resting on the bids of the book,
/// where `on_bids` holds, or on its asks.
pub open spec fn rested_on(book: BookView, orders: Seq<OrderView>, on_bids: bool) -> nat
    decreases orders.len(),
{
    if orders.len() == 0 {
        0
    } else {
        let before = apply_all(book, orders.drop_last());
        let o = orders.last();
        let earlier = rested_on(book, orders.drop_last(), on_bids);
        if order_valid(o) && (o.price_usd > 0) == on_bids {
            earlier + apply_model(before, o).rested
        } else {
            earlier
        }
    }
}

/// After any sequence of submissions to a book at rest, the book is at rest:
/// well formed, and the best bid is below the magnitude of the best ask.
pub proof fn law_book_never_crossed(book: BookView, orders: Seq<OrderView>)
    requires
        book.wf(),
        book.uncrossed(),
    ensures
        apply_all(book, orders).wf(),
        apply_all(book, orders).uncrossed(),
    decreases orders.len(),
{
    if orders.len() > 0 {
        law_book_never_crossed(book, orders.drop_last());
        if order_valid(orders.last()) {
            lemma_apply_model(apply_all(book, orders.drop_last()), orders.last());
        }
    }
}

/// Every unit of an accepted order is accounted for exactly once: what the
/// events traded, what rests and what was dropped add up to its quantity.
pub proof fn law_order_quantity_conserved(book: BookView, o: OrderView)
    requires
        book.wf(),
        book.uncrossed(),
        order_valid(o),
    ensures
        sum_fills(apply_model(book, o).events) + apply_model(book, o).rested + apply_model(
            book,
            o,
        ).discarded == o.qty,
{
    lemma_apply_model(book, o);
}

/// Over any sequence of submissions, what the events traded against a side
/// is what that side's resting orders lost: the side ends with what it
/// began with, plus what came to rest on it, less what was traded against it.
pub proof fn law_side_quantity_conserved(book: BookView, orders: Seq<OrderView>, bids: bool)
    requires
        book.wf(),
        book.uncrossed(),
    ensures
        side_qty(own_side(apply_all(book, orders), if bids { 1int } else { -1int })) + traded_against(
            book,
            orders,
            bids,
        ) == side_qty(own_side(book, if bids { 1int } else { -1int })) + rested_on(book, orders, bids),
    decreases orders.len(),
{
    if orders.len() > 0 {
        let earlier = orders.drop_last();
        let o = orders.last();
        law_side_quantity_conserved(book, earlier, bids);
        law_book_never_crossed(book, earlier);
        if order_valid(o) {
            lemma_apply_model(apply_all(book, earlier), o);
        }
    }
}

/// Each event of an accepted order lists the bid first and the ask second.
pub proof fn law_events_list_bid_first(book: BookView, o: OrderView)
    requires
        book.wf(),
        book.uncrossed(),
        order_valid(o),
    ensures
        forall|i: int|
            0 <= i < apply_model(book, o).events.len() ==> (#[trigger] apply_model(
                book,
                o,
            ).events[i]).yes.price_usd > 0 && apply_model(book, o).events[i].no.price_usd < 0,
{
    lemma_apply_model(book, o);
}

/// A listing of unlimited depth shows exactly the resting orders of the
/// side: an order is listed if and only if it rests in some queue.
pub proof fn law_snapshot_shows_resting_orders(side: Side, bid: bool, o: OrderView)
    requires
        side_wf(side, bid),
    ensures
        resting_orders(side, 0).contains(o) <==> exists|p: Price, i: int|
            side.contains_key(p) && 0 <= i < side[p].len() && #[trigger] side[p][i] == o,
{
    lemma_prices_desc_exists(side);
    let prices = prices_desc(side);
    assert(prices.take(prices.len() as int) =~= prices);
    lemma_concat_levels_contains(side, prices, o);
    if resting_orders(side, 0).contains(o) {
        let (k, i) = choose|k: int, i: int|
            0 <= k < prices.len() && 0 <= i < side[prices[k]].len() && #[trigger] side[prices[k]][i]
                == o;
        assert(prices.contains(prices[k]));
        assert(side.contains_key(prices[k]));
    }
    if exists|p: Price, i: int|
        side.contains_key(p) && 0 <= i < side[p].len() && #[trigger] side[p][i] == o {
        let (p, i) = choose|p: Price, i: int|
            side.contains_key(p) && 0 <= i < side[p].len() && #[trigger] side[p][i] == o;
        assert(prices.contains(p));
        let k = choose|k: int| 0 <= k < prices.len() && prices[k] == p;
        assert(side[prices[k]][i] == o);
    }
}

/// A listing of unlimited depth goes by price priority: its prices are
/// those of the side, each once, most aggressive first, and the orders of
/// each price follow those of the price before it, oldest first.
pub proof fn law_snapshot_goes_by_priority(side: Side, bid: bool, k: int)
    requires
        side_wf(side, bid),
        0 <= k < prices_desc(side).len(),
    ensures
        is_desc_listing(side, prices_desc(side)),
        concat_levels(side, prices_desc(side).take(k + 1)) == concat_levels(
            side,
            prices_desc(side).take(k),
        ) + side[prices_desc(side)[k]],
{
    lemma_prices_desc_exists(side);
    let prices = prices_desc(side);
    assert(prices.take(k + 1).drop_last() =~= prices.take(k));
}

/// Submitting the same id twice changes the service exactly once: the
/// second submission leaves everything as the first left it.
pub proof fn law_duplicate_changes_nothing(s: ServiceView, first: OrderView, again: OrderView)
    requires
        again.tx_id == first.tx_id,
    ensures
        submit_model(submit_model(s, first), again) == submit_model(s, first),
{
}

/// Resting an order whose id is new to the book and then cancelling that id
/// gives back the book as it was.
pub proof fn law_cancel_undoes_insert(book: BookView, o: OrderView)
    requires
        book.wf(),
        order_valid(o),
        !book_has(book, o.tx_id),
    ensures
        cancel_model(insert_model(book, o), o.tx_id) == book,
{
    let tx = o.tx_id;
    let p = o.price_usd as Price;
    let side = own_side(book, o.price_usd);
    let after = rest_model(side, o, p);
    let level = after[p];
    let last = level.len() - 1;
    assert(level[last] == o);
    assert(level_has(level, tx));
    assert(after.contains_key(p));
    assert forall|q: Price| #[trigger] after.contains_key(q) && level_has(after[q], tx) implies q
        <= p by {
        if q != p {
            assert(side.contains_key(q));
            assert(level_has(side[q], tx));
        }
    }
    lemma_cancel_price_unique(after, tx, p);
    assert(is_first_with(level, tx, last)) by {
        assert forall|j: int| 0 <= j < last implies (#[trigger] level[j]).tx_id != tx by {
            assert(side.contains_key(p));
            assert(level[j] == side[p][j]);
            if level[j].tx_id == tx {
                assert(level_has(side[p], tx));
            }
        }
    }
    lemma_first_with_unique(level, tx, last);
    assert(remove_at(after, p, last) =~= side) by {
        if side.contains_key(p) {
            assert(level.remove(last) =~= side[p]);
            assert(side[p].len() > 0);
        }
    }
    if o.price_usd > 0 {
        assert(!side_has(book.asks, tx));
    } else {
        assert(!side_has(insert_model(book, o).bids, tx));
    }
}

/// On one side, cancelling one id and resting an order with another id can
/// be done in either order.
proof fn lemma_cancel_side_commutes(side: Side, o: OrderView, p: Price, tx: Seq<char>, bid: bool)
    requires
        side_wf(side, bid),
        side_has(side, tx),
        o.tx_id != tx,
    ensures
        side_has(rest_model(side, o, p), tx),
        cancel_side(rest_model(side, o, p), tx) == rest_model(
            cancel_side(side, tx),
            o,
            p,
        ),
{
    let after = rest_model(side, o, p);
    lemma_cancel_target(side, tx, bid);
    let cp = cancel_price(side, tx);
    let i = first_with(side[cp], tx);
    assert forall|q: Price| #[trigger] after.contains_key(q) && level_has(after[q], tx) implies side.contains_key(
        q,
    ) && level_has(side[q], tx) by {
        let j = choose|j: int| 0 <= j < after[q].len() && (#[trigger] after[q][j]).tx_id == tx;
        if q == p {
            if side.contains_key(p) {
                assert(j < side[p].len());
                assert(side[p][j].tx_id == tx);
            }
        } else {
            assert(side[q][j].tx_id == tx);
        }
    }
    assert(level_has(after[cp], tx)) by {
        assert(after[cp][i].tx_id == tx);
    }
    assert(after.contains_key(cp));
    lemma_cancel_price_unique(after, tx, cp);
    assert(is_first_with(after[cp], tx, i)) by {
        assert forall|j: int| 0 <= j < i implies (#[trigger] after[cp][j]).tx_id != tx by {
            assert(after[cp][j] == side[cp][j]);
        }
    }
    lemma_first_with_unique(after[cp], tx, i);
    let lhs = remove_at(after, cp, i);
    let rhs = rest_model(remove_at(side, cp, i), o, p);
    if cp == p {
        if side[p].len() <= 1 {
            assert(side[p].push(o).remove(i) =~= seq![o]);
        } else {
            assert(side[p].push(o).remove(i) =~= side[p].remove(i).push(o));
        }
    }
    assert(lhs =~= rhs);
}

/// Cancelling one id and resting an order with another id can be done in
/// either order: an order that rests untouched while others come to rest
/// can still be cancelled without a trace.
pub proof fn law_cancel_commutes_with_insert(book: BookView, o: OrderView, tx: Seq<char>)
    requires
        book.wf(),
        order_valid(o),
        o.tx_id != tx,
    ensures
        cancel_model(insert_model(book, o), tx) == insert_model(cancel_model(book, tx), o),
{
    let p = o.price_usd as Price;
    lemma_rest_ids(book.bids, o, p);
    lemma_rest_ids(book.asks, o, p);
    let after = insert_model(book, o);
    assert(side_has(after.bids, tx) == side_has(book.bids, tx));
    assert(side_has(after.asks, tx) == side_has(book.asks, tx));
    if side_has(book.bids, tx) {
        if o.price_usd > 0 {
            lemma_cancel_side_commutes(book.bids, o, p, tx, true);
        }
    } else if side_has(book.asks, tx) {
        if o.price_usd <= 0 {
            lemma_cancel_side_commutes(book.asks, o, p, tx, false);
        }
    }
}

/// Cancelling an order that came to rest leaves the book as if the order
/// had never rested: the book that the same order leaves when it may not
/// rest. Whatever is submitted next then meets the same book.
pub proof fn law_cancel_leaves_no_trace(book: BookView, o: OrderView, next: OrderView)
    requires
        book.wf(),
        book.uncrossed(),
        order_valid(o),
        !book_has(book, o.tx_id),
    ensures
        cancel_model(apply_model(book, o).book, o.tx_id) == apply_model(
            book,
            OrderView { market_limit: true, ..o },
        ).book,
        apply_model(cancel_model(apply_model(book, o).book, o.tx_id), next) == apply_model(
            apply_model(book, OrderView { market_limit: true, ..o }).book,
            next,
        ),
{
    let never = OrderView { market_limit: true, ..o };
    let opp = facing_side(book, o.price_usd);
    let m = match_model(opp, o);
    lemma_match_model(opp, o, !(o.price_usd > 0));
    lemma_match_keeps_ids(opp, o, o.tx_id);
    lemma_match_is_blind_to_resting(opp, o, never);
    let matched = apply_model(book, never).book;
    assert(matched.wf() && !book_has(matched, o.tx_id)) by {
        lemma_apply_model(book, never);
    }
    if m.taker.qty > 0 && !o.market_limit {
        law_cancel_undoes_insert(matched, m.taker);
    } else {
        lemma_cancel_model(matched, o.tx_id);
    }
}

/// Matching does not look at whether the incoming order may rest.
pub proof fn lemma_match_is_blind_to_resting(opp: Side, a: OrderView, b: OrderView)
    requires
        b == (OrderView { market_limit: b.market_limit, ..a }),
    ensures
        match_model(opp, b).opp == match_model(opp, a).opp,
        match_model(opp, b).taker.qty == match_model(opp, a).taker.qty,
        match_model(opp, b).events.len() == match_model(opp, a).events.len(),
    decreases a.qty,
{
    let p = best_price(opp);
    if a.qty == 0 || !is_best(opp, p) || opp[p].len() == 0 || !crosses(
        a.price_usd,
        p as int,
    ) || opp[p][0].qty == 0 {
    } else {
        let head = opp[p][0];
        let fill = if a.qty <= head.qty {
            a.qty
        } else {
            head.qty
        };
        let maker = with_qty(head, (head.qty - fill) as nat);
        let opp2 = if maker.qty == 0 {
            drop_head(opp, p)
        } else {
            opp.insert(p, opp[p].update(0, maker))
        };
        lemma_match_is_blind_to_resting(
            opp2,
            with_qty(a, (a.qty - fill) as nat),
            with_qty(b, (b.qty - fill) as nat),
        );
    }
}

} // verus!
