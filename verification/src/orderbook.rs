//! The per-market order book: two price-indexed sides, the primitives that
//! change them, and the matching of an incoming order against them.

use crate::keys::{keys_ascending, last_key, level_mut};
use crate::model::{
    all_resting, apply_model, best_price, book_has, cancel_model, cancel_side, concat_levels,
    drop_head, event_model, facing_side, insert_model, is_best, is_cancel_price,
    is_desc_listing, is_first_with, key_ok, lemma_apply_ids, lemma_apply_model,
    lemma_best_is_unique, lemma_cancel_ids, lemma_cancel_model, lemma_cancel_price_unique,
    lemma_desc_listing_unique, lemma_first_with_unique, lemma_insert_model, lemma_match_model,
    lemma_match_step, level_has, level_wf, match_model, order_valid, own_side, owned_by,
    prices_desc, remove_at, rest_model, resting_orders, side_has, side_qty, side_wf, sum_fills,
    taker_faces, top_prices, with_qty, BookView, MatchEventView, Side,
};
use crate::text::ascii_lowercase;
use crate::types::{
    detail_of, detail_views, event_views, order_views, Applied, BookSnapshot, MatchEvent, Order,
    OrderDetail, OrderError, OrderView, Price, PriceLevel, Quantity,
};
use std::collections::BTreeMap;
use vstd::prelude::*;

verus! {

/// The model of one side as the map holds it.
pub open spec fn side_view(levels: Map<Price, PriceLevel>) -> Side {
    levels.map_values(|level: PriceLevel| level@)
}

/// The resting orders of one market. Bids are keyed by their positive price
/// and asks by their negative price, so that on both sides the greatest key
/// is the most aggressive one.
pub struct OrderBook {
    pub bids: BTreeMap<Price, PriceLevel>,
    pub asks: BTreeMap<Price, PriceLevel>,
}

impl View for OrderBook {
    type V = BookView;

    open spec fn view(&self) -> BookView {
        BookView { bids: side_view(self.bids@), asks: side_view(self.asks@) }
    }
}

/// The reason for which an order that may not enter a book is turned away.
pub open spec fn rejection(o: OrderView) -> OrderError {
    if o.price_usd == 0 || o.price_usd <= i64::MIN {
        OrderError::InvalidPrice
    } else {
        OrderError::InvalidQuantity
    }
}

/// Tells whether the order may enter a book, and if not, why.
pub fn validate(order: &Order) -> (verdict: Result<(), OrderError>)
    ensures
        verdict is Ok <==> order_valid(order@),
        verdict matches Err(e) ==> e == rejection(order@),
{
    if order.price_usd == 0 || order.price_usd == i64::MIN {
        Err(OrderError::InvalidPrice)
    } else if order.qty == 0 {
        Err(OrderError::InvalidQuantity)
    } else {
        Ok(())
    }
}

/// Puts the order at the back of the queue at its price, creating the level
/// where there is none.
fn rest(levels: &mut BTreeMap<Price, PriceLevel>, order: Order)
    ensures
        side_view(final(levels)@) == rest_model(side_view(old(levels)@), order@, order.price_usd),
{
    let p = order.price_usd;
    let ghost o = order@;
    let mut level = match levels.remove(&p) {
        Some(level) => level,
        None => PriceLevel::new(),
    };
    level.push(order);
    levels.insert(p, level);
    proof {
        assert(Seq::<OrderView>::empty().push(o) =~= seq![o]);
        assert(side_view(levels@) =~= rest_model(side_view(old(levels)@), o, p));
    }
}

/// The event for one fill, from the two orders as they stand after it.
fn make_event(taker: &Order, maker: &Order, fill: Quantity, level: Price) -> (event: MatchEvent)
    requires
        level > i64::MIN,
        maker.price_usd == level,
    ensures
        event@ == event_model(taker@, maker@, fill as nat),
{
    let price = if level < 0 {
        -level
    } else {
        level
    };
    if taker.price_usd > 0 {
        MatchEvent { partial: taker.qty > 0, yes: taker.clone(), no: maker.clone(), fill, price }
    } else {
        MatchEvent { partial: taker.qty > 0, yes: maker.clone(), no: taker.clone(), fill, price }
    }
}

/// Matches `taker` against the side it faces, best price first and oldest
/// order first within a price, until it is filled or nothing crosses.
fn match_order(opp: &mut BTreeMap<Price, PriceLevel>, taker: &mut Order) -> (events: Vec<
    MatchEvent,
>)
    requires
        old(taker).price_usd != 0,
        side_wf(side_view(old(opp)@), old(taker).price_usd < 0),
        old(taker).price_usd > i64::MIN,
    ensures
        side_view(final(opp)@) == match_model(side_view(old(opp)@), old(taker)@).opp,
        final(taker)@ == match_model(side_view(old(opp)@), old(taker)@).taker,
        event_views(events@) == match_model(side_view(old(opp)@), old(taker)@).events,
{
    let ghost side0 = side_view(opp@);
    let ghost taker0 = taker@;
    let ghost opp_is_bid = taker.price_usd < 0;
    let mut events: Vec<MatchEvent> = Vec::new();
    assert(event_views(events@) =~= Seq::<MatchEventView>::empty());
    loop
        invariant
            side_wf(side_view(opp@), opp_is_bid),
            taker_faces(taker@, opp_is_bid),
            taker.price_usd > i64::MIN,
            match_model(side0, taker0).opp == match_model(side_view(opp@), taker@).opp,
            match_model(side0, taker0).taker == match_model(side_view(opp@), taker@).taker,
            match_model(side0, taker0).events == event_views(events@) + match_model(
                side_view(opp@),
                taker@,
            ).events,
        ensures
            side_view(opp@) == match_model(side0, taker0).opp,
            taker@ == match_model(side0, taker0).taker,
            event_views(events@) == match_model(side0, taker0).events,
        decreases taker.qty,
    {
        let ghost side = side_view(opp@);
        let ghost before = taker@;
        if taker.qty == 0 {
            assert(event_views(events@) + Seq::<MatchEventView>::empty() =~= event_views(events@));
            break ;
        }
        let k = match last_key(opp) {
            Some(k) => k,
            None => {
                proof {
                    assert(!side.contains_key(best_price(side)));
                    assert(event_views(events@) + Seq::<MatchEventView>::empty() =~= event_views(
                        events@,
                    ));
                }
                break ;
            },
        };
        proof {
            assert(is_best(side, k)) by {
                assert forall|q: Price| #[trigger] side.contains_key(q) implies q <= k by {
                    assert(opp@.contains_key(q));
                }
            }
            lemma_best_is_unique(side, k);
            assert(key_ok(k, opp_is_bid) && level_wf(side[k], k));
        }
        if taker.price_usd + k < 0 {
            assert(event_views(events@) + Seq::<MatchEventView>::empty() =~= event_views(events@));
            break ;
        }
        let mut level = opp.remove(&k).unwrap();
        let ghost queue = level@;
        assert(queue == side[k]);
        let mut head = level.pop_front().unwrap();
        let ghost resting = head@;
        assert(resting == side[k][0]);
        let fill = if taker.qty <= head.qty {
            taker.qty
        } else {
            head.qty
        };
        head.qty = head.qty - fill;
        taker.qty = taker.qty - fill;
        let event = make_event(taker, &head, fill, k);
        let ghost maker = head@;
        let ghost shown = event@;
        let ghost earlier = event_views(events@);
        events.push(event);
        if head.qty > 0 {
            level.push_front(head);
        }
        if !level.is_empty() {
            opp.insert(k, level);
        }
        proof {
            let side2 = if maker.qty == 0 {
                drop_head(side, k)
            } else {
                side.insert(k, side[k].update(0, maker))
            };
            assert(maker == with_qty(resting, maker.qty));
            assert(taker@ == with_qty(before, taker@.qty));
            assert(side_view(opp@) =~= side2) by {
                if maker.qty != 0 {
                    assert(seq![maker] + queue.subrange(1, queue.len() as int) =~= queue.update(
                        0,
                        maker,
                    ));
                }
            }
            lemma_match_step(side, k, maker, opp_is_bid);
            assert(event_views(events@) =~= earlier.push(shown));
            let rest = match_model(side2, taker@);
            assert(match_model(side, before).events == seq![shown] + rest.events);
            assert(earlier + (seq![shown] + rest.events) =~= earlier.push(shown) + rest.events);
        }
    }
    events
}

/// A handle on the oldest order at the greatest key, with that key.
fn best_mut(levels: &mut BTreeMap<Price, PriceLevel>) -> (best: Option<(Price, &mut Order)>)
    requires
        forall|p: Price| #[trigger] old(levels)@.contains_key(p) ==> old(levels)@[p]@.len() > 0,
    ensures
        best.is_none() <==> forall|p: Price| !side_view(old(levels)@).contains_key(p),
        best.is_none() ==> final(levels)@ == old(levels)@,
        best.is_some() ==> {
            let p = best.unwrap().0;
            &&& is_best(side_view(old(levels)@), p)
            &&& (*best.unwrap().1)@ == side_view(old(levels)@)[p][0]
            &&& side_view(final(levels)@) == side_view(old(levels)@).insert(
                p,
                side_view(old(levels)@)[p].update(0, (*final(best.unwrap().1))@),
            )
        },
{
    let ghost side = side_view(levels@);
    match last_key(levels) {
        None => {
            assert forall|p: Price| !side.contains_key(p) by {
                assert(!levels@.contains_key(p));
            }
            None
        },
        Some(p) => {
            assert(side.contains_key(p));
            assert(is_best(side, p)) by {
                assert forall|q: Price| #[trigger] side.contains_key(q) implies q <= p by {
                    assert(levels@.contains_key(q));
                }
            }
            let level = level_mut(levels, p).unwrap();
            let head = level.front_mut().unwrap();
            proof {
                assert(side_view(after_borrow(*levels)@) =~= side.insert(
                    p,
                    side[p].update(0, (*final(head))@),
                ));
            }
            Some((p, head))
        },
    }
}

/// The prices of the side, most aggressive first.
fn prices_descending(levels: &BTreeMap<Price, PriceLevel>) -> (prices: Vec<Price>)
    ensures
        prices@ == prices_desc(side_view(levels@)),
        is_desc_listing(side_view(levels@), prices@),
{
    let up = keys_ascending(levels);
    let n = up.len();
    let mut prices: Vec<Price> = Vec::new();
    let mut i: usize = 0;
    while i < n
        invariant
            n == up@.len(),
            i <= n,
            prices@.len() == i,
            forall|j: int| 0 <= j < i ==> prices@[j] == up@[n - 1 - j],
        decreases n - i,
    {
        prices.push(up[n - 1 - i]);
        i = i + 1;
    }
    proof {
        let side = side_view(levels@);
        assert forall|p: Price| prices@.contains(p) <==> side.contains_key(p) by {
            if prices@.contains(p) {
                let j = choose|j: int| 0 <= j < prices@.len() && prices@[j] == p;
                assert(up@[n - 1 - j] == p);
                assert(up@.contains(p));
            }
            if side.contains_key(p) {
                assert(up@.contains(p));
                let j = choose|j: int| 0 <= j < up@.len() && up@[j] == p;
                assert(prices@[n - 1 - j] == p);
            }
        }
        lemma_desc_listing_unique(side, prices@);
    }
    prices
}

/// The price and the queue length of each level, most aggressive first,
/// down to the given depth.
pub open spec fn level_sizes(side: Side, depth: nat) -> Seq<(Price, usize)> {
    top_prices(side, depth).map_values(|p: Price| (p, side[p].len() as usize))
}

fn top_levels(levels: &BTreeMap<Price, PriceLevel>, depth: usize) -> (tops: Vec<(Price, usize)>)
    ensures
        tops@ == level_sizes(side_view(levels@), depth as nat),
{
    let prices = prices_descending(levels);
    let n = prices.len();
    let shown = if depth == 0 || depth > n {
        n
    } else {
        depth
    };
    let ghost side = side_view(levels@);
    let mut tops: Vec<(Price, usize)> = Vec::new();
    let mut i: usize = 0;
    while i < shown
        invariant
            prices@ == prices_desc(side),
            is_desc_listing(side, prices@),
            side == side_view(levels@),
            shown <= prices@.len(),
            i <= shown,
            tops@.len() == i,
            forall|j: int| 0 <= j < i ==> tops@[j] == (prices@[j], side[prices@[j]].len() as usize),
        decreases shown - i,
    {
        let p = prices[i];
        assert(prices@.contains(p));
        let size = match levels.get(&p) {
            Some(level) => level.queue.len(),
            None => 0,
        };
        tops.push((p, size));
        i = i + 1;
    }
    assert(tops@ =~= level_sizes(side, depth as nat));
    tops
}

/// What a snapshot shows of the resting orders of one side, down to the
/// given depth.
fn side_details(levels: &BTreeMap<Price, PriceLevel>, depth: usize) -> (details: Vec<OrderDetail>)
    ensures
        detail_views(details@) == resting_orders(side_view(levels@), depth as nat).map_values(
            |o: OrderView| detail_of(o),
        ),
{
    let prices = prices_descending(levels);
    let n = prices.len();
    let shown = if depth == 0 || depth > n {
        n
    } else {
        depth
    };
    let ghost side = side_view(levels@);
    let ghost tops = top_prices(side, depth as nat);
    let mut details: Vec<OrderDetail> = Vec::new();
    let mut i: usize = 0;
    assert(tops.take(0) =~= Seq::<Price>::empty());
    assert(detail_views(details@) =~= concat_levels(side, tops.take(0)).map_values(
        |o: OrderView| detail_of(o),
    ));
    while i < shown
        invariant
            prices@ == prices_desc(side),
            is_desc_listing(side, prices@),
            side == side_view(levels@),
            tops == prices@.take(shown as int),
            shown <= prices@.len(),
            i <= shown,
            detail_views(details@) == concat_levels(side, tops.take(i as int)).map_values(
                |o: OrderView| detail_of(o),
            ),
        decreases shown - i,
    {
        let p = prices[i];
        assert(prices@.contains(p));
        let ghost before = detail_views(details@);
        let ghost queue = side[p];
        match levels.get(&p) {
            Some(level) => {
                let len = level.queue.len();
                let mut j: usize = 0;
                assert(queue.take(0) =~= Seq::<OrderView>::empty());
                while j < len
                    invariant
                        len == level.queue@.len(),
                        queue == level@,
                        j <= len,
                        detail_views(details@) == before + queue.take(j as int).map_values(
                            |o: OrderView| detail_of(o),
                        ),
                    decreases len - j,
                {
                    let o = &level.queue[j];
                    let ghost earlier = detail_views(details@);
                    let d = OrderDetail {
                        tx_id: o.tx_id.clone(),
                        account_id: o.account_id.clone(),
                        price_usd: o.price_usd,
                        qty: o.qty,
                    };
                    assert(d@ == detail_of(queue[j as int]));
                    details.push(d);
                    assert(detail_views(details@) =~= earlier.push(detail_of(queue[j as int])));
                    assert(queue.take(j + 1) =~= queue.take(j as int).push(queue[j as int]));
                    assert(queue.take(j + 1).map_values(|o: OrderView| detail_of(o)) =~= queue.take(
                        j as int,
                    ).map_values(|o: OrderView| detail_of(o)).push(detail_of(queue[j as int])));
                    j = j + 1;
                }
                assert(queue.take(len as int) =~= queue);
            },
            None => {},
        }
        proof {
            let done = tops.take(i + 1);
            assert(done.drop_last() =~= tops.take(i as int));
            assert(done.last() == p);
            assert(concat_levels(side, done) == concat_levels(side, tops.take(i as int)) + queue);
            assert((concat_levels(side, tops.take(i as int)) + queue).map_values(
                |o: OrderView| detail_of(o),
            ) =~= before + queue.map_values(|o: OrderView| detail_of(o)));
        }
        i = i + 1;
    }
    assert(tops.take(shown as int) =~= tops);
    details
}

/// The place of the oldest order with this id in the queue, if any has it.
fn find_in_level(level: &PriceLevel, tx_id: &String) -> (place: Option<usize>)
    ensures
        place is None <==> !level_has(level@, tx_id@),
        place matches Some(i) ==> is_first_with(level@, tx_id@, i as int),
{
    let n = level.queue.len();
    let mut i: usize = 0;
    while i < n
        invariant
            n == level.queue@.len(),
            i <= n,
            forall|j: int| 0 <= j < i ==> (#[trigger] level@[j]).tx_id != tx_id@,
        decreases n - i,
    {
        if level.queue[i].tx_id == *tx_id {
            assert(level@[i as int].tx_id == tx_id@);
            return Some(i);
        }
        i = i + 1;
    }
    None
}

/// Takes the order with this id out of the side, if the side holds it.
fn cancel_in_side(levels: &mut BTreeMap<Price, PriceLevel>, tx_id: &String) -> (removed: bool)
    ensures
        removed == side_has(side_view(old(levels)@), tx_id@),
        removed ==> side_view(final(levels)@) == cancel_side(side_view(old(levels)@), tx_id@),
        !removed ==> final(levels)@ == old(levels)@,
{
    let prices = prices_descending(levels);
    let ghost side = side_view(levels@);
    let n = prices.len();
    let mut i: usize = 0;
    let mut found: Option<(Price, usize)> = None;
    while i < n && found.is_none()
        invariant
            n == prices@.len(),
            i <= n,
            is_desc_listing(side, prices@),
            side == side_view(levels@),
            levels@ == old(levels)@,
            found is None ==> forall|j: int|
                0 <= j < i ==> !level_has(side[#[trigger] prices@[j]], tx_id@),
            found matches Some(hit) ==> is_cancel_price(side, tx_id@, hit.0) && is_first_with(
                side[hit.0],
                tx_id@,
                hit.1 as int,
            ),
        decreases n - i + (if found is None { 1nat } else { 0nat }),
    {
        let p = prices[i];
        assert(prices@.contains(p));
        match levels.get(&p) {
            Some(level) => {
                match find_in_level(level, tx_id) {
                    Some(at) => {
                        proof {
                            assert forall|q: Price| #[trigger]
                                side.contains_key(q) && level_has(side[q], tx_id@) implies q
                                <= p by {
                                assert(prices@.contains(q));
                                let j = choose|j: int| 0 <= j < prices@.len() && prices@[j] == q;
                                if j < i {
                                    assert(!level_has(side[prices@[j]], tx_id@));
                                }
                            }
                        }
                        found = Some((p, at));
                    },
                    None => {
                        i = i + 1;
                    },
                }
            },
            None => {
                i = i + 1;
            },
        }
    }
    match found {
        None => {
            proof {
                assert(!side_has(side, tx_id@)) by {
                    if side_has(side, tx_id@) {
                        let q = choose|q: Price| #[trigger]
                            side.contains_key(q) && level_has(side[q], tx_id@);
                        assert(prices@.contains(q));
                        let j = choose|j: int| 0 <= j < prices@.len() && prices@[j] == q;
                        assert(!level_has(side[prices@[j]], tx_id@));
                    }
                }
            }
            false
        },
        Some((p, at)) => {
            proof {
                lemma_cancel_price_unique(side, tx_id@, p);
                lemma_first_with_unique(side[p], tx_id@, at as int);
            }
            let mut level = levels.remove(&p).unwrap();
            let ghost queue = level@;
            level.queue.remove(at);
            if !level.is_empty() {
                levels.insert(p, level);
            }
            proof {
                assert(level@ =~= queue.remove(at as int));
                assert(side_view(levels@) =~= remove_at(side, p, at as int));
            }
            true
        },
    }
}

/// The sentinel reported as the best price of a side that holds no order:
/// the midpoint of the price range, half a dollar.
pub const MID_PRICE: Price = 500_000;

/// The greatest key of the map, or the midpoint where the map is empty.
fn best_or_mid(levels: &BTreeMap<Price, PriceLevel>) -> (price: Price)
    ensures
        price == best_or_mid_model(side_view(levels@)),
{
    let ghost side = side_view(levels@);
    match last_key(levels) {
        Some(k) => {
            proof {
                assert(is_best(side, k)) by {
                    assert forall|q: Price| #[trigger] side.contains_key(q) implies q <= k by {
                        assert(levels@.contains_key(q));
                    }
                }
                lemma_best_is_unique(side, k);
            }
            k
        },
        None => {
            proof {
                assert(!side.contains_key(best_price(side)));
            }
            MID_PRICE
        },
    }
}

/// The best price of a side, or the midpoint where the side holds no order.
pub open spec fn best_or_mid_model(side: Side) -> Price {
    if is_best(side, best_price(side)) {
        best_price(side)
    } else {
        MID_PRICE
    }
}

/// The side without its levels that hold no order.
pub open spec fn without_empty_levels(side: Side) -> Side {
    side.restrict(Set::new(|p: Price| side[p].len() > 0))
}

fn drop_empty_levels(levels: &mut BTreeMap<Price, PriceLevel>)
    ensures
        side_view(final(levels)@) == without_empty_levels(side_view(old(levels)@)),
{
    let keys = keys_ascending(levels);
    let ghost side = side_view(levels@);
    let n = keys.len();
    let mut i: usize = 0;
    while i < n
        invariant
            n == keys@.len(),
            i <= n,
            forall|q: Price| keys@.contains(q) <==> #[trigger] side.contains_key(q),
            forall|q: Price| #[trigger]
                side_view(levels@).contains_key(q) ==> side.contains_key(q) && side_view(levels@)[q]
                    == side[q],
            forall|q: Price| #[trigger]
                side.contains_key(q) ==> (side_view(levels@).contains_key(q) <==> side[q].len() > 0
                    || !keys@.take(i as int).contains(q)),
        decreases n - i,
    {
        let p = keys[i];
        assert(keys@.contains(p));
        let drained = match levels.get(&p) {
            Some(level) => level.is_empty(),
            None => false,
        };
        let ghost before = levels@;
        if drained {
            levels.remove(&p);
            assert(levels@ == before.remove(p));
        }
        proof {
            assert forall|q: Price| #[trigger] side_view(levels@).contains_key(q) implies side.contains_key(
                q,
            ) && side_view(levels@)[q] == side[q] by {
                assert(side_view(before).contains_key(q));
            }
            let seen = keys@.take(i as int);
            let next = keys@.take(i + 1);
            assert(next =~= seen.push(p));
            assert forall|q: Price| #[trigger] side.contains_key(q) implies (side_view(
                levels@,
            ).contains_key(q) <==> side[q].len() > 0 || !next.contains(q)) by {
                if q != p {
                    if next.contains(q) {
                        let j = choose|j: int| 0 <= j < next.len() && next[j] == q;
                        assert(seen[j] == q);
                    }
                    if seen.contains(q) {
                        let j = choose|j: int| 0 <= j < seen.len() && seen[j] == q;
                        assert(next[j] == q);
                    }
                } else {
                    assert(next[i as int] == p);
                }
            }
        }
        i = i + 1;
    }
    proof {
        assert(keys@.take(n as int) =~= keys@);
        assert(side_view(levels@) =~= without_empty_levels(side));
    }
}

/// Copies of the resting orders of one side, by price priority and, within
/// a price, oldest first.
fn side_orders(levels: &BTreeMap<Price, PriceLevel>, orders: &mut Vec<Order>)
    ensures
        order_views(final(orders)@) == order_views(old(orders)@) + resting_orders(
            side_view(levels@),
            0,
        ),
{
    let prices = prices_descending(levels);
    let n = prices.len();
    let ghost side = side_view(levels@);
    let ghost start = order_views(orders@);
    let mut i: usize = 0;
    assert(prices@.take(0) =~= Seq::<Price>::empty());
    assert(order_views(orders@) =~= start + concat_levels(side, prices@.take(0)));
    while i < n
        invariant
            n == prices@.len(),
            prices@ == prices_desc(side),
            is_desc_listing(side, prices@),
            side == side_view(levels@),
            i <= n,
            order_views(orders@) == start + concat_levels(side, prices@.take(i as int)),
        decreases n - i,
    {
        let p = prices[i];
        assert(prices@.contains(p));
        let ghost before = order_views(orders@);
        let ghost queue = side[p];
        match levels.get(&p) {
            Some(level) => {
                let len = level.queue.len();
                let mut j: usize = 0;
                assert(queue.take(0) =~= Seq::<OrderView>::empty());
                assert(before + queue.take(0) =~= before);
                while j < len
                    invariant
                        len == level.queue@.len(),
                        queue == level@,
                        j <= len,
                        order_views(orders@) == before + queue.take(j as int),
                    decreases len - j,
                {
                    let ghost earlier = order_views(orders@);
                    let copy = level.queue[j].clone();
                    assert(copy@ == queue[j as int]);
                    orders.push(copy);
                    assert(order_views(orders@) =~= earlier.push(queue[j as int]));
                    assert(queue.take(j + 1) =~= queue.take(j as int).push(queue[j as int]));
                    j = j + 1;
                }
                assert(queue.take(len as int) =~= queue);
            },
            None => {},
        }
        proof {
            let done = prices@.take(i + 1);
            assert(done.drop_last() =~= prices@.take(i as int));
            assert(done.last() == p);
            assert(concat_levels(side, done) == concat_levels(side, prices@.take(i as int))
                + queue);
            assert(start + (concat_levels(side, prices@.take(i as int)) + queue) =~= before
                + queue);
        }
        i = i + 1;
    }
    assert(prices@.take(n as int) =~= prices@);
}

impl OrderBook {
    /// An empty book.
    pub fn new() -> (book: Self)
        ensures
            book@.bids == Map::<Price, Seq<OrderView>>::empty(),
            book@.asks == Map::<Price, Seq<OrderView>>::empty(),
            book@.wf(),
            book@.uncrossed(),
    {
        let book = OrderBook { bids: BTreeMap::new(), asks: BTreeMap::new() };
        proof {
            assert(book@.bids =~= Map::<Price, Seq<OrderView>>::empty());
            assert(book@.asks =~= Map::<Price, Seq<OrderView>>::empty());
        }
        book
    }

    /// Puts the order at the back of the queue at its price, without
    /// matching it. An order that may not enter a book is turned away and
    /// the book stays as it was.
    pub fn insert_order(&mut self, order: Order) -> (done: Result<(), OrderError>)
        ensures
            done is Ok <==> order_valid(order@),
            done is Ok ==> final(self)@ == insert_model(old(self)@, order@),
            done matches Err(e) ==> e == rejection(order@) && final(self)@ == old(self)@,
            old(self)@.wf() ==> final(self)@.wf(),
    {
        match validate(&order) {
            Err(e) => Err(e),
            Ok(()) => {
                proof {
                    if self@.wf() {
                        lemma_insert_model(self@, order@);
                    }
                }
                if order.price_usd > 0 {
                    rest(&mut self.bids, order);
                } else {
                    rest(&mut self.asks, order);
                }
                Ok(())
            },
        }
    }

    /// A handle on the oldest order at the highest bid, with that price, or
    /// `None` when no bid rests. Through the handle the caller may change the
    /// order in place; nothing else in the book changes.
    pub fn best_bid_mut(&mut self) -> (best: Option<(Price, &mut Order)>)
        requires
            old(self)@.wf(),
        ensures
            best.is_none() <==> forall|p: Price| !old(self)@.bids.contains_key(p),
            best.is_none() ==> final(self)@ == old(self)@,
            best.is_some() ==> {
                let p = best.unwrap().0;
                &&& is_best(old(self)@.bids, p)
                &&& (*best.unwrap().1)@ == old(self)@.bids[p][0]
                &&& final(self)@.bids == old(self)@.bids.insert(
                    p,
                    old(self)@.bids[p].update(0, (*final(best.unwrap().1))@),
                )
                &&& final(self)@.asks == old(self)@.asks
            },
    {
        assert forall|p: Price| #[trigger] self.bids@.contains_key(p) implies self.bids@[p]@.len()
            > 0 by {
            assert(self@.bids.contains_key(p));
            assert(level_wf(self@.bids[p], p));
        }
        best_mut(&mut self.bids)
    }

    /// A handle on the oldest order at the lowest ask, with that price, or
    /// `None` when no ask rests. Through the handle the caller may change the
    /// order in place; nothing else in the book changes.
    pub fn best_ask_mut(&mut self) -> (best: Option<(Price, &mut Order)>)
        requires
            old(self)@.wf(),
        ensures
            best.is_none() <==> forall|p: Price| !old(self)@.asks.contains_key(p),
            best.is_none() ==> final(self)@ == old(self)@,
            best.is_some() ==> {
                let p = best.unwrap().0;
                &&& is_best(old(self)@.asks, p)
                &&& (*best.unwrap().1)@ == old(self)@.asks[p][0]
                &&& final(self)@.asks == old(self)@.asks.insert(
                    p,
                    old(self)@.asks[p].update(0, (*final(best.unwrap().1))@),
                )
                &&& final(self)@.bids == old(self)@.bids
            },
    {
        assert forall|p: Price| #[trigger] self.asks@.contains_key(p) implies self.asks@[p]@.len()
            > 0 by {
            assert(self@.asks.contains_key(p));
            assert(level_wf(self@.asks[p], p));
        }
        best_mut(&mut self.asks)
    }

    /// Removes the level at `price` where it holds no order, and tells
    /// whether it did. The sign of the price names the side.
    pub fn pop_if_drained(&mut self, price: Price) -> (popped: bool)
        ensures
            popped == (own_side(old(self)@, price as int).contains_key(price) && own_side(
                old(self)@,
                price as int,
            )[price].len() == 0),
            popped ==> own_side(final(self)@, price as int) == own_side(
                old(self)@,
                price as int,
            ).remove(price) && facing_side(final(self)@, price as int) == facing_side(
                old(self)@,
                price as int,
            ),
            !popped ==> final(self)@ == old(self)@,
    {
        let drained = if price > 0 {
            match self.bids.get(&price) {
                Some(level) => level.is_empty(),
                None => false,
            }
        } else {
            match self.asks.get(&price) {
                Some(level) => level.is_empty(),
                None => false,
            }
        };
        if drained {
            if price > 0 {
                self.bids.remove(&price);
                assert(self@.bids =~= old(self)@.bids.remove(price));
            } else {
                self.asks.remove(&price);
                assert(self@.asks =~= old(self)@.asks.remove(price));
            }
        }
        drained
    }

    /// Removes every level that holds no order, on both sides.
    pub fn cleanup_empty_levels(&mut self)
        ensures
            final(self)@.bids == without_empty_levels(old(self)@.bids),
            final(self)@.asks == without_empty_levels(old(self)@.asks),
    {
        drop_empty_levels(&mut self.bids);
        drop_empty_levels(&mut self.asks);
    }

    /// Removes the resting order with this id, and tells whether there was
    /// one. The bids are searched first.
    pub fn cancel(&mut self, tx_id: &String) -> (removed: bool)
        ensures
            removed == book_has(old(self)@, tx_id@),
            final(self)@ == cancel_model(old(self)@, tx_id@),
            old(self)@.wf() ==> final(self)@.wf(),
            old(self)@.wf() && old(self)@.uncrossed() ==> final(self)@.uncrossed(),
            old(self)@.wf() ==> forall|other: Seq<char>| #[trigger]
                book_has(final(self)@, other) ==> book_has(
                    old(self)@,
                    other,
                ),
            old(self)@.wf() && old(self)@.ids_unique() ==> final(self)@.ids_unique()
                && !book_has(final(self)@, tx_id@),
    {
        proof {
            if self@.wf() {
                lemma_cancel_model(self@, tx_id@);
                lemma_cancel_ids(self@, tx_id@);
            }
        }
        if cancel_in_side(&mut self.bids, tx_id) {
            true
        } else {
            cancel_in_side(&mut self.asks, tx_id)
        }
    }

    /// The best bid and the best ask, each as the book keys it: the bid
    /// positive, the ask negative. A side that holds no order reports the
    /// midpoint, [`MID_PRICE`].
    pub fn best_prices(&self) -> (best: (Price, Price))
        ensures
            best.0 == best_or_mid_model(self@.bids),
            best.1 == best_or_mid_model(self@.asks),
    {
        (best_or_mid(&self.bids), best_or_mid(&self.asks))
    }

    /// The price and the queue length of each level of both sides, bids
    /// first, each side most aggressive first, down to `depth` levels a
    /// side; a depth of zero shows every level.
    pub fn snapshot_top(&self, depth: usize) -> (tops: (Vec<(Price, usize)>, Vec<(Price, usize)>))
        ensures
            tops.0@ == level_sizes(self@.bids, depth as nat),
            tops.1@ == level_sizes(self@.asks, depth as nat),
    {
        (top_levels(&self.bids, depth), top_levels(&self.asks, depth))
    }

    /// The resting orders of both sides, each side by price priority and,
    /// within a price, oldest first, down to `depth` levels a side; a depth
    /// of zero shows every order.
    pub fn snapshot(&self, depth: usize) -> (shot: BookSnapshot)
        ensures
            detail_views(shot.bids@) == resting_orders(self@.bids, depth as nat).map_values(
                |o: OrderView| detail_of(o),
            ),
            detail_views(shot.asks@) == resting_orders(self@.asks, depth as nat).map_values(
                |o: OrderView| detail_of(o),
            ),
    {
        BookSnapshot {
            bids: side_details(&self.bids, depth),
            asks: side_details(&self.asks, depth),
        }
    }

    /// Copies of every resting order, the bids first, each side by price
    /// priority and, within a price, oldest first.
    pub fn resting(&self) -> (orders: Vec<Order>)
        ensures
            order_views(orders@) == all_resting(self@),
    {
        let mut orders: Vec<Order> = Vec::new();
        assert(order_views(orders@) =~= Seq::<OrderView>::empty());
        side_orders(&self.bids, &mut orders);
        side_orders(&self.asks, &mut orders);
        assert(Seq::<OrderView>::empty() + resting_orders(self@.bids, 0) =~= resting_orders(
            self@.bids,
            0,
        ));
        orders
    }

    /// Adds to `found` a copy of every resting order whose account is
    /// `account` when case is ignored, in the order of [`OrderBook::resting`].
    /// `account` is given in lower case.
    pub fn collect_for_account(&self, account: &String, found: &mut Vec<Order>)
        ensures
            order_views(final(found)@) == order_views(old(found)@) + owned_by(
                all_resting(self@),
                account@,
            ),
    {
        let all = self.resting();
        let n = all.len();
        let ghost start = order_views(found@);
        let ghost views = order_views(all@);
        let mut i: usize = 0;
        assert(views.take(0) =~= Seq::<OrderView>::empty());
        assert(start + owned_by(views.take(0), account@) =~= start);
        while i < n
            invariant
                n == all@.len(),
                views == order_views(all@),
                i <= n,
                order_views(found@) == start + owned_by(views.take(i as int), account@),
            decreases n - i,
        {
            let owner = ascii_lowercase(all[i].account_id.as_str());
            let ghost earlier = order_views(found@);
            proof {
                assert(views.take(i + 1).drop_last() =~= views.take(i as int));
                assert(views.take(i + 1).last() == all@[i as int]@);
            }
            if owner == *account {
                found.push(all[i].clone());
                assert(order_views(found@) =~= earlier.push(all@[i as int]@));
            }
            i = i + 1;
        }
        assert(views.take(n as int) =~= views);
    }

    /// Applies an incoming order: matches it against the side it faces at
    /// the resting orders' prices, best price first and oldest order first,
    /// then rests what is left on its own side, or drops it where the order
    /// may not rest. An order that may not enter a book is turned away and
    /// the book stays as it was.
    pub fn add_order(&mut self, order: Order) -> (done: Result<Applied, OrderError>)
        requires
            old(self)@.wf(),
            old(self)@.uncrossed(),
        ensures
            done is Ok <==> order_valid(order@),
            done matches Err(e) ==> e == rejection(order@) && final(self)@ == old(self)@,
            done matches Ok(a) ==> {
                &&& final(self)@ == apply_model(old(self)@, order@).book
                &&& event_views(a.events@) == apply_model(old(self)@, order@).events
                &&& a.rested == apply_model(old(self)@, order@).rested
                &&& a.discarded == apply_model(old(self)@, order@).discarded
                &&& sum_fills(event_views(a.events@)) + a.rested + a.discarded == order.qty
                &&& side_qty(facing_side(old(self)@, order@.price_usd)) == side_qty(
                    facing_side(final(self)@, order@.price_usd),
                ) + sum_fills(event_views(a.events@))
                &&& forall|i: int|
                    0 <= i < a.events@.len() ==> (#[trigger] a.events@[i]).yes.price_usd > 0
                        && a.events@[i].no.price_usd < 0
            },
            final(self)@.wf(),
            final(self)@.uncrossed(),
            forall|tx: Seq<char>| #[trigger]
                book_has(final(self)@, tx) ==> book_has(old(self)@, tx)
                    || tx == order@.tx_id,
            old(self)@.ids_unique() && !book_has(old(self)@, order@.tx_id) ==> final(self)@.ids_unique(),
    {
        match validate(&order) {
            Err(e) => Err(e),
            Ok(()) => {
                let mut order = order;
                let ghost incoming = order@;
                proof {
                    lemma_apply_model(self@, incoming);
                    lemma_apply_ids(self@, incoming);
                }
                let events = if order.price_usd > 0 {
                    match_order(&mut self.asks, &mut order)
                } else {
                    match_order(&mut self.bids, &mut order)
                };
                let ghost remainder = order@;
                proof {
                    lemma_match_model(
                        facing_side(old(self)@, incoming.price_usd),
                        incoming,
                        !(incoming.price_usd > 0),
                    );
                    assert(remainder == with_qty(incoming, remainder.qty));
                }
                let left = order.qty;
                let mut rested: Quantity = 0;
                let mut discarded: Quantity = 0;
                if left > 0 {
                    if order.market_limit {
                        discarded = left;
                    } else {
                        rested = left;
                        if order.price_usd > 0 {
                            rest(&mut self.bids, order);
                        } else {
                            rest(&mut self.asks, order);
                        }
                    }
                }
                proof {
                    let r = apply_model(old(self)@, incoming);
                    assert(self@.bids == r.book.bids);
                    assert(self@.asks == r.book.asks);
                    assert forall|i: int| 0 <= i < events@.len() implies (#[trigger] events@[i]).yes.price_usd
                        > 0 && events@[i].no.price_usd < 0 by {
                        assert(event_views(events@)[i] == events@[i]@);
                    }
                }
                Ok(Applied { events, rested, discarded })
            },
        }
    }
}

} // verus!
