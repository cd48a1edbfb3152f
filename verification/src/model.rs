//! The mathematical model of a book: each side is a map from price to the
//! queue of orders resting there, and matching is a function on that map.

use crate::text::lower_model;
use crate::types::{OrderView, Price};
use vstd::prelude::*;

verus! {

/// One side of a book: the orders resting at each price, oldest first.
pub type Side = Map<Price, Seq<OrderView>>;

/// The magnitude of a signed price.
pub open spec fn magnitude(p: int) -> int {
    if p < 0 {
        -p
    } else {
        p
    }
}

/// A bid and an ask can trade: the bid meets or exceeds the magnitude of the
/// ask. With the side carried by the sign, that is a sum that is not negative.
pub open spec fn crosses(taker: int, maker: int) -> bool {
    taker + maker >= 0
}

/// A queue that may stand in a book under the key `p`: not empty, every
/// order priced at `p` and with something left to fill.
pub open spec fn level_wf(level: Seq<OrderView>, p: Price) -> bool {
    &&& level.len() > 0
    &&& forall|i: int|
        0 <= i < level.len() ==> (#[trigger] level[i]).price_usd == p && level[i].qty > 0
}

/// The keys a side may hold: positive for bids, negative for asks, and never
/// the one price whose magnitude does not fit.
pub open spec fn key_ok(p: Price, bid: bool) -> bool {
    if bid {
        p > 0
    } else {
        i64::MIN < p < 0
    }
}

pub open spec fn side_wf(side: Side, bid: bool) -> bool {
    &&& side.dom().finite()
    &&& forall|p: Price| #[trigger] side.contains_key(p) ==> key_ok(p, bid) && level_wf(side[p], p)
}

/// `p` is the most aggressive price of the side. On both sides that is the
/// greatest key: the highest bid, and the ask closest to zero.
pub open spec fn is_best(side: Side, p: Price) -> bool {
    &&& side.contains_key(p)
    &&& forall|q: Price| #[trigger] side.contains_key(q) ==> q <= p
}

pub open spec fn best_price(side: Side) -> Price {
    choose|p: Price| is_best(side, p)
}

pub proof fn lemma_best_is_unique(side: Side, p: Price)
    requires
        is_best(side, p),
    ensures
        best_price(side) == p,
        is_best(side, best_price(side)),
{
    let b = best_price(side);
    assert(is_best(side, b));
    assert(side.contains_key(b) && side.contains_key(p));
}

pub proof fn lemma_finite_set_has_max(s: Set<Price>)
    requires
        s.finite(),
        s.len() > 0,
    ensures
        exists|m: Price| s.contains(m) && forall|q: Price| s.contains(q) ==> q <= m,
    decreases s.len(),
{
    let x = s.choose();
    let rest = s.remove(x);
    if rest.len() == 0 {
        assert forall|q: Price| s.contains(q) implies q <= x by {
            if q != x {
                assert(rest.contains(q));
            }
        }
        assert(s.contains(x) && forall|q: Price| s.contains(q) ==> q <= x);
    } else {
        lemma_finite_set_has_max(rest);
        let m0 = choose|m: Price| rest.contains(m) && forall|q: Price| rest.contains(q) ==> q <= m;
        let m = if x > m0 {
            x
        } else {
            m0
        };
        assert forall|q: Price| s.contains(q) implies q <= m by {
            if q != x {
                assert(rest.contains(q));
            }
        }
        assert(s.contains(m) && forall|q: Price| s.contains(q) ==> q <= m);
    }
}

/// A side that holds anything has a best price.
pub proof fn lemma_best_exists(side: Side)
    requires
        side.dom().finite(),
        side.dom().len() > 0,
    ensures
        is_best(side, best_price(side)),
{
    lemma_finite_set_has_max(side.dom());
    let m = choose|m: Price|
        side.dom().contains(m) && forall|q: Price| side.dom().contains(q) ==> q <= m;
    assert(is_best(side, m));
}

/// The side after `o` joins the back of the queue at its own price.
pub open spec fn rest_model(side: Side, o: OrderView, p: Price) -> Side {
    if side.contains_key(p) {
        side.insert(p, side[p].push(o))
    } else {
        side.insert(p, seq![o])
    }
}

/// The side after the oldest order at `p` leaves; a drained level goes with it.
pub open spec fn drop_head(side: Side, p: Price) -> Side {
    if side[p].len() <= 1 {
        side.remove(p)
    } else {
        side.insert(p, side[p].subrange(1, side[p].len() as int))
    }
}

/// The same order with another quantity.
pub open spec fn with_qty(o: OrderView, qty: nat) -> OrderView {
    OrderView { qty, ..o }
}

/// What one fill publishes: both orders as they stand after the fill, the
/// bid first, with the quantity traded and the resting order's price.
pub struct MatchEventView {
    pub partial: bool,
    pub yes: OrderView,
    pub no: OrderView,
    pub fill: nat,
    pub price: int,
}

/// The event for a fill of `fill` between `taker` and `maker`, both given as
/// they stand after it. It is partial while the taker has quantity left.
pub open spec fn event_model(taker: OrderView, maker: OrderView, fill: nat) -> MatchEventView {
    MatchEventView {
        partial: taker.qty > 0,
        yes: if taker.price_usd > 0 {
            taker
        } else {
            maker
        },
        no: if taker.price_usd > 0 {
            maker
        } else {
            taker
        },
        fill,
        price: magnitude(maker.price_usd),
    }
}

/// Where matching leaves off: the opposite side, the incoming order with
/// what is left of it, and the events in the order they were produced.
pub struct MatchView {
    pub opp: Side,
    pub taker: OrderView,
    pub events: Seq<MatchEventView>,
}

/// Price-time priority matching of `taker` against the opposite side: while
/// the best resting order crosses, fill the smaller of the two quantities at
/// the head of the best level, oldest order first.
pub open spec fn match_model(opp: Side, taker: OrderView) -> MatchView
    decreases taker.qty,
{
    let p = best_price(opp);
    if taker.qty == 0 || !is_best(opp, p) || opp[p].len() == 0 || !crosses(taker.price_usd, p as int)
        || opp[p][0].qty == 0 {
        MatchView { opp, taker, events: seq![] }
    } else {
        let head = opp[p][0];
        let fill = if taker.qty <= head.qty {
            taker.qty
        } else {
            head.qty
        };
        let maker = with_qty(head, (head.qty - fill) as nat);
        let left = with_qty(taker, (taker.qty - fill) as nat);
        let opp2 = if maker.qty == 0 {
            drop_head(opp, p)
        } else {
            opp.insert(p, opp[p].update(0, maker))
        };
        let rest = match_model(opp2, left);
        MatchView {
            opp: rest.opp,
            taker: rest.taker,
            events: seq![event_model(left, maker, fill)] + rest.events,
        }
    }
}

/// The total quantity the events traded.
pub open spec fn sum_fills(events: Seq<MatchEventView>) -> nat
    decreases events.len(),
{
    if events.len() == 0 {
        0
    } else {
        events[0].fill + sum_fills(events.subrange(1, events.len() as int))
    }
}

/// The total quantity waiting in one queue.
pub open spec fn level_qty(level: Seq<OrderView>) -> nat
    decreases level.len(),
{
    if level.len() == 0 {
        0
    } else {
        level[0].qty + level_qty(level.subrange(1, level.len() as int))
    }
}

/// The total quantity resting on a side.
pub open spec fn side_qty(side: Side) -> nat
    decreases side.dom().len(),
    when side.dom().finite()
{
    if side.dom().len() == 0 {
        0
    } else {
        let p = side.dom().choose();
        level_qty(side[p]) + side_qty(side.remove(p))
    }
}

/// A book at rest: both sides, each well formed.
pub struct BookView {
    pub bids: Side,
    pub asks: Side,
}

impl BookView {
    pub open spec fn wf(self) -> bool {
        side_wf(self.bids, true) && side_wf(self.asks, false)
    }

    /// No bid meets any ask: the best bid is below the magnitude of the best ask.
    pub open spec fn uncrossed(self) -> bool {
        forall|b: Price, a: Price|
            #[trigger] self.bids.contains_key(b) && #[trigger] self.asks.contains_key(a) ==> !crosses(
                b as int,
                a as int,
            )
    }
}

/// Taking any level out of the sum leaves the sum of the others.
pub proof fn lemma_side_qty_split(side: Side, p: Price)
    requires
        side.dom().finite(),
        side.contains_key(p),
    ensures
        side_qty(side) == level_qty(side[p]) + side_qty(side.remove(p)),
    decreases side.dom().len(),
{
    let c = side.dom().choose();
    if c != p {
        let without_c = side.remove(c);
        let without_p = side.remove(p);
        lemma_side_qty_split(without_c, p);
        lemma_side_qty_split(without_p, c);
        assert(without_c.remove(p) =~= without_p.remove(c));
    }
}

/// Putting a queue under `p` changes the sum by the difference at `p`.
pub proof fn lemma_side_qty_insert(side: Side, p: Price, level: Seq<OrderView>)
    requires
        side.dom().finite(),
    ensures
        side_qty(side.insert(p, level)) == level_qty(level) + side_qty(side.remove(p)),
{
    let after = side.insert(p, level);
    lemma_side_qty_split(after, p);
    assert(after.remove(p) =~= side.remove(p));
}

pub proof fn lemma_level_qty_push(level: Seq<OrderView>, o: OrderView)
    ensures
        level_qty(level.push(o)) == level_qty(level) + o.qty,
    decreases level.len(),
{
    let pushed = level.push(o);
    if level.len() == 0 {
        assert(pushed.subrange(1, 1) =~= Seq::<OrderView>::empty());
        assert(level_qty(pushed.subrange(1, 1)) == 0);
    } else {
        let tail = level.subrange(1, level.len() as int);
        lemma_level_qty_push(tail, o);
        assert(pushed.subrange(1, pushed.len() as int) =~= tail.push(o));
    }
}

pub proof fn lemma_level_qty_update_head(level: Seq<OrderView>, o: OrderView)
    requires
        level.len() > 0,
    ensures
        level_qty(level.update(0, o)) + level[0].qty == level_qty(level) + o.qty,
{
    let updated = level.update(0, o);
    assert(updated.subrange(1, updated.len() as int) =~= level.subrange(1, level.len() as int));
}

pub proof fn lemma_sum_fills_prepend(e: MatchEventView, rest: Seq<MatchEventView>)
    ensures
        sum_fills(seq![e] + rest) == e.fill + sum_fills(rest),
{
    let all = seq![e] + rest;
    assert(all.subrange(1, all.len() as int) =~= rest);
}

/// The incoming order is on the side opposite to the one it matches against.
pub open spec fn taker_faces(taker: OrderView, opp_is_bid: bool) -> bool {
    if opp_is_bid {
        taker.price_usd < 0
    } else {
        taker.price_usd > 0
    }
}

/// One step of matching keeps the opposite side well formed and moves the
/// filled quantity from the head order into the event.
pub proof fn lemma_match_step(opp: Side, p: Price, maker: OrderView, opp_is_bid: bool)
    requires
        side_wf(opp, opp_is_bid),
        is_best(opp, p),
        maker == with_qty(opp[p][0], maker.qty),
        maker.qty < opp[p][0].qty,
    ensures
        ({
            let opp2 = if maker.qty == 0 {
                drop_head(opp, p)
            } else {
                opp.insert(p, opp[p].update(0, maker))
            };
            &&& side_wf(opp2, opp_is_bid)
            &&& side_qty(opp) == side_qty(opp2) + (opp[p][0].qty - maker.qty)
            &&& forall|q: Price| #[trigger] opp2.contains_key(q) ==> opp.contains_key(q)
        }),
{
    let level = opp[p];
    let tail = level.subrange(1, level.len() as int);
    lemma_side_qty_split(opp, p);
    if maker.qty == 0 {
        let opp2 = drop_head(opp, p);
        if level.len() <= 1 {
            assert(tail =~= Seq::<OrderView>::empty());
            assert(level_qty(tail) == 0);
        } else {
            lemma_side_qty_insert(opp, p, tail);
            assert forall|q: Price| #[trigger] opp2.contains_key(q) implies key_ok(q, opp_is_bid)
                && level_wf(opp2[q], q) by {
                if q == p {
                    assert forall|i: int| 0 <= i < tail.len() implies (#[trigger] tail[i]).price_usd
                        == p && tail[i].qty > 0 by {
                        assert(tail[i] == level[i + 1]);
                    }
                } else {
                    assert(opp.contains_key(q));
                }
            }
        }
    } else {
        let updated = level.update(0, maker);
        let opp2 = opp.insert(p, updated);
        lemma_side_qty_insert(opp, p, updated);
        lemma_level_qty_update_head(level, maker);
        assert forall|q: Price| #[trigger] opp2.contains_key(q) implies key_ok(q, opp_is_bid)
            && level_wf(opp2[q], q) by {
            if q == p {
                assert forall|i: int| 0 <= i < updated.len() implies (#[trigger] updated[i]).price_usd
                    == p && updated[i].qty > 0 by {
                    if i != 0 {
                        assert(updated[i] == level[i]);
                    }
                }
            } else {
                assert(opp.contains_key(q));
            }
        }
    }
}

/// What matching guarantees, whatever the book and the order: the opposite
/// side stays well formed and gains no level; the incoming order changes in
/// quantity only; every unit it loses is in exactly one event and left
/// exactly one resting order; each event lists the bid first; and matching
/// stops early only when nothing that is left crosses.
pub proof fn lemma_match_model(opp: Side, taker: OrderView, opp_is_bid: bool)
    requires
        side_wf(opp, opp_is_bid),
        taker_faces(taker, opp_is_bid),
    ensures
        ({
            let m = match_model(opp, taker);
            &&& side_wf(m.opp, opp_is_bid)
            &&& m.taker == with_qty(taker, m.taker.qty)
            &&& sum_fills(m.events) + m.taker.qty == taker.qty
            &&& side_qty(opp) == side_qty(m.opp) + sum_fills(m.events)
            &&& forall|q: Price| #[trigger] m.opp.contains_key(q) ==> opp.contains_key(q)
            &&& m.taker.qty > 0 ==> forall|q: Price| #[trigger]
                m.opp.contains_key(q) ==> !crosses(taker.price_usd, q as int)
            &&& forall|i: int|
                0 <= i < m.events.len() ==> {
                    &&& (#[trigger] m.events[i]).yes.price_usd > 0
                    &&& m.events[i].no.price_usd < 0
                    &&& m.events[i].fill > 0
                    &&& m.events[i].price > 0
                }
        }),
    decreases taker.qty,
{
    let p = best_price(opp);
    let m = match_model(opp, taker);
    if taker.qty == 0 || !is_best(opp, p) || opp[p].len() == 0 || !crosses(
        taker.price_usd,
        p as int,
    ) || opp[p][0].qty == 0 {
        assert(m.events =~= Seq::<MatchEventView>::empty());
        assert(sum_fills(m.events) == 0);
        if taker.qty > 0 {
            if opp.dom().len() > 0 {
                lemma_best_exists(opp);
                assert(opp.contains_key(p));
                assert(level_wf(opp[p], p));
            } else {
                assert forall|q: Price| #[trigger] opp.contains_key(q) implies false by {
                    assert(opp.dom().contains(q));
                }
            }
        }
    } else {
        let head = opp[p][0];
        let fill = if taker.qty <= head.qty {
            taker.qty
        } else {
            head.qty
        };
        let maker = with_qty(head, (head.qty - fill) as nat);
        let left = with_qty(taker, (taker.qty - fill) as nat);
        let opp2 = if maker.qty == 0 {
            drop_head(opp, p)
        } else {
            opp.insert(p, opp[p].update(0, maker))
        };
        assert(level_wf(opp[p], p));
        lemma_match_step(opp, p, maker, opp_is_bid);
        lemma_match_model(opp2, left, opp_is_bid);
        let rest = match_model(opp2, left);
        let e = event_model(left, maker, fill);
        lemma_sum_fills_prepend(e, rest.events);
        assert(m.events == seq![e] + rest.events);
        assert forall|i: int| 0 <= i < m.events.len() implies {
            &&& (#[trigger] m.events[i]).yes.price_usd > 0
            &&& m.events[i].no.price_usd < 0
            &&& m.events[i].fill > 0
            &&& m.events[i].price > 0
        } by {
            if i > 0 {
                assert(m.events[i] == rest.events[i - 1]);
            }
        }
        assert forall|q: Price| #[trigger] m.opp.contains_key(q) implies opp.contains_key(q) by {
            assert(opp2.contains_key(q));
        }
    }
}

/// Resting a valid order keeps its side well formed.
pub proof fn lemma_rest_wf(side: Side, o: OrderView, p: Price, bid: bool)
    requires
        side_wf(side, bid),
        key_ok(p, bid),
        o.price_usd == p,
        o.qty > 0,
    ensures
        side_wf(rest_model(side, o, p), bid),
        side_qty(rest_model(side, o, p)) == side_qty(side) + o.qty,
        forall|q: Price| #[trigger] rest_model(side, o, p).contains_key(q) ==> q == p || side.contains_key(q),
{
    let after = rest_model(side, o, p);
    let level = after[p];
    assert forall|q: Price| #[trigger] after.contains_key(q) implies key_ok(q, bid) && level_wf(
        after[q],
        q,
    ) by {
        if q == p {
            assert forall|i: int| 0 <= i < level.len() implies (#[trigger] level[i]).price_usd == p
                && level[i].qty > 0 by {
                if side.contains_key(p) && i < side[p].len() {
                    assert(level[i] == side[p][i]);
                }
            }
        } else {
            assert(side.contains_key(q));
        }
    }
    lemma_side_qty_insert(side, p, level);
    if side.contains_key(p) {
        lemma_side_qty_split(side, p);
        lemma_level_qty_push(side[p], o);
    } else {
        assert(side.remove(p) =~= side);
        lemma_level_qty_push(Seq::<OrderView>::empty(), o);
    }
}

/// The order may enter a book: its price is not zero and has a magnitude,
/// and it asks for something.
pub open spec fn order_valid(o: OrderView) -> bool {
    &&& o.price_usd != 0
    &&& i64::MIN < o.price_usd <= i64::MAX
    &&& o.qty > 0
}

/// The book after `o` is put at the back of the queue at its price, with no
/// matching.
pub open spec fn insert_model(book: BookView, o: OrderView) -> BookView {
    if o.price_usd > 0 {
        BookView { bids: rest_model(book.bids, o, o.price_usd as Price), asks: book.asks }
    } else {
        BookView { bids: book.bids, asks: rest_model(book.asks, o, o.price_usd as Price) }
    }
}

/// What applying an order does: the book it leaves, the events it produces
/// in order, and where the unfilled remainder went.
pub struct ApplyView {
    pub book: BookView,
    pub events: Seq<MatchEventView>,
    pub rested: nat,
    pub discarded: nat,
}

/// The side on which an order at this price rests.
pub open spec fn own_side(book: BookView, price: int) -> Side {
    if price > 0 {
        book.bids
    } else {
        book.asks
    }
}

/// The side that an order at this price is matched against.
pub open spec fn facing_side(book: BookView, price: int) -> Side {
    if price > 0 {
        book.asks
    } else {
        book.bids
    }
}

/// Applying an order: match it against the side it faces; then what is left
/// rests on its own side, unless the order may not rest, in which case what
/// is left is dropped.
pub open spec fn apply_model(book: BookView, o: OrderView) -> ApplyView {
    let m = match_model(facing_side(book, o.price_usd), o);
    let left = m.taker.qty;
    let rests = left > 0 && !o.market_limit;
    let matched = if o.price_usd > 0 {
        BookView { bids: book.bids, asks: m.opp }
    } else {
        BookView { bids: m.opp, asks: book.asks }
    };
    ApplyView {
        book: if rests {
            insert_model(matched, m.taker)
        } else {
            matched
        },
        events: m.events,
        rested: if rests {
            left
        } else {
            0
        },
        discarded: if left > 0 && o.market_limit {
            left
        } else {
            0
        },
    }
}

/// Inserting a valid order keeps the book well formed, and adds the order's
/// quantity to its own side.
pub proof fn lemma_insert_model(book: BookView, o: OrderView)
    requires
        book.wf(),
        order_valid(o),
    ensures
        insert_model(book, o).wf(),
{
    if o.price_usd > 0 {
        lemma_rest_wf(book.bids, o, o.price_usd as Price, true);
    } else {
        lemma_rest_wf(book.asks, o, o.price_usd as Price, false);
    }
}

/// Applying a valid order to a book at rest leaves a book at rest: well
/// formed and not crossed. Every unit of the order is accounted for once:
/// traded, resting or dropped. What the events traded is what the facing
/// side lost, and what rested is what the order's own side gained. Each
/// event lists the bid first.
pub proof fn lemma_apply_model(book: BookView, o: OrderView)
    requires
        book.wf(),
        book.uncrossed(),
        order_valid(o),
    ensures
        ({
            let r = apply_model(book, o);
            &&& r.book.wf()
            &&& r.book.uncrossed()
            &&& sum_fills(r.events) + r.rested + r.discarded == o.qty
            &&& r.rested == 0 || r.discarded == 0
            &&& side_qty(facing_side(book, o.price_usd)) == side_qty(
                facing_side(r.book, o.price_usd),
            ) + sum_fills(r.events)
            &&& side_qty(own_side(r.book, o.price_usd)) == side_qty(own_side(book, o.price_usd))
                + r.rested
            &&& forall|i: int|
                0 <= i < r.events.len() ==> {
                    &&& (#[trigger] r.events[i]).yes.price_usd > 0
                    &&& r.events[i].no.price_usd < 0
                    &&& r.events[i].fill > 0
                    &&& r.events[i].price > 0
                }
        }),
{
    let bid = o.price_usd > 0;
    let opp = facing_side(book, o.price_usd);
    let m = match_model(opp, o);
    let r = apply_model(book, o);
    lemma_match_model(opp, o, !bid);
    let matched = if bid {
        BookView { bids: book.bids, asks: m.opp }
    } else {
        BookView { bids: m.opp, asks: book.asks }
    };
    assert(matched.wf());
    assert(matched.uncrossed()) by {
        assert forall|b: Price, a: Price| #[trigger]
            matched.bids.contains_key(b) && #[trigger] matched.asks.contains_key(a) implies !crosses(
            b as int,
            a as int,
        ) by {
            assert(book.bids.contains_key(b) && book.asks.contains_key(a));
        }
    }
    if m.taker.qty > 0 && !o.market_limit {
        let p = o.price_usd as Price;
        if bid {
            lemma_rest_wf(book.bids, m.taker, p, true);
        } else {
            lemma_rest_wf(book.asks, m.taker, p, false);
        }
        assert forall|b: Price, a: Price| #[trigger]
            r.book.bids.contains_key(b) && #[trigger] r.book.asks.contains_key(a) implies !crosses(
            b as int,
            a as int,
        ) by {
            if bid {
                if b != p {
                    assert(matched.bids.contains_key(b));
                }
            } else {
                if a != p {
                    assert(matched.asks.contains_key(a));
                }
            }
        }
    }
}

/// `prices` lists every key of the side once, most aggressive first.
pub open spec fn is_desc_listing(side: Side, prices: Seq<Price>) -> bool {
    &&& forall|i: int, j: int| 0 <= i < j < prices.len() ==> prices[i] > prices[j]
    &&& forall|p: Price| prices.contains(p) <==> side.contains_key(p)
}

/// The prices of the side, most aggressive first.
pub open spec fn prices_desc(side: Side) -> Seq<Price> {
    choose|prices: Seq<Price>| is_desc_listing(side, prices)
}

proof fn lemma_desc_listing_prefix_unique(side: Side, a: Seq<Price>, b: Seq<Price>, n: int)
    requires
        is_desc_listing(side, a),
        is_desc_listing(side, b),
        0 <= n <= a.len(),
    ensures
        n <= b.len(),
        forall|i: int| 0 <= i < n ==> a[i] == b[i],
    decreases n,
{
    if n > 0 {
        lemma_desc_listing_prefix_unique(side, a, b, n - 1);
        let x = a[n - 1];
        assert(a.contains(x));
        assert(b.contains(x));
        let j = choose|j: int| 0 <= j < b.len() && b[j] == x;
        if j < n - 1 {
            assert(a[j] == b[j]);
        } else if j > n - 1 {
            let y = b[n - 1];
            assert(b.contains(y));
            assert(a.contains(y));
            let k = choose|k: int| 0 <= k < a.len() && a[k] == y;
            if k < n - 1 {
                assert(a[k] == b[k]);
            }
        }
    }
}

/// A side has one listing of its prices in descending order.
pub proof fn lemma_desc_listing_unique(side: Side, prices: Seq<Price>)
    requires
        is_desc_listing(side, prices),
    ensures
        prices_desc(side) == prices,
{
    let other = prices_desc(side);
    assert(is_desc_listing(side, other));
    lemma_desc_listing_prefix_unique(side, prices, other, prices.len() as int);
    lemma_desc_listing_prefix_unique(side, other, prices, other.len() as int);
    assert(other =~= prices);
}

/// How many levels a listing of depth `depth` shows out of `levels`: all of
/// them when the depth is zero.
pub open spec fn shown_levels(levels: nat, depth: nat) -> nat {
    if depth == 0 || depth > levels {
        levels
    } else {
        depth
    }
}

/// The most aggressive prices of the side, down to the given depth.
pub open spec fn top_prices(side: Side, depth: nat) -> Seq<Price> {
    prices_desc(side).take(shown_levels(prices_desc(side).len(), depth) as int)
}

/// The queues at the given prices, one after the other.
pub open spec fn concat_levels(side: Side, prices: Seq<Price>) -> Seq<OrderView>
    decreases prices.len(),
{
    if prices.len() == 0 {
        seq![]
    } else {
        concat_levels(side, prices.drop_last()) + side[prices.last()]
    }
}

/// The resting orders of the side down to the given depth, by price
/// priority and, within a price, oldest first.
pub open spec fn resting_orders(side: Side, depth: nat) -> Seq<OrderView> {
    concat_levels(side, top_prices(side, depth))
}

/// The queue holds an order with this id.
pub open spec fn level_has(level: Seq<OrderView>, tx: Seq<char>) -> bool {
    exists|i: int| 0 <= i < level.len() && (#[trigger] level[i]).tx_id == tx
}

/// `i` is the place of the oldest order with this id in the queue.
pub open spec fn is_first_with(level: Seq<OrderView>, tx: Seq<char>, i: int) -> bool {
    &&& 0 <= i < level.len()
    &&& level[i].tx_id == tx
    &&& forall|j: int| 0 <= j < i ==> (#[trigger] level[j]).tx_id != tx
}

pub open spec fn first_with(level: Seq<OrderView>, tx: Seq<char>) -> int {
    choose|i: int| is_first_with(level, tx, i)
}

/// The side holds an order with this id.
pub open spec fn side_has(side: Side, tx: Seq<char>) -> bool {
    exists|p: Price| #[trigger] side.contains_key(p) && level_has(side[p], tx)
}

/// `p` is the most aggressive price at which the side holds this id.
pub open spec fn is_cancel_price(side: Side, tx: Seq<char>, p: Price) -> bool {
    &&& side.contains_key(p)
    &&& level_has(side[p], tx)
    &&& forall|q: Price| #[trigger] side.contains_key(q) && level_has(side[q], tx) ==> q <= p
}

pub open spec fn cancel_price(side: Side, tx: Seq<char>) -> Price {
    choose|p: Price| is_cancel_price(side, tx, p)
}

/// The side after the order at place `i` of the queue at `p` leaves; a
/// drained level goes with it.
pub open spec fn remove_at(side: Side, p: Price, i: int) -> Side {
    if side[p].len() <= 1 {
        side.remove(p)
    } else {
        side.insert(p, side[p].remove(i))
    }
}

/// The book holds a resting order with this id.
pub open spec fn book_has(book: BookView, tx: Seq<char>) -> bool {
    side_has(book.bids, tx) || side_has(book.asks, tx)
}

/// The side without the order of this id. Were the id to rest more than
/// once, the one at the most aggressive price, and there the oldest, leaves.
pub open spec fn cancel_side(side: Side, tx: Seq<char>) -> Side {
    let p = cancel_price(side, tx);
    remove_at(side, p, first_with(side[p], tx))
}

/// The book without the resting order of this id; the book itself where no
/// order has it. The bids are searched first.
pub open spec fn cancel_model(book: BookView, tx: Seq<char>) -> BookView {
    if side_has(book.bids, tx) {
        BookView { bids: cancel_side(book.bids, tx), asks: book.asks }
    } else if side_has(book.asks, tx) {
        BookView { bids: book.bids, asks: cancel_side(book.asks, tx) }
    } else {
        book
    }
}

pub proof fn lemma_first_with_unique(level: Seq<OrderView>, tx: Seq<char>, i: int)
    requires
        is_first_with(level, tx, i),
    ensures
        first_with(level, tx) == i,
{
    let f = first_with(level, tx);
    assert(is_first_with(level, tx, f));
    if f < i {
        assert(level[f].tx_id != tx);
    } else if i < f {
        assert(level[i].tx_id != tx);
    }
}

pub proof fn lemma_cancel_price_unique(side: Side, tx: Seq<char>, p: Price)
    requires
        is_cancel_price(side, tx, p),
    ensures
        cancel_price(side, tx) == p,
        side_has(side, tx),
{
    let c = cancel_price(side, tx);
    assert(is_cancel_price(side, tx, c));
    assert(side.contains_key(c) && level_has(side[c], tx));
    assert(side.contains_key(p) && level_has(side[p], tx));
}

/// Taking one order out keeps a side well formed and adds no level.
pub proof fn lemma_remove_at_wf(side: Side, p: Price, i: int, bid: bool)
    requires
        side_wf(side, bid),
        side.contains_key(p),
        0 <= i < side[p].len(),
    ensures
        side_wf(remove_at(side, p, i), bid),
        forall|q: Price| #[trigger] remove_at(side, p, i).contains_key(q) ==> side.contains_key(q),
        side_qty(side) == side_qty(remove_at(side, p, i)) + side[p][i].qty,
{
    let after = remove_at(side, p, i);
    let level = side[p];
    let shorter = level.remove(i);
    assert(level_wf(level, p));
    assert forall|q: Price| #[trigger] after.contains_key(q) implies key_ok(q, bid) && level_wf(
        after[q],
        q,
    ) by {
        assert(side.contains_key(q));
        if q == p {
            assert forall|j: int| 0 <= j < shorter.len() implies (#[trigger] shorter[j]).price_usd
                == p && shorter[j].qty > 0 by {
                if j < i {
                    assert(shorter[j] == level[j]);
                } else {
                    assert(shorter[j] == level[j + 1]);
                }
            }
        }
    }
    lemma_side_qty_split(side, p);
    lemma_level_qty_remove(level, i);
    if level.len() > 1 {
        lemma_side_qty_insert(side, p, shorter);
    } else {
        assert(shorter =~= Seq::<OrderView>::empty());
    }
}

pub proof fn lemma_level_qty_remove(level: Seq<OrderView>, i: int)
    requires
        0 <= i < level.len(),
    ensures
        level_qty(level) == level_qty(level.remove(i)) + level[i].qty,
    decreases level.len(),
{
    let tail = level.subrange(1, level.len() as int);
    let shorter = level.remove(i);
    if i == 0 {
        assert(shorter =~= tail);
    } else {
        lemma_level_qty_remove(tail, i - 1);
        assert(shorter.subrange(1, shorter.len() as int) =~= tail.remove(i - 1));
        assert(shorter[0] == level[0]);
    }
}

/// Cancelling keeps a book at rest at rest.
pub proof fn lemma_cancel_model(book: BookView, tx: Seq<char>)
    requires
        book.wf(),
    ensures
        cancel_model(book, tx).wf(),
        book.uncrossed() ==> cancel_model(book, tx).uncrossed(),
        !book_has(book, tx) ==> cancel_model(book, tx) == book,
{
    if side_has(book.bids, tx) {
        let p = choose|p: Price| #[trigger] book.bids.contains_key(p) && level_has(book.bids[p], tx);
        lemma_cancel_target(book.bids, tx, true);
    } else if side_has(book.asks, tx) {
        lemma_cancel_target(book.asks, tx, false);
    }
}

/// Where a side holds the id, cancelling takes out one order with that id.
pub proof fn lemma_cancel_target(side: Side, tx: Seq<char>, bid: bool)
    requires
        side_wf(side, bid),
        side_has(side, tx),
    ensures
        is_cancel_price(side, tx, cancel_price(side, tx)),
        is_first_with(side[cancel_price(side, tx)], tx, first_with(side[cancel_price(side, tx)], tx)),
        side_wf(cancel_side(side, tx), bid),
        forall|q: Price| #[trigger] cancel_side(side, tx).contains_key(q) ==> side.contains_key(q),
{
    let holders = side.dom().filter(|p: Price| level_has(side[p], tx));
    let w = choose|p: Price| #[trigger] side.contains_key(p) && level_has(side[p], tx);
    assert(holders.contains(w));
    side.dom().lemma_len_filter(|p: Price| level_has(side[p], tx));
    assert(holders.finite());
    assert(holders.len() > 0) by {
        if holders.len() == 0 {
            assert(holders =~= Set::<Price>::empty());
        }
    }
    lemma_finite_set_has_max(holders);
    let m = choose|m: Price| holders.contains(m) && forall|q: Price| holders.contains(q) ==> q <= m;
    assert(is_cancel_price(side, tx, m)) by {
        assert forall|q: Price| #[trigger] side.contains_key(q) && level_has(side[q], tx) implies q
            <= m by {
            assert(holders.contains(q));
        }
    }
    let p = cancel_price(side, tx);
    let level = side[p];
    lemma_first_exists(level, tx, level.len() as int);
    lemma_remove_at_wf(side, p, first_with(level, tx), bid);
}

proof fn lemma_first_exists(level: Seq<OrderView>, tx: Seq<char>, n: int)
    requires
        0 <= n <= level.len(),
        exists|i: int| 0 <= i < n && (#[trigger] level[i]).tx_id == tx,
    ensures
        is_first_with(level, tx, first_with(level, tx)),
    decreases n,
{
    let i = choose|i: int| 0 <= i < n && (#[trigger] level[i]).tx_id == tx;
    if exists|j: int| 0 <= j < i && (#[trigger] level[j]).tx_id == tx {
        lemma_first_exists(level, tx, i);
    } else {
        assert(is_first_with(level, tx, i));
    }
}

/// The orders among `orders` whose account is `account` when case is
/// ignored, in the same order. `account` is given in lower case.
pub open spec fn owned_by(orders: Seq<OrderView>, account: Seq<char>) -> Seq<OrderView>
    decreases orders.len(),
{
    if orders.len() == 0 {
        seq![]
    } else {
        let earlier = owned_by(orders.drop_last(), account);
        if lower_model(orders.last().account_id) == account {
            earlier.push(orders.last())
        } else {
            earlier
        }
    }
}

/// Every resting order of the book, the bids first, each side by price
/// priority and, within a price, oldest first.
pub open spec fn all_resting(book: BookView) -> Seq<OrderView> {
    resting_orders(book.bids, 0) + resting_orders(book.asks, 0)
}

/// Matching brings no id to the side it takes from.
pub proof fn lemma_match_keeps_ids(opp: Side, taker: OrderView, tx: Seq<char>)
    requires
        !side_has(opp, tx),
    ensures
        !side_has(match_model(opp, taker).opp, tx),
    decreases taker.qty,
{
    let p = best_price(opp);
    if taker.qty == 0 || !is_best(opp, p) || opp[p].len() == 0 || !crosses(
        taker.price_usd,
        p as int,
    ) || opp[p][0].qty == 0 {
    } else {
        let head = opp[p][0];
        let fill = if taker.qty <= head.qty {
            taker.qty
        } else {
            head.qty
        };
        let maker = with_qty(head, (head.qty - fill) as nat);
        let left = with_qty(taker, (taker.qty - fill) as nat);
        let opp2 = if maker.qty == 0 {
            drop_head(opp, p)
        } else {
            opp.insert(p, opp[p].update(0, maker))
        };
        assert(!side_has(opp2, tx)) by {
            if side_has(opp2, tx) {
                let q = choose|q: Price| #[trigger] opp2.contains_key(q) && level_has(opp2[q], tx);
                let i = choose|i: int| 0 <= i < opp2[q].len() && (#[trigger] opp2[q][i]).tx_id == tx;
                if q == p {
                    if maker.qty == 0 {
                        assert(opp[p][i + 1].tx_id == tx);
                    } else {
                        assert(opp[p][i].tx_id == tx);
                    }
                    assert(level_has(opp[p], tx));
                } else {
                    assert(opp[q][i].tx_id == tx);
                    assert(level_has(opp[q], tx));
                }
                assert(opp.contains_key(q));
            }
        }
        lemma_match_keeps_ids(opp2, left, tx);
    }
}

/// Every finite side has a listing of its prices in descending order.
pub proof fn lemma_prices_desc_exists(side: Side)
    requires
        side.dom().finite(),
    ensures
        is_desc_listing(side, prices_desc(side)),
    decreases side.dom().len(),
{
    if side.dom().len() == 0 {
        let none = Seq::<Price>::empty();
        assert forall|p: Price| none.contains(p) <==> side.contains_key(p) by {
            if side.contains_key(p) {
                assert(side.dom().contains(p));
            }
        }
        assert(is_desc_listing(side, none));
    } else {
        lemma_best_exists(side);
        let m = best_price(side);
        let rest = side.remove(m);
        lemma_prices_desc_exists(rest);
        let tail = prices_desc(rest);
        let all = seq![m] + tail;
        assert forall|i: int, j: int| 0 <= i < j < all.len() implies all[i] > all[j] by {
            assert(tail.contains(tail[j - 1]));
            assert(rest.contains_key(all[j]));
            if i > 0 {
                assert(all[i] == tail[i - 1]);
            }
        }
        assert forall|p: Price| all.contains(p) <==> side.contains_key(p) by {
            if all.contains(p) {
                let i = choose|i: int| 0 <= i < all.len() && all[i] == p;
                if i > 0 {
                    assert(tail.contains(tail[i - 1]));
                }
            }
            if side.contains_key(p) {
                if p == m {
                    assert(all[0] == p);
                } else {
                    assert(rest.contains_key(p));
                    assert(tail.contains(p));
                    let i = choose|i: int| 0 <= i < tail.len() && tail[i] == p;
                    assert(all[i + 1] == p);
                }
            }
        }
        assert(is_desc_listing(side, all));
    }
}

/// An order is in the concatenation exactly when it is in one of the
/// queues listed.
pub proof fn lemma_concat_levels_contains(side: Side, prices: Seq<Price>, o: OrderView)
    ensures
        concat_levels(side, prices).contains(o) <==> exists|k: int, i: int|
            0 <= k < prices.len() && 0 <= i < side[prices[k]].len() && #[trigger] side[prices[k]][i]
                == o,
    decreases prices.len(),
{
    if prices.len() > 0 {
        let init = prices.drop_last();
        let last = side[prices.last()];
        let all = concat_levels(side, prices);
        lemma_concat_levels_contains(side, init, o);
        if all.contains(o) {
            let n = choose|n: int| 0 <= n < all.len() && all[n] == o;
            if n < concat_levels(side, init).len() {
                assert(concat_levels(side, init)[n] == o);
                assert(concat_levels(side, init).contains(o));
                let (k, i) = choose|k: int, i: int|
                    0 <= k < init.len() && 0 <= i < side[init[k]].len() && #[trigger] side[init[k]][i]
                        == o;
                assert(side[prices[k]][i] == o);
            } else {
                let i = n - concat_levels(side, init).len();
                assert(side[prices[prices.len() - 1]][i] == o);
            }
        }
        if exists|k: int, i: int|
            0 <= k < prices.len() && 0 <= i < side[prices[k]].len() && #[trigger] side[prices[k]][i]
                == o {
            let (k, i) = choose|k: int, i: int|
                0 <= k < prices.len() && 0 <= i < side[prices[k]].len() && #[trigger] side[prices[k]][i]
                    == o;
            if k < init.len() {
                assert(side[init[k]][i] == o);
                assert(concat_levels(side, init).contains(o));
                let n = choose|n: int|
                    0 <= n < concat_levels(side, init).len() && concat_levels(side, init)[n] == o;
                assert(all[n] == o);
            } else {
                assert(all[concat_levels(side, init).len() + i] == o);
            }
        }
    } else {
        assert(concat_levels(side, prices) =~= Seq::<OrderView>::empty());
    }
}

/// An order rests at place `i` of the queue at `p`.
pub open spec fn rests_at(side: Side, p: Price, i: int) -> bool {
    side.contains_key(p) && 0 <= i < side[p].len()
}

/// No two orders resting on the side share an id.
pub open spec fn side_ids_unique(side: Side) -> bool {
    forall|p: Price, i: int, q: Price, j: int|
        #[trigger] rests_at(side, p, i) && #[trigger] rests_at(side, q, j) && side[p][i].tx_id
            == side[q][j].tx_id ==> p == q && i == j
}

impl BookView {
    /// No two orders resting in the book share an id.
    pub open spec fn ids_unique(self) -> bool {
        &&& side_ids_unique(self.bids)
        &&& side_ids_unique(self.asks)
        &&& forall|tx: Seq<char>| !(side_has(self.bids, tx) && side_has(self.asks, tx))
    }
}

pub proof fn lemma_side_has_iff(side: Side, tx: Seq<char>)
    ensures
        side_has(side, tx) <==> exists|p: Price, i: int| #[trigger]
            rests_at(side, p, i) && side[p][i].tx_id == tx,
{
    if side_has(side, tx) {
        let p = choose|p: Price| #[trigger] side.contains_key(p) && level_has(side[p], tx);
        let i = choose|i: int| 0 <= i < side[p].len() && (#[trigger] side[p][i]).tx_id == tx;
        assert(rests_at(side, p, i));
    }
    if exists|p: Price, i: int| #[trigger] rests_at(side, p, i) && side[p][i].tx_id == tx {
        let (p, i) = choose|p: Price, i: int| #[trigger]
            rests_at(side, p, i) && side[p][i].tx_id == tx;
        assert(side[p][i].tx_id == tx);
        assert(level_has(side[p], tx));
        assert(side.contains_key(p));
    }
}

/// Matching keeps the ids of the side it takes from distinct.
pub proof fn lemma_match_keeps_unique(opp: Side, taker: OrderView)
    requires
        side_ids_unique(opp),
    ensures
        side_ids_unique(match_model(opp, taker).opp),
    decreases taker.qty,
{
    let p = best_price(opp);
    if taker.qty == 0 || !is_best(opp, p) || opp[p].len() == 0 || !crosses(
        taker.price_usd,
        p as int,
    ) || opp[p][0].qty == 0 {
    } else {
        let head = opp[p][0];
        let fill = if taker.qty <= head.qty {
            taker.qty
        } else {
            head.qty
        };
        let maker = with_qty(head, (head.qty - fill) as nat);
        let left = with_qty(taker, (taker.qty - fill) as nat);
        let gone = maker.qty == 0;
        let opp2 = if gone {
            drop_head(opp, p)
        } else {
            opp.insert(p, opp[p].update(0, maker))
        };
        assert forall|a: Price, i: int, b: Price, j: int| #[trigger]
            rests_at(opp2, a, i) && #[trigger] rests_at(opp2, b, j) && opp2[a][i].tx_id
                == opp2[b][j].tx_id implies a == b && i == j by {
            let i0 = if gone && a == p {
                i + 1
            } else {
                i
            };
            let j0 = if gone && b == p {
                j + 1
            } else {
                j
            };
            assert(rests_at(opp, a, i0) && rests_at(opp, b, j0));
            assert(opp[a][i0].tx_id == opp2[a][i].tx_id);
            assert(opp[b][j0].tx_id == opp2[b][j].tx_id);
        }
        lemma_match_keeps_unique(opp2, left);
    }
}

/// Resting an order whose id is new to the side keeps the ids distinct, and
/// brings that one id.
pub proof fn lemma_rest_ids(side: Side, o: OrderView, p: Price)
    ensures
        side_ids_unique(side) && !side_has(side, o.tx_id) ==> side_ids_unique(
            rest_model(side, o, p),
        ),
        forall|tx: Seq<char>| #[trigger]
            side_has(rest_model(side, o, p), tx) <==> side_has(side, tx) || tx == o.tx_id,
{
    let after = rest_model(side, o, p);
    let last = after[p].len() - 1;
    assert(rests_at(after, p, last) && after[p][last] == o);
    assert forall|tx: Seq<char>| #[trigger]
        side_has(after, tx) <==> side_has(side, tx) || tx == o.tx_id by {
        lemma_side_has_iff(after, tx);
        lemma_side_has_iff(side, tx);
        if side_has(after, tx) && tx != o.tx_id {
            let (a, i) = choose|a: Price, i: int| #[trigger]
                rests_at(after, a, i) && after[a][i].tx_id == tx;
            assert(rests_at(side, a, i) && side[a][i].tx_id == tx);
        }
        if side_has(side, tx) {
            let (a, i) = choose|a: Price, i: int| #[trigger]
                rests_at(side, a, i) && side[a][i].tx_id == tx;
            assert(rests_at(after, a, i) && after[a][i].tx_id == tx);
        }
    }
    if side_ids_unique(side) && !side_has(side, o.tx_id) {
        lemma_side_has_iff(side, o.tx_id);
        assert forall|a: Price, i: int, b: Price, j: int| #[trigger]
            rests_at(after, a, i) && #[trigger] rests_at(after, b, j) && after[a][i].tx_id
                == after[b][j].tx_id implies a == b && i == j by {
            let new_a = a == p && i == last;
            let new_b = b == p && j == last;
            if !new_a {
                assert(rests_at(side, a, i) && side[a][i] == after[a][i]);
            }
            if !new_b {
                assert(rests_at(side, b, j) && side[b][j] == after[b][j]);
            }
        }
    }
}

/// Taking one order out keeps the ids distinct and brings none; where they
/// were distinct, the id that left is gone.
pub proof fn lemma_remove_at_ids(side: Side, p: Price, k: int)
    requires
        rests_at(side, p, k),
    ensures
        forall|tx: Seq<char>| #[trigger] side_has(remove_at(side, p, k), tx) ==> side_has(side, tx),
        side_ids_unique(side) ==> side_ids_unique(remove_at(side, p, k)) && !side_has(
            remove_at(side, p, k),
            side[p][k].tx_id,
        ),
{
    let after = remove_at(side, p, k);
    assert forall|a: Price, i: int| #[trigger] rests_at(after, a, i) implies rests_at(
        side,
        a,
        if a == p && i >= k {
            i + 1
        } else {
            i
        },
    ) && side[a][if a == p && i >= k {
        i + 1
    } else {
        i
    }] == after[a][i] by {}
    assert forall|tx: Seq<char>| #[trigger] side_has(after, tx) implies side_has(side, tx) by {
        lemma_side_has_iff(after, tx);
        lemma_side_has_iff(side, tx);
        let (a, i) = choose|a: Price, i: int| #[trigger]
            rests_at(after, a, i) && after[a][i].tx_id == tx;
        let i0 = if a == p && i >= k {
            i + 1
        } else {
            i
        };
        assert(rests_at(side, a, i0) && side[a][i0].tx_id == tx);
    }
    if side_ids_unique(side) {
        assert forall|a: Price, i: int, b: Price, j: int| #[trigger]
            rests_at(after, a, i) && #[trigger] rests_at(after, b, j) && after[a][i].tx_id
                == after[b][j].tx_id implies a == b && i == j by {
            let i0 = if a == p && i >= k {
                i + 1
            } else {
                i
            };
            let j0 = if b == p && j >= k {
                j + 1
            } else {
                j
            };
            assert(rests_at(side, a, i0) && rests_at(side, b, j0));
        }
        let tx = side[p][k].tx_id;
        lemma_side_has_iff(after, tx);
        if side_has(after, tx) {
            let (a, i) = choose|a: Price, i: int| #[trigger]
                rests_at(after, a, i) && after[a][i].tx_id == tx;
            let i0 = if a == p && i >= k {
                i + 1
            } else {
                i
            };
            assert(rests_at(side, a, i0) && rests_at(side, p, k));
        }
    }
}

/// Applying an order brings no id but its own; where the ids of the book
/// are distinct and the order's id is new to it, they stay distinct.
pub proof fn lemma_apply_ids(book: BookView, o: OrderView)
    ensures
        forall|tx: Seq<char>| #[trigger]
            book_has(apply_model(book, o).book, tx) ==> book_has(book, tx) || tx == o.tx_id,
        book.ids_unique() && !book_has(book, o.tx_id) ==> apply_model(book, o).book.ids_unique(),
{
    let opp = facing_side(book, o.price_usd);
    let own = own_side(book, o.price_usd);
    let m = match_model(opp, o);
    let r = apply_model(book, o).book;
    lemma_match_taker_keeps_id(opp, o);
    let rests = m.taker.qty > 0 && !o.market_limit;
    let p = m.taker.price_usd as Price;
    lemma_rest_ids(own, m.taker, p);
    assert forall|tx: Seq<char>| side_has(m.opp, tx) implies side_has(opp, tx) by {
        if !side_has(opp, tx) {
            lemma_match_keeps_ids(opp, o, tx);
        }
    }
    assert forall|tx: Seq<char>| #[trigger] book_has(r, tx) implies book_has(book, tx) || tx
        == o.tx_id by {
        if rests {
            assert(side_has(rest_model(own, m.taker, p), tx) <==> side_has(own, tx) || tx
                == o.tx_id);
        }
    }
    if book.ids_unique() && !book_has(book, o.tx_id) {
        lemma_match_keeps_unique(opp, o);
        assert forall|tx: Seq<char>| !(side_has(r.bids, tx) && side_has(r.asks, tx)) by {
            if rests {
                assert(side_has(rest_model(own, m.taker, p), tx) <==> side_has(own, tx) || tx
                    == o.tx_id);
            }
            if side_has(r.bids, tx) && side_has(r.asks, tx) {
                assert(side_has(m.opp, tx) ==> side_has(opp, tx));
                lemma_match_keeps_ids(opp, o, o.tx_id);
            }
        }
    }
}

/// Matching changes the quantity of the incoming order and nothing else.
pub proof fn lemma_match_taker_keeps_id(opp: Side, taker: OrderView)
    ensures
        match_model(opp, taker).taker == with_qty(taker, match_model(opp, taker).taker.qty),
    decreases taker.qty,
{
    let p = best_price(opp);
    if taker.qty == 0 || !is_best(opp, p) || opp[p].len() == 0 || !crosses(
        taker.price_usd,
        p as int,
    ) || opp[p][0].qty == 0 {
    } else {
        let head = opp[p][0];
        let fill = if taker.qty <= head.qty {
            taker.qty
        } else {
            head.qty
        };
        let maker = with_qty(head, (head.qty - fill) as nat);
        let left = with_qty(taker, (taker.qty - fill) as nat);
        let opp2 = if maker.qty == 0 {
            drop_head(opp, p)
        } else {
            opp.insert(p, opp[p].update(0, maker))
        };
        lemma_match_taker_keeps_id(opp2, left);
    }
}

/// Cancelling brings no id; where the ids of the book are distinct, they
/// stay distinct and the cancelled id is gone.
pub proof fn lemma_cancel_ids(book: BookView, tx: Seq<char>)
    requires
        book.wf(),
    ensures
        forall|other: Seq<char>| #[trigger]
            book_has(cancel_model(book, tx), other) ==> book_has(book, other),
        book.ids_unique() ==> cancel_model(book, tx).ids_unique() && !book_has(
            cancel_model(book, tx),
            tx,
        ),
{
    let r = cancel_model(book, tx);
    if side_has(book.bids, tx) {
        lemma_cancel_target(book.bids, tx, true);
        let p = cancel_price(book.bids, tx);
        lemma_remove_at_ids(book.bids, p, first_with(book.bids[p], tx));
        assert forall|other: Seq<char>| #[trigger] book_has(r, other) implies book_has(
            book,
            other,
        ) by {
            assert(side_has(r.bids, other) ==> side_has(book.bids, other));
        }
        if book.ids_unique() {
            assert forall|other: Seq<char>| !(side_has(r.bids, other) && side_has(
                r.asks,
                other,
            )) by {
                assert(side_has(r.bids, other) ==> side_has(book.bids, other));
            }
        }
    } else if side_has(book.asks, tx) {
        lemma_cancel_target(book.asks, tx, false);
        let p = cancel_price(book.asks, tx);
        lemma_remove_at_ids(book.asks, p, first_with(book.asks[p], tx));
        assert forall|other: Seq<char>| #[trigger] book_has(r, other) implies book_has(
            book,
            other,
        ) by {
            assert(side_has(r.asks, other) ==> side_has(book.asks, other));
        }
        if book.ids_unique() {
            assert forall|other: Seq<char>| !(side_has(r.bids, other) && side_has(
                r.asks,
                other,
            )) by {
                assert(side_has(r.asks, other) ==> side_has(book.asks, other));
            }
        }
    }
}

} // verus!
