//! The plain values of the library: orders, the queue of orders resting at
//! one price, what a listing shows, and what matching reports.

use crate::model::MatchEventView;
use std::collections::VecDeque;
use vstd::prelude::*;

verus! {

/// A signed price in millionths of a dollar: positive for a bid, negative
/// for an ask whose magnitude is the offered price.
pub type Price = i64;

/// A share quantity in millionths of a share.
pub type Quantity = u64;

/// A priced intent on one market. The sign of `price_usd` encodes the side.
#[derive(Debug, PartialEq, Eq)]
pub struct Order {
    pub tx_id: String,
    pub market_id: String,
    pub account_id: String,
    pub market_limit: bool,
    pub price_usd: Price,
    pub qty: Quantity,
}

/// The mathematical value of an [`Order`].
pub struct OrderView {
    pub tx_id: Seq<char>,
    pub market_id: Seq<char>,
    pub account_id: Seq<char>,
    pub market_limit: bool,
    pub price_usd: int,
    pub qty: nat,
}

impl View for Order {
    type V = OrderView;

    open spec fn view(&self) -> OrderView {
        OrderView {
            tx_id: self.tx_id@,
            market_id: self.market_id@,
            account_id: self.account_id@,
            market_limit: self.market_limit,
            price_usd: self.price_usd as int,
            qty: self.qty as nat,
        }
    }
}

impl Clone for Order {
    fn clone(&self) -> (copy: Self)
        ensures
            copy@ == self@,
    {
        Order {
            tx_id: self.tx_id.clone(),
            market_id: self.market_id.clone(),
            account_id: self.account_id.clone(),
            market_limit: self.market_limit,
            price_usd: self.price_usd,
            qty: self.qty,
        }
    }
}

/// The views of a sequence of orders, in the same order.
pub open spec fn order_views(orders: Seq<Order>) -> Seq<OrderView> {
    orders.map_values(|o: Order| o@)
}

/// `VecDeque::front_mut`: a handle on the first element, through which the
/// caller may replace it; nothing else in the queue changes.
#[verifier::external_body]
fn deque_front_mut(queue: &mut VecDeque<Order>) -> (head: Option<&mut Order>)
    ensures
        old(queue)@.len() == 0 ==> head.is_none() && final(queue)@ == old(queue)@,
        old(queue)@.len() != 0 ==> head.is_some() && *head.unwrap() == old(queue)@[0]
            && final(queue)@ == old(queue)@.update(0, *final(head.unwrap())),
{
    queue.front_mut()
}

/// The orders resting at one price, oldest first.
#[derive(Debug, PartialEq, Eq)]
pub struct PriceLevel {
    pub queue: VecDeque<Order>,
}

impl View for PriceLevel {
    type V = Seq<OrderView>;

    open spec fn view(&self) -> Seq<OrderView> {
        order_views(self.queue@)
    }
}

impl PriceLevel {
    pub fn new() -> (level: Self)
        ensures
            level@ == Seq::<OrderView>::empty(),
    {
        PriceLevel { queue: VecDeque::new() }
    }

    /// Appends an order behind every order already waiting.
    pub fn push(&mut self, o: Order)
        ensures
            final(self)@ == old(self)@.push(o@),
    {
        self.queue.push_back(o);
    }

    /// Puts an order ahead of every order already waiting.
    pub fn push_front(&mut self, o: Order)
        ensures
            final(self)@ == seq![o@] + old(self)@,
    {
        self.queue.push_front(o);
    }

    /// A handle on the oldest order, or `None` when the level is empty.
    pub fn front_mut(&mut self) -> (head: Option<&mut Order>)
        ensures
            old(self)@.len() == 0 ==> head.is_none() && final(self)@ == old(self)@,
            old(self)@.len() != 0 ==> head.is_some() && (*head.unwrap())@ == old(self)@[0]
                && final(self)@ == old(self)@.update(0, (*final(head.unwrap()))@),
    {
        deque_front_mut(&mut self.queue)
    }

    /// Removes and returns the oldest order, or `None` when the level is empty.
    pub fn pop_front(&mut self) -> (head: Option<Order>)
        ensures
            old(self)@.len() == 0 ==> head.is_none() && final(self)@ == old(self)@,
            old(self)@.len() != 0 ==> head.is_some() && head.unwrap()@ == old(self)@[0]
                && final(self)@ == old(self)@.subrange(1, old(self)@.len() as int),
    {
        self.queue.pop_front()
    }

    pub fn is_empty(&self) -> (empty: bool)
        ensures
            empty == (self@.len() == 0),
    {
        self.queue.len() == 0
    }
}

/// What a snapshot shows of one resting order.
#[derive(Debug, PartialEq, Eq)]
pub struct OrderDetail {
    pub tx_id: String,
    pub account_id: String,
    pub price_usd: Price,
    pub qty: Quantity,
}

/// The mathematical value of an [`OrderDetail`].
pub struct OrderDetailView {
    pub tx_id: Seq<char>,
    pub account_id: Seq<char>,
    pub price_usd: int,
    pub qty: nat,
}

impl View for OrderDetail {
    type V = OrderDetailView;

    open spec fn view(&self) -> OrderDetailView {
        OrderDetailView {
            tx_id: self.tx_id@,
            account_id: self.account_id@,
            price_usd: self.price_usd as int,
            qty: self.qty as nat,
        }
    }
}

/// What a snapshot shows of an order.
pub open spec fn detail_of(o: OrderView) -> OrderDetailView {
    OrderDetailView {
        tx_id: o.tx_id,
        account_id: o.account_id,
        price_usd: o.price_usd,
        qty: o.qty,
    }
}

/// The views of a sequence of details, in the same order.
pub open spec fn detail_views(details: Seq<OrderDetail>) -> Seq<OrderDetailView> {
    details.map_values(|d: OrderDetail| d@)
}

/// A point-in-time listing of a book, each side most aggressive first.
#[derive(Debug, PartialEq, Eq)]
pub struct BookSnapshot {
    pub bids: Vec<OrderDetail>,
    pub asks: Vec<OrderDetail>,
}

/// Why an order was turned away. The book is unchanged in each case.
#[derive(Debug, Clone, Copy, PartialEq, Eq, Structural)]
pub enum OrderError {
    /// The price is zero, or so low that its magnitude cannot be held.
    InvalidPrice,
    /// The quantity is zero.
    InvalidQuantity,
}

/// One fill, as it is published: both orders as they stand after the fill,
/// the bid first, with the quantity traded and the resting order's price.
#[derive(Debug, PartialEq, Eq)]
pub struct MatchEvent {
    pub partial: bool,
    pub yes: Order,
    pub no: Order,
    pub fill: Quantity,
    pub price: Price,
}

impl View for MatchEvent {
    type V = MatchEventView;

    open spec fn view(&self) -> MatchEventView {
        MatchEventView {
            partial: self.partial,
            yes: self.yes@,
            no: self.no@,
            fill: self.fill as nat,
            price: self.price as int,
        }
    }
}

/// The views of a sequence of events, in the same order.
pub open spec fn event_views(events: Seq<MatchEvent>) -> Seq<MatchEventView> {
    events.map_values(|e: MatchEvent| e@)
}

/// One executed trade between a buyer and a seller.
#[derive(Debug, PartialEq, Eq)]
pub struct Trade {
    pub buyer: String,
    pub seller: String,
    /// The price of the order that was resting, as a magnitude.
    pub price: Price,
    pub amount: Quantity,
    /// When the trade was recorded, in milliseconds since the Unix epoch.
    pub timestamp: i64,
}

/// The mathematical value of a [`Trade`].
pub struct TradeView {
    pub buyer: Seq<char>,
    pub seller: Seq<char>,
    pub price: int,
    pub amount: nat,
    pub timestamp: int,
}

impl View for Trade {
    type V = TradeView;

    open spec fn view(&self) -> TradeView {
        TradeView {
            buyer: self.buyer@,
            seller: self.seller@,
            price: self.price as int,
            amount: self.amount as nat,
            timestamp: self.timestamp as int,
        }
    }
}

/// The trade that a fill records at the given time: the bidder buys from
/// the asker, at the resting order's price.
pub open spec fn trade_model(event: MatchEventView, timestamp: int) -> TradeView {
    TradeView {
        buyer: event.yes.account_id,
        seller: event.no.account_id,
        price: event.price,
        amount: event.fill,
        timestamp,
    }
}

/// What became of an accepted order: the fills it took part in, in order,
/// and where what was left of it went.
#[derive(Debug, PartialEq, Eq)]
pub struct Applied {
    pub events: Vec<MatchEvent>,
    /// The quantity that now rests in the book under the order's id.
    pub rested: Quantity,
    /// The quantity dropped because the order may not rest.
    pub discarded: Quantity,
}

} // verus!
