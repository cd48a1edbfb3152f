//! The channels on which fills are published, and a publisher that keeps
//! what it is given.

use crate::model::MatchEventView;
use crate::types::{MatchEvent, Order, OrderView};
use vstd::prelude::*;

verus! {

/// The subject on which incoming orders arrive.
pub const ORDERS_SUBJECT: &'static str = "clob.orders";

/// The subject for fills that complete the incoming order.
pub const FULL_SUBJECT: &'static str = "clob.matches.full";

/// The subject for fills that leave the incoming order with quantity.
pub const PARTIAL_SUBJECT: &'static str = "clob.matches.partial";

/// The subject on which a fill is published.
pub fn subject_of(partial: bool) -> (subject: &'static str)
    ensures
        subject@ == (if partial {
            PARTIAL_SUBJECT@
        } else {
            FULL_SUBJECT@
        }),
{
    if partial {
        PARTIAL_SUBJECT
    } else {
        FULL_SUBJECT
    }
}

/// One publication: the channel and the two orders, the bid first.
#[derive(Debug, PartialEq, Eq)]
pub struct Published {
    pub partial: bool,
    pub yes: Order,
    pub no: Order,
}

/// The mathematical value of a [`Published`].
pub struct PublishedView {
    pub partial: bool,
    pub yes: OrderView,
    pub no: OrderView,
}

impl View for Published {
    type V = PublishedView;

    open spec fn view(&self) -> PublishedView {
        PublishedView { partial: self.partial, yes: self.yes@, no: self.no@ }
    }
}

/// What is published of a fill.
pub open spec fn published_of(event: MatchEventView) -> PublishedView {
    PublishedView { partial: event.partial, yes: event.yes, no: event.no }
}

/// A publisher that records every publication, in the order of the calls.
pub struct MemoryPublisher {
    pub calls: Vec<Published>,
}

impl View for MemoryPublisher {
    type V = Seq<PublishedView>;

    open spec fn view(&self) -> Seq<PublishedView> {
        self.calls@.map_values(|p: Published| p@)
    }
}

impl MemoryPublisher {
    /// A publisher that has recorded nothing.
    pub fn new() -> (publisher: Self)
        ensures
            publisher@ == Seq::<PublishedView>::empty(),
    {
        let publisher = MemoryPublisher { calls: Vec::new() };
        assert(publisher@ =~= Seq::<PublishedView>::empty());
        publisher
    }

    /// Records one fill behind everything recorded before.
    pub fn publish(&mut self, event: &MatchEvent)
        ensures
            final(self)@ == old(self)@.push(published_of(event@)),
    {
        let record = Published {
            partial: event.partial,
            yes: event.yes.clone(),
            no: event.no.clone(),
        };
        self.calls.push(record);
        assert(self@ =~= old(self)@.push(published_of(event@)));
    }

    /// Records the fills of one order, in the order in which they happened.
    pub fn publish_all(&mut self, events: &Vec<MatchEvent>)
        ensures
            final(self)@ == old(self)@ + events@.map_values(|e: MatchEvent| published_of(e@)),
    {
        let n = events.len();
        let mut i: usize = 0;
        let ghost all = events@.map_values(|e: MatchEvent| published_of(e@));
        assert(old(self)@ + all.take(0) =~= old(self)@);
        while i < n
            invariant
                n == events@.len(),
                i <= n,
                all == events@.map_values(|e: MatchEvent| published_of(e@)),
                self@ == old(self)@ + all.take(i as int),
            decreases n - i,
        {
            self.publish(&events[i]);
            assert(old(self)@ + all.take(i + 1) =~= (old(self)@ + all.take(i as int)).push(
                all[i as int],
            ));
            i = i + 1;
        }
        assert(all.take(n as int) =~= all);
    }
}

} // verus!
