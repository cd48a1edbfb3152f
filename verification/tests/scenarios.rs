use clob::service::{OrderBookService, Placed};
use clob::types::{Applied, Order};

const SHARE: u64 = 1_000_000;

fn order(tx: &str, account: &str, price_usd: i64, shares: u64) -> Order {
    Order {
        tx_id: tx.to_string(),
        market_id: "m1".to_string(),
        account_id: account.to_string(),
        market_limit: false,
        price_usd,
        qty: shares * SHARE,
    }
}

fn service_with_market() -> OrderBookService {
    let mut service = OrderBookService::new();
    assert!(service.add_market("m1".to_string()));
    service
}

fn accepted(placed: Placed) -> Applied {
    match placed {
        Placed::Accepted(applied) => applied,
        other => panic!("not accepted: {:?}", other),
    }
}

#[test]
fn full_match_at_makers_price() {
    let mut service = service_with_market();
    let a = accepted(service.place_order(order("a", "u1", 600_000, 10)));
    assert!(a.events.is_empty());
    assert_eq!(a.rested, 10 * SHARE);
    let b = accepted(service.place_order(order("b", "u2", -550_000, 10)));
    assert_eq!(b.events.len(), 1);
    let e = &b.events[0];
    assert!(!e.partial);
    assert_eq!(e.yes.tx_id, "a");
    assert_eq!(e.yes.qty, 0);
    assert_eq!(e.no.tx_id, "b");
    assert_eq!(e.no.qty, 0);
    assert_eq!(e.price, 600_000);
    assert_eq!(e.fill, 10 * SHARE);
    assert_eq!(b.rested, 0);
    assert_eq!(b.discarded, 0);
    let shot = service.get_book("m1", 0).unwrap();
    assert!(shot.bids.is_empty());
    assert!(shot.asks.is_empty());
    assert!(service.get_orders_for_user("u1").is_empty());
    assert!(service.get_orders_for_user("u2").is_empty());
}

#[test]
fn partial_then_full() {
    let mut service = service_with_market();
    accepted(service.place_order(order("a", "u1", 600_000, 10)));

    let b = accepted(service.place_order(order("b", "u2", -600_000, 4)));
    assert_eq!(b.events.len(), 1);
    assert_eq!(b.events[0].fill, 4 * SHARE);
    assert_eq!(b.events[0].no.tx_id, "b");
    assert_eq!(b.events[0].no.qty, 0);
    assert_eq!(b.events[0].yes.tx_id, "a");
    assert_eq!(b.events[0].yes.qty, 6 * SHARE);
    // The incoming order is filled to the end, so the fill completes it.
    assert!(!b.events[0].partial);
    assert_eq!(b.rested, 0);
    let shot = service.get_book("m1", 0).unwrap();
    assert_eq!(shot.bids.len(), 1);
    assert_eq!(shot.bids[0].tx_id, "a");
    assert_eq!(shot.bids[0].qty, 6 * SHARE);
    assert!(shot.asks.is_empty());

    let c = accepted(service.place_order(order("c", "u3", -600_000, 6)));
    assert_eq!(c.events.len(), 1);
    assert!(!c.events[0].partial);
    assert_eq!(c.events[0].fill, 6 * SHARE);
    assert_eq!(c.events[0].yes.qty, 0);
    assert_eq!(c.events[0].no.qty, 0);
    let shot = service.get_book("m1", 0).unwrap();
    assert!(shot.bids.is_empty());
    assert!(shot.asks.is_empty());
}

#[test]
fn orders_that_do_not_cross_rest() {
    let mut service = service_with_market();
    let a = accepted(service.place_order(order("a", "u1", 400_000, 5)));
    let b = accepted(service.place_order(order("b", "u2", -550_000, 5)));
    assert!(a.events.is_empty());
    assert!(b.events.is_empty());
    assert_eq!(a.rested, 5 * SHARE);
    assert_eq!(b.rested, 5 * SHARE);
    let shot = service.get_book("m1", 0).unwrap();
    assert_eq!(shot.bids.len(), 1);
    assert_eq!(shot.bids[0].price_usd, 400_000);
    assert_eq!(shot.bids[0].qty, 5 * SHARE);
    assert_eq!(shot.asks.len(), 1);
    assert_eq!(shot.asks[0].price_usd, -550_000);
    assert_eq!(shot.asks[0].qty, 5 * SHARE);
    let (bids, asks) = service.lookup("m1").unwrap().snapshot_top(0);
    assert_eq!(bids, vec![(400_000, 1)]);
    assert_eq!(asks, vec![(-550_000, 1)]);
}

#[test]
fn market_limit_discards_remainder() {
    let mut service = service_with_market();
    accepted(service.place_order(order("a", "u1", 600_000, 5)));
    let mut b = order("b", "u2", -600_000, 20);
    b.market_limit = true;
    let done = accepted(service.place_order(b));
    assert_eq!(done.events.len(), 1);
    assert!(done.events[0].partial);
    assert_eq!(done.events[0].fill, 5 * SHARE);
    assert_eq!(done.events[0].no.qty, 15 * SHARE);
    assert_eq!(done.discarded, 15 * SHARE);
    assert_eq!(done.rested, 0);
    let shot = service.get_book("m1", 0).unwrap();
    assert!(shot.bids.is_empty());
    assert!(shot.asks.is_empty());
}

#[test]
fn duplicate_tx_id_is_suppressed() {
    let mut service = service_with_market();
    accepted(service.place_order(order("a", "u1", 600_000, 10)));
    assert_eq!(service.place_order(order("a", "u1", 600_000, 10)), Placed::Duplicate);
    let shot = service.get_book("m1", 0).unwrap();
    assert_eq!(shot.bids.len(), 1);
    assert_eq!(shot.bids[0].qty, 10 * SHARE);
    assert!(shot.asks.is_empty());
}

#[test]
fn cancel_removes() {
    let mut service = service_with_market();
    accepted(service.place_order(order("a", "u1", 600_000, 10)));
    assert!(service.cancel_order("m1", &"a".to_string()));
    let shot = service.get_book("m1", 0).unwrap();
    assert!(shot.bids.is_empty());
    assert!(shot.asks.is_empty());
    assert!(!service.cancel_order("m1", &"a".to_string()));
}
