use clob::engine::{make_trade, Engine};
use clob::publisher::{subject_of, MemoryPublisher, FULL_SUBJECT, ORDERS_SUBJECT, PARTIAL_SUBJECT};
use clob::types::{MatchEvent, Order, OrderError};

fn order(tx: &str, account: &str, price_usd: i64, qty: u64) -> Order {
    Order {
        tx_id: tx.to_string(),
        market_id: "m".to_string(),
        account_id: account.to_string(),
        market_limit: false,
        price_usd,
        qty,
    }
}

#[test]
fn try_match_without_an_order_does_nothing() {
    let mut engine = Engine::new();
    assert!(engine.try_match(None).is_empty());
    assert!(engine.try_match(Some(order("a", "u1", 600_000, 10))).is_empty());
    assert!(engine.try_match(None).is_empty());
    assert_eq!(engine.snapshot_top(0), (vec![(600_000, 1)], vec![]));
}

#[test]
fn try_match_ignores_an_order_that_may_not_enter() {
    let mut engine = Engine::new();
    assert!(engine.try_match(Some(order("z", "u1", 0, 10))).is_empty());
    assert!(engine.try_match(Some(order("q", "u1", 5, 0))).is_empty());
    assert_eq!(engine.snapshot_top(0), (vec![], vec![]));
    assert_eq!(engine.apply(order("z", "u1", 0, 10)), Err(OrderError::InvalidPrice));
}

#[test]
fn try_match_records_trades_at_the_resting_price() {
    let mut engine = Engine::new();
    engine.try_match(Some(order("a1", "seller-1", -550_000, 4)));
    engine.try_match(Some(order("a2", "seller-2", -580_000, 4)));
    let trades = engine.try_match(Some(order("b", "buyer", 600_000, 6)));
    assert_eq!(trades.len(), 2);
    assert_eq!(trades[0].buyer, "buyer");
    assert_eq!(trades[0].seller, "seller-1");
    assert_eq!(trades[0].price, 550_000);
    assert_eq!(trades[0].amount, 4);
    assert_eq!(trades[1].seller, "seller-2");
    assert_eq!(trades[1].price, 580_000);
    assert_eq!(trades[1].amount, 2);
    assert!(trades[0].timestamp > 1_600_000_000_000);
    assert!(trades[0].timestamp <= trades[1].timestamp);
    assert_eq!(engine.snapshot_top(0), (vec![], vec![(-580_000, 1)]));
    let trades = engine.try_match(Some(order("s", "seller-3", -100_000, 1)));
    assert!(trades.is_empty());
    engine.try_match(Some(order("b2", "buyer-2", 50_000, 1)));
    let trades = engine.try_match(Some(order("s2", "seller-4", -40_000, 1)));
    assert_eq!(trades.len(), 1);
    assert_eq!(trades[0].buyer, "buyer-2");
    assert_eq!(trades[0].seller, "seller-4");
    assert_eq!(trades[0].price, 50_000);
}

#[test]
fn make_trade_copies_the_fill() {
    let event = MatchEvent {
        partial: true,
        yes: order("y", "alice", 700_000, 3),
        no: order("n", "bob", -650_000, 0),
        fill: 9,
        price: 650_000,
    };
    let trade = make_trade(&event, 1234);
    assert_eq!(trade.buyer, "alice");
    assert_eq!(trade.seller, "bob");
    assert_eq!(trade.price, 650_000);
    assert_eq!(trade.amount, 9);
    assert_eq!(trade.timestamp, 1234);
}

#[test]
fn engine_cancel_and_reads() {
    let mut engine = Engine::new();
    engine.apply(order("a", "u1", 600_000, 10)).unwrap();
    assert_eq!(engine.best_prices(), (600_000, 500_000));
    assert_eq!(engine.snapshot(0).bids.len(), 1);
    assert!(engine.cancel(&"a".to_string()));
    assert!(!engine.cancel(&"a".to_string()));
    assert_eq!(engine.best_prices(), (500_000, 500_000));
}

#[test]
fn publisher_records_every_call_in_order() {
    let mut engine = Engine::new();
    let mut publisher = MemoryPublisher::new();
    engine.apply(order("a1", "s1", -500_000, 2)).unwrap();
    engine.apply(order("a2", "s2", -500_000, 2)).unwrap();
    let first = engine.apply(order("b1", "u", 500_000, 3)).unwrap();
    publisher.publish_all(&first.events);
    let second = engine.apply(order("b2", "u", 500_000, 5)).unwrap();
    publisher.publish_all(&second.events);
    let log: Vec<(bool, &str, u64, &str, u64)> = publisher
        .calls
        .iter()
        .map(|c| (c.partial, c.yes.tx_id.as_str(), c.yes.qty, c.no.tx_id.as_str(), c.no.qty))
        .collect();
    assert_eq!(
        log,
        vec![
            (true, "b1", 1, "a1", 0),
            (false, "b1", 0, "a2", 1),
            (true, "b2", 4, "a2", 0),
        ]
    );
    publisher.publish(&first.events[0]);
    assert_eq!(publisher.calls.len(), 4);
    assert_eq!(publisher.calls[3], publisher.calls[0]);
}

#[test]
fn subjects() {
    assert_eq!(ORDERS_SUBJECT, "clob.orders");
    assert_eq!(subject_of(false), "clob.matches.full");
    assert_eq!(subject_of(true), "clob.matches.partial");
    assert_eq!(FULL_SUBJECT, "clob.matches.full");
    assert_eq!(PARTIAL_SUBJECT, "clob.matches.partial");
}
