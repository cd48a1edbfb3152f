use clob::orderbook::OrderBook;
use clob::service::{OrderBookService, Placed};
use clob::types::Order;

fn order(tx: &str, price_usd: i64, qty: u64, market_limit: bool) -> Order {
    Order {
        tx_id: tx.to_string(),
        market_id: "m".to_string(),
        account_id: format!("acct-{}", tx),
        market_limit,
        price_usd,
        qty,
    }
}

fn listed(book: &OrderBook) -> (Vec<(String, i64, u64)>, Vec<(String, i64, u64)>) {
    let shot = book.snapshot(0);
    (
        shot.bids.into_iter().map(|d| (d.tx_id, d.price_usd, d.qty)).collect(),
        shot.asks.into_iter().map(|d| (d.tx_id, d.price_usd, d.qty)).collect(),
    )
}

fn mixed_orders() -> Vec<Order> {
    vec![
        order("t1", 400_000, 7, false),
        order("t2", -700_000, 3, false),
        order("t3", 450_000, 2, false),
        order("t4", -420_000, 8, false),
        order("t5", 900_000, 20, true),
        order("t6", -100_000, 1, false),
        order("t7", 650_000, 5, false),
        order("t8", -650_000, 9, false),
        order("t9", 300_000, 4, false),
        order("t10", -250_000, 30, true),
    ]
}

#[test]
fn book_is_never_crossed_at_rest() {
    let mut book = OrderBook::new();
    for o in mixed_orders() {
        book.add_order(o).unwrap();
        let (bid, ask) = book.best_prices();
        let (bids, asks) = book.snapshot_top(0);
        if !bids.is_empty() && !asks.is_empty() {
            assert_eq!(bid, bids[0].0);
            assert_eq!(ask, asks[0].0);
            assert!(bid < -ask, "best bid {} meets best ask {}", bid, -ask);
        }
    }
}

#[test]
fn every_unit_of_an_order_is_accounted_for() {
    let mut book = OrderBook::new();
    for o in mixed_orders() {
        let qty = o.qty;
        let done = book.add_order(o).unwrap();
        let traded: u64 = done.events.iter().map(|e| e.fill).sum();
        assert_eq!(traded + done.rested + done.discarded, qty);
        assert!(done.rested == 0 || done.discarded == 0);
    }
}

#[test]
fn fills_equal_what_resting_orders_lose() {
    let mut book = OrderBook::new();
    let total = |side: &Vec<(String, i64, u64)>| side.iter().map(|o| o.2).sum::<u64>();
    for o in mixed_orders() {
        let incoming_is_bid = o.price_usd > 0;
        let (bids_before, asks_before) = listed(&book);
        let done = book.add_order(o).unwrap();
        let (bids_after, asks_after) = listed(&book);
        let traded: u64 = done.events.iter().map(|e| e.fill).sum();
        if incoming_is_bid {
            assert_eq!(total(&asks_before) - total(&asks_after), traded);
            assert_eq!(total(&bids_after), total(&bids_before) + done.rested);
        } else {
            assert_eq!(total(&bids_before) - total(&bids_after), traded);
            assert_eq!(total(&asks_after), total(&asks_before) + done.rested);
        }
    }
}

#[test]
fn snapshot_lists_resting_orders_by_priority() {
    let mut book = OrderBook::new();
    book.add_order(order("b1", 300_000, 1, false)).unwrap();
    book.add_order(order("b2", 500_000, 2, false)).unwrap();
    book.add_order(order("b3", 300_000, 3, false)).unwrap();
    book.add_order(order("b4", 400_000, 4, false)).unwrap();
    book.add_order(order("b5", 500_000, 5, false)).unwrap();
    book.add_order(order("a1", -900_000, 6, false)).unwrap();
    book.add_order(order("a2", -600_000, 7, false)).unwrap();
    book.add_order(order("a3", -900_000, 8, false)).unwrap();
    let (bids, asks) = listed(&book);
    assert_eq!(
        bids,
        vec![
            ("b2".to_string(), 500_000, 2),
            ("b5".to_string(), 500_000, 5),
            ("b4".to_string(), 400_000, 4),
            ("b1".to_string(), 300_000, 1),
            ("b3".to_string(), 300_000, 3),
        ]
    );
    assert_eq!(
        asks,
        vec![
            ("a2".to_string(), -600_000, 7),
            ("a1".to_string(), -900_000, 6),
            ("a3".to_string(), -900_000, 8),
        ]
    );
    let all: Vec<String> = book.resting().into_iter().map(|o| o.tx_id).collect();
    assert_eq!(all, vec!["b2", "b5", "b4", "b1", "b3", "a2", "a1", "a3"]);
}

#[test]
fn events_list_the_bid_first() {
    let mut book = OrderBook::new();
    let mut seen = 0;
    for o in mixed_orders() {
        let done = book.add_order(o).unwrap();
        for e in &done.events {
            assert!(e.yes.price_usd > 0);
            assert!(e.no.price_usd < 0);
            assert!(e.fill > 0);
            assert!(e.price == e.yes.price_usd || e.price == -e.no.price_usd);
            seen += 1;
        }
    }
    assert!(seen > 0);
}

#[test]
fn same_tx_id_twice_changes_the_book_once() {
    let mut once = OrderBookService::new();
    let mut twice = OrderBookService::new();
    once.add_market("m".to_string());
    twice.add_market("m".to_string());
    once.place_order(order("r", -500_000, 3, false));
    twice.place_order(order("r", -500_000, 3, false));
    let first = order("x", 700_000, 5, false);
    let mut again = order("x", 800_000, 9, false);
    again.account_id = "someone-else".to_string();
    assert!(matches!(once.place_order(first.clone()), Placed::Accepted(_)));
    assert!(matches!(twice.place_order(first), Placed::Accepted(_)));
    assert_eq!(twice.place_order(again), Placed::Duplicate);
    assert_eq!(once.get_book("m", 0).unwrap(), twice.get_book("m", 0).unwrap());
}

#[test]
fn cancelled_order_leaves_no_trace() {
    let mut with_cancel = OrderBook::new();
    let mut without = OrderBook::new();
    for book in [&mut with_cancel, &mut without] {
        book.add_order(order("r1", 300_000, 4, false)).unwrap();
        book.add_order(order("r2", -800_000, 6, false)).unwrap();
    }
    with_cancel.add_order(order("gone", 300_000, 9, false)).unwrap();
    assert!(with_cancel.cancel(&"gone".to_string()));
    assert_eq!(listed(&with_cancel), listed(&without));
    let a = with_cancel.add_order(order("next", -300_000, 5, false)).unwrap();
    let b = without.add_order(order("next", -300_000, 5, false)).unwrap();
    assert_eq!(a, b);
    assert_eq!(listed(&with_cancel), listed(&without));
}

#[test]
fn cancelling_the_last_order_of_a_level_removes_the_level() {
    let mut book = OrderBook::new();
    book.add_order(order("only", 300_000, 4, false)).unwrap();
    assert!(book.cancel(&"only".to_string()));
    assert_eq!(book.snapshot_top(0), (vec![], vec![]));
    assert!(book.bids.is_empty());
}
