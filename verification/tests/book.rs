use clob::orderbook::{validate, OrderBook, MID_PRICE};
use clob::types::{Order, OrderError, PriceLevel};

fn order(tx: &str, price_usd: i64, qty: u64) -> Order {
    Order {
        tx_id: tx.to_string(),
        market_id: "m".to_string(),
        account_id: "acct".to_string(),
        market_limit: false,
        price_usd,
        qty,
    }
}

#[test]
fn price_level_is_first_in_first_out() {
    let mut level = PriceLevel::new();
    assert!(level.is_empty());
    assert!(level.pop_front().is_none());
    assert!(level.front_mut().is_none());
    level.push(order("a", 5, 1));
    level.push(order("b", 5, 2));
    level.push_front(order("c", 5, 3));
    assert!(!level.is_empty());
    assert_eq!(level.front_mut().unwrap().tx_id, "c");
    assert_eq!(level.pop_front().unwrap().tx_id, "c");
    assert_eq!(level.pop_front().unwrap().tx_id, "a");
    assert_eq!(level.pop_front().unwrap().tx_id, "b");
    assert!(level.pop_front().is_none());
    assert!(level.is_empty());
}

#[test]
fn front_mut_changes_the_head_in_place() {
    let mut level = PriceLevel::new();
    level.push(order("a", 5, 10));
    level.push(order("b", 5, 20));
    level.front_mut().unwrap().qty = 7;
    assert_eq!(level.queue.len(), 2);
    assert_eq!(level.queue[0].qty, 7);
    assert_eq!(level.queue[1].qty, 20);
}

#[test]
fn zero_price_is_rejected() {
    let mut book = OrderBook::new();
    assert_eq!(book.insert_order(order("z", 0, 5)), Err(OrderError::InvalidPrice));
    assert_eq!(book.add_order(order("z", 0, 5)), Err(OrderError::InvalidPrice));
    assert_eq!(validate(&order("z", 0, 0)), Err(OrderError::InvalidPrice));
    assert!(book.bids.is_empty());
    assert!(book.asks.is_empty());
}

#[test]
fn price_without_magnitude_is_rejected() {
    let mut book = OrderBook::new();
    assert_eq!(book.add_order(order("m", i64::MIN, 5)), Err(OrderError::InvalidPrice));
    assert!(book.asks.is_empty());
    assert!(book.add_order(order("n", i64::MIN + 1, 5)).is_ok());
    assert!(book.add_order(order("x", i64::MAX, 5)).is_ok());
    assert_eq!(book.snapshot_top(0), (vec![], vec![]));
}

#[test]
fn zero_quantity_is_rejected() {
    let mut book = OrderBook::new();
    assert_eq!(book.insert_order(order("q", 10, 0)), Err(OrderError::InvalidQuantity));
    assert_eq!(book.add_order(order("q", -10, 0)), Err(OrderError::InvalidQuantity));
    assert_eq!(validate(&order("ok", -10, 1)), Ok(()));
    assert!(book.bids.is_empty());
    assert!(book.asks.is_empty());
}

#[test]
fn insert_order_rests_without_matching() {
    let mut book = OrderBook::new();
    book.insert_order(order("b", 600_000, 10)).unwrap();
    book.insert_order(order("a", -500_000, 10)).unwrap();
    assert_eq!(book.snapshot_top(0), (vec![(600_000, 1)], vec![(-500_000, 1)]));
}

#[test]
fn best_prices_report_the_midpoint_for_an_empty_side() {
    let mut book = OrderBook::new();
    assert_eq!(MID_PRICE, 500_000);
    assert_eq!(book.best_prices(), (MID_PRICE, MID_PRICE));
    book.add_order(order("b1", 200_000, 1)).unwrap();
    book.add_order(order("b2", 350_000, 1)).unwrap();
    book.add_order(order("b3", 100_000, 1)).unwrap();
    assert_eq!(book.best_prices(), (350_000, MID_PRICE));
    book.add_order(order("a1", -900_000, 1)).unwrap();
    book.add_order(order("a2", -700_000, 1)).unwrap();
    book.add_order(order("a3", -800_000, 1)).unwrap();
    assert_eq!(book.best_prices(), (350_000, -700_000));
}

#[test]
fn best_handles_reach_the_oldest_order_at_the_best_price() {
    let mut book = OrderBook::new();
    assert!(book.best_bid_mut().is_none());
    assert!(book.best_ask_mut().is_none());
    book.add_order(order("b1", 200_000, 1)).unwrap();
    book.add_order(order("b2", 350_000, 2)).unwrap();
    book.add_order(order("b3", 350_000, 3)).unwrap();
    book.add_order(order("a1", -900_000, 4)).unwrap();
    book.add_order(order("a2", -700_000, 5)).unwrap();
    {
        let (price, head) = book.best_bid_mut().unwrap();
        assert_eq!(price, 350_000);
        assert_eq!(head.tx_id, "b2");
        head.qty = 1;
    }
    {
        let (price, head) = book.best_ask_mut().unwrap();
        assert_eq!(price, -700_000);
        assert_eq!(head.tx_id, "a2");
        head.qty = 9;
    }
    let shot = book.snapshot(0);
    assert_eq!(shot.bids[0].qty, 1);
    assert_eq!(shot.bids[1].qty, 3);
    assert_eq!(shot.asks[0].qty, 9);
    assert_eq!(shot.asks[1].qty, 4);
}

#[test]
fn snapshot_depth_counts_price_levels() {
    let mut book = OrderBook::new();
    for (i, p) in [100_000, 200_000, 200_000, 300_000, 400_000].iter().enumerate() {
        book.add_order(order(&format!("b{}", i), *p, 1)).unwrap();
    }
    for (i, p) in [-900_000, -800_000, -800_000].iter().enumerate() {
        book.add_order(order(&format!("a{}", i), *p, 1)).unwrap();
    }
    assert_eq!(
        book.snapshot_top(0),
        (
            vec![(400_000, 1), (300_000, 1), (200_000, 2), (100_000, 1)],
            vec![(-800_000, 2), (-900_000, 1)]
        )
    );
    assert_eq!(
        book.snapshot_top(2),
        (vec![(400_000, 1), (300_000, 1)], vec![(-800_000, 2), (-900_000, 1)])
    );
    assert_eq!(book.snapshot_top(1), (vec![(400_000, 1)], vec![(-800_000, 2)]));
    assert_eq!(book.snapshot_top(9).0.len(), 4);
    let shot = book.snapshot(3);
    let bids: Vec<&str> = shot.bids.iter().map(|d| d.tx_id.as_str()).collect();
    let asks: Vec<&str> = shot.asks.iter().map(|d| d.tx_id.as_str()).collect();
    assert_eq!(bids, vec!["b4", "b3", "b1", "b2"]);
    assert_eq!(asks, vec!["a1", "a2", "a0"]);
    assert_eq!(book.snapshot(1).asks.len(), 2);
}

#[test]
fn drained_levels_are_removed() {
    let mut book = OrderBook::new();
    book.add_order(order("b", 300_000, 5)).unwrap();
    book.add_order(order("a", -700_000, 5)).unwrap();
    assert!(!book.pop_if_drained(300_000));
    assert!(!book.pop_if_drained(-700_000));
    assert!(!book.pop_if_drained(123));
    book.bids.get_mut(&300_000).unwrap().queue.clear();
    book.asks.get_mut(&-700_000).unwrap().queue.clear();
    assert_eq!(book.snapshot_top(0), (vec![(300_000, 0)], vec![(-700_000, 0)]));
    assert!(book.pop_if_drained(300_000));
    assert_eq!(book.snapshot_top(0), (vec![], vec![(-700_000, 0)]));
    book.cleanup_empty_levels();
    assert_eq!(book.snapshot_top(0), (vec![], vec![]));
}

#[test]
fn cleanup_keeps_levels_that_hold_orders() {
    let mut book = OrderBook::new();
    book.add_order(order("b1", 300_000, 5)).unwrap();
    book.add_order(order("b2", 200_000, 5)).unwrap();
    book.add_order(order("b3", 100_000, 5)).unwrap();
    book.bids.get_mut(&200_000).unwrap().queue.clear();
    book.cleanup_empty_levels();
    assert_eq!(book.snapshot_top(0), (vec![(300_000, 1), (100_000, 1)], vec![]));
}

#[test]
fn matching_walks_levels_best_first_and_oldest_first() {
    let mut book = OrderBook::new();
    book.add_order(order("a1", -600_000, 2)).unwrap();
    book.add_order(order("a2", -500_000, 3)).unwrap();
    book.add_order(order("a3", -500_000, 4)).unwrap();
    book.add_order(order("a4", -700_000, 5)).unwrap();
    let done = book.add_order(order("b", 650_000, 10)).unwrap();
    let makers: Vec<(&str, u64, i64, bool)> =
        done.events.iter().map(|e| (e.no.tx_id.as_str(), e.fill, e.price, e.partial)).collect();
    assert_eq!(
        makers,
        vec![("a2", 3, 500_000, true), ("a3", 4, 500_000, true), ("a1", 2, 600_000, true)]
    );
    assert_eq!(done.rested, 1);
    assert_eq!(done.discarded, 0);
    assert_eq!(book.snapshot_top(0), (vec![(650_000, 1)], vec![(-700_000, 1)]));
}

#[test]
fn equal_prices_cross() {
    let mut book = OrderBook::new();
    book.add_order(order("a", -500_000, 2)).unwrap();
    let done = book.add_order(order("b", 500_000, 2)).unwrap();
    assert_eq!(done.events.len(), 1);
    assert!(!done.events[0].partial);
    let mut book = OrderBook::new();
    book.add_order(order("a", -500_001, 2)).unwrap();
    let done = book.add_order(order("b", 500_000, 2)).unwrap();
    assert!(done.events.is_empty());
}

#[test]
fn market_limit_without_a_cross_is_dropped_whole() {
    let mut book = OrderBook::new();
    let mut o = order("ml", 500_000, 8);
    o.market_limit = true;
    let done = book.add_order(o).unwrap();
    assert!(done.events.is_empty());
    assert_eq!(done.discarded, 8);
    assert_eq!(done.rested, 0);
    assert_eq!(book.snapshot_top(0), (vec![], vec![]));
}

#[test]
fn cancel_reaches_either_side_and_reports_misses() {
    let mut book = OrderBook::new();
    book.add_order(order("b1", 300_000, 1)).unwrap();
    book.add_order(order("b2", 300_000, 2)).unwrap();
    book.add_order(order("a1", -700_000, 3)).unwrap();
    assert!(!book.cancel(&"nobody".to_string()));
    assert!(book.cancel(&"a1".to_string()));
    assert!(book.cancel(&"b1".to_string()));
    let shot = book.snapshot(0);
    assert_eq!(shot.bids.len(), 1);
    assert_eq!(shot.bids[0].tx_id, "b2");
    assert!(shot.asks.is_empty());
    assert!(!book.cancel(&"b1".to_string()));
}
