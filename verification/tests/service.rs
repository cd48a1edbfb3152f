use clob::orderbook::MID_PRICE;
use clob::service::{OrderBookService, Placed, ServiceError};
use clob::text::IdSet;
use clob::types::{Order, OrderError};
use clob::utils::{is_valid_poly_id, uuid_part};

fn order(tx: &str, market: &str, account: &str, price_usd: i64, qty: u64) -> Order {
    Order {
        tx_id: tx.to_string(),
        market_id: market.to_string(),
        account_id: account.to_string(),
        market_limit: false,
        price_usd,
        qty,
    }
}

#[test]
fn markets_are_created_once() {
    let mut service = OrderBookService::new();
    assert!(service.add_market("m1".to_string()));
    service.place_order(order("a", "m1", "u", 5, 5));
    assert!(!service.add_market("m1".to_string()));
    assert!(!service.add_market("M1".to_string()));
    assert_eq!(service.get_book("m1", 0).unwrap().bids.len(), 1);
    assert!(service.add_market("m2".to_string()));
    assert_eq!(service.market_ids(), vec!["m1", "m2"]);
}

#[test]
fn market_ids_ignore_case() {
    let mut service = OrderBookService::new();
    assert!(service.add_market("TestNet:ABC".to_string()));
    assert_eq!(service.market_ids(), vec!["testnet:abc"]);
    assert!(service.lookup("TESTNET:abc").is_ok());
    assert!(matches!(
        service.place_order(order("a", "testNET:Abc", "u", 5, 5)),
        Placed::Accepted(_)
    ));
    let resting = service.get_orders_for_user("u");
    assert_eq!(resting.len(), 1);
    assert_eq!(resting[0].market_id, "testnet:abc");
    assert!(service.cancel_order("TESTNET:ABC", &"a".to_string()));
}

#[test]
fn unknown_market_is_reported() {
    let mut service = OrderBookService::new();
    service.add_market("m1".to_string());
    assert_eq!(service.place_order(order("a", "nowhere", "u", 5, 5)), Placed::UnknownMarket);
    // The id stays recorded, whatever became of the order.
    assert_eq!(service.place_order(order("a", "m1", "u", 5, 5)), Placed::Duplicate);
    assert_eq!(service.get_book("nowhere", 0), Err(ServiceError::UnknownMarket));
    assert!(service.lookup("nowhere").is_err());
    assert_eq!(service.get_price("nowhere"), Err(ServiceError::UnknownMarket));
    assert_eq!(service.price_update_at("nowhere", 5), Err(ServiceError::UnknownMarket));
    assert!(!service.cancel_order("nowhere", &"a".to_string()));
}

#[test]
fn rejected_order_keeps_its_id_recorded() {
    let mut service = OrderBookService::new();
    service.add_market("m1".to_string());
    assert_eq!(
        service.place_order(order("a", "m1", "u", 0, 5)),
        Placed::Rejected(OrderError::InvalidPrice)
    );
    assert_eq!(
        service.place_order(order("b", "m1", "u", 5, 0)),
        Placed::Rejected(OrderError::InvalidQuantity)
    );
    assert_eq!(service.place_order(order("a", "m1", "u", 5, 5)), Placed::Duplicate);
    assert!(service.get_book("m1", 0).unwrap().bids.is_empty());
}

#[test]
fn markets_do_not_match_each_other() {
    let mut service = OrderBookService::new();
    service.add_market("m1".to_string());
    service.add_market("m2".to_string());
    service.place_order(order("a", "m1", "u1", 600_000, 5));
    let placed = service.place_order(order("b", "m2", "u2", -500_000, 5));
    match placed {
        Placed::Accepted(done) => assert!(done.events.is_empty()),
        other => panic!("not accepted: {:?}", other),
    }
    assert_eq!(service.get_book("m1", 0).unwrap().bids.len(), 1);
    assert_eq!(service.get_book("m2", 0).unwrap().asks.len(), 1);
    assert!(!service.cancel_order("m2", &"a".to_string()));
    assert!(service.cancel_order("m1", &"a".to_string()));
}

#[test]
fn price_updates_carry_best_prices_and_time() {
    let mut service = OrderBookService::new();
    service.add_market("m1".to_string());
    let empty = service.price_update_at("m1", 77).unwrap();
    assert_eq!(empty.price_bid_usd, MID_PRICE);
    assert_eq!(empty.price_ask_usd, MID_PRICE);
    assert_eq!(empty.timestamp_ms, 77);
    service.place_order(order("a", "m1", "u1", 300_000, 5));
    service.place_order(order("b", "m1", "u1", 350_000, 5));
    service.place_order(order("c", "m1", "u1", -800_000, 5));
    let update = service.price_update_at("M1", -3).unwrap();
    assert_eq!(update.price_bid_usd, 350_000);
    assert_eq!(update.price_ask_usd, -800_000);
    assert_eq!(update.timestamp_ms, -3);
    let now = service.get_price("m1").unwrap();
    assert_eq!(now.price_bid_usd, 350_000);
    assert_eq!(now.price_ask_usd, -800_000);
    assert!(now.timestamp_ms > 1_600_000_000_000);
}

#[test]
fn orders_of_an_account_across_markets() {
    let mut service = OrderBookService::new();
    service.add_market("m1".to_string());
    service.add_market("m2".to_string());
    service.place_order(order("a", "m1", "Alice", 300_000, 5));
    service.place_order(order("b", "m1", "bob", 350_000, 5));
    service.place_order(order("c", "m1", "ALICE", -800_000, 5));
    service.place_order(order("d", "m2", "alice", -900_000, 5));
    service.place_order(order("e", "m2", "alice", 100_000, 5));
    let ids: Vec<String> =
        service.get_orders_for_user("aLiCe").into_iter().map(|o| o.tx_id).collect();
    assert_eq!(ids, vec!["a", "c", "e", "d"]);
    assert!(service.get_orders_for_user("carol").is_empty());
}

#[test]
fn lower_case_touches_ascii_capitals_only() {
    let mut service = OrderBookService::new();
    assert!(service.add_market("MainNet:AZ-az09_[`{".to_string()));
    assert!(service.add_market("ÀÉ".to_string()));
    assert!(service.add_market("".to_string()));
    assert_eq!(service.market_ids(), vec!["mainnet:az-az09_[`{", "ÀÉ", ""]);
    assert!(service.lookup("àé").is_err());
    assert!(service.lookup("ÀÉ").is_ok());
}

#[test]
fn id_set_holds_each_id_once() {
    let mut set = IdSet::new();
    assert!(!set.contains(&"a".to_string()));
    assert!(set.insert("a".to_string()));
    assert!(set.insert("b".to_string()));
    assert!(!set.insert("a".to_string()));
    assert!(set.contains(&"a".to_string()));
    assert!(set.contains(&"b".to_string()));
    assert!(!set.contains(&"A".to_string()));
    assert_eq!(set.ids.len(), 2);
}

#[test]
fn poly_ids() {
    let uuid = "550e8400-e29b-41d4-a716-446655440000";
    assert!(is_valid_poly_id(format!("testnet:{}", uuid)));
    assert!(is_valid_poly_id(format!("mainnet:{}", uuid)));
    assert!(is_valid_poly_id(format!("previewnet:{}", uuid)));
    assert!(!is_valid_poly_id(format!("Testnet:{}", uuid)));
    assert!(!is_valid_poly_id(format!("devnet:{}", uuid)));
    assert!(!is_valid_poly_id(format!("testnet{}", uuid)));
    assert!(!is_valid_poly_id(format!("testnet:{}:", uuid)));
    assert!(!is_valid_poly_id(format!("testnet::{}", uuid)));
    assert!(!is_valid_poly_id("testnet:".to_string()));
    assert!(!is_valid_poly_id("".to_string()));
    assert!(!is_valid_poly_id(":".to_string()));
    // 36 bytes that are no UUID.
    assert!(!is_valid_poly_id("testnet:550e8400-e29b-41d4-a716-44665544000g".to_string()));
    assert!(!is_valid_poly_id("testnet:550e8400xe29bx41d4xa716x446655440000".to_string()));
    // A UUID in another of the parser's forms is not 36 bytes long.
    assert!(!is_valid_poly_id("testnet:550e8400e29b41d4a716446655440000".to_string()));
    assert!(!is_valid_poly_id("testnet:{550e8400-e29b-41d4-a716-446655440000}".to_string()));
    // 36 bytes in fewer characters.
    assert!(!is_valid_poly_id(format!("testnet:{}", "é".repeat(18))));
}

#[test]
fn uuid_part_is_what_follows_the_colon() {
    let uuid = "550e8400-e29b-41d4-a716-446655440000";
    assert_eq!(uuid_part(&format!("testnet:{}", uuid)), Some(uuid));
    let not_hex = "zzzzzzzzzzzzzzzzzzzzzzzzzzzzzzzzzzzz";
    assert_eq!(uuid_part(&format!("mainnet:{}", not_hex)), Some(not_hex));
    assert_eq!(uuid_part(&format!("mainnet:{}x", uuid)), None);
    assert_eq!(uuid_part(&format!("othernet:{}", uuid)), None);
    assert_eq!(uuid_part(&format!("mainnet:{}", &uuid[1..])), None);
    assert_eq!(uuid_part("mainnet"), None);
    assert_eq!(uuid_part(&format!("a:mainnet:{}", uuid)), None);
}
