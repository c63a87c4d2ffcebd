use matchstick::book::{
    Order, OrderError, OrderId, OrderType, Orderbook, Price, Quantity, Side,
};

fn order(id: &str, side: Side, price: u64, qty: u64) -> Order {
    Order::new(
        OrderId::new(id.to_string()),
        OrderType::GoodTillCancelled,
        side,
        Price::new(price),
        Quantity(qty),
    )
}

#[test]
fn add_unseen_rests_exactly_once() {
    let mut book = Orderbook::new();
    assert_eq!(book.add_order(order("a1", Side::Buy, 1000, 50)), Ok(()));
    assert_eq!(book.bids.len(), 1);
    assert_eq!(book.asks.len(), 0);
    assert_eq!(book.bids[0].order_id.0, "a1");
    assert_eq!(book.bids[0].side, Side::Buy);
    assert_eq!(book.bids[0].price, Price(1000));
    assert_eq!(book.bids[0].quantity, Quantity(50));
}

#[test]
fn add_duplicate_id_is_refused() {
    let mut book = Orderbook::new();
    assert_eq!(book.add_order(order("a1", Side::Buy, 1000, 50)), Ok(()));
    assert_eq!(
        book.add_order(order("a1", Side::Buy, 1200, 70)),
        Err(OrderError::IdExists)
    );
    assert_eq!(book.bids.len(), 1);
    assert_eq!(book.bids[0].price, Price(1000));
    assert_eq!(book.bids[0].quantity, Quantity(50));
}

#[test]
fn bids_keep_price_time_priority() {
    let mut book = Orderbook::new();
    book.add_order(order("a", Side::Buy, 1000, 1)).unwrap();
    book.add_order(order("b", Side::Buy, 1200, 1)).unwrap();
    book.add_order(order("c", Side::Buy, 1000, 1)).unwrap();
    let ids: Vec<&str> = book.bids.iter().map(|o| o.order_id.0.as_str()).collect();
    assert_eq!(ids, vec!["b", "a", "c"]);
}

#[test]
fn crossing_add_matches_best_first() {
    let mut book = Orderbook::new();
    book.add_order(order("s1", Side::Sell, 1010, 10)).unwrap();
    book.add_order(order("s2", Side::Sell, 1000, 10)).unwrap();
    book.add_order(order("s3", Side::Sell, 1020, 10)).unwrap();
    // Buys twenty-five units up to 1015: takes all of s2, all of s1,
    // and rests the five left over.
    book.add_order(order("b1", Side::Buy, 1015, 25)).unwrap();
    assert_eq!(book.asks.len(), 1);
    assert_eq!(book.asks[0].order_id.0, "s3");
    assert_eq!(book.bids.len(), 1);
    assert_eq!(book.bids[0].order_id.0, "b1");
    assert_eq!(book.bids[0].quantity, Quantity(5));
}

#[test]
fn crossing_add_partial_fill_of_resting() {
    let mut book = Orderbook::new();
    book.add_order(order("s1", Side::Sell, 1000, 100)).unwrap();
    book.add_order(order("b1", Side::Buy, 1000, 30)).unwrap();
    assert_eq!(book.bids.len(), 0);
    assert_eq!(book.asks.len(), 1);
    assert_eq!(book.asks[0].quantity, Quantity(70));
}

#[test]
fn delete_known_removes_unknown_errs() {
    let mut book = Orderbook::new();
    book.add_order(order("a1", Side::Buy, 1000, 50)).unwrap();
    assert_eq!(book.cancel_order(OrderId::new("a1".to_string())), Ok(()));
    assert_eq!(book.bids.len(), 0);
    assert_eq!(
        book.cancel_order(OrderId::new("a1".to_string())),
        Err(OrderError::NotFound)
    );
    assert_eq!(book.bids.len(), 0);
    assert_eq!(book.asks.len(), 0);
}

#[test]
fn modify_known_sets_quantity_in_place() {
    let mut book = Orderbook::new();
    book.add_order(order("a", Side::Buy, 1000, 1)).unwrap();
    book.add_order(order("b", Side::Buy, 1000, 2)).unwrap();
    assert_eq!(
        book.modify_order(OrderId::new("a".to_string()), Quantity(9)),
        Ok(())
    );
    assert_eq!(book.bids[0].order_id.0, "a");
    assert_eq!(book.bids[0].quantity, Quantity(9));
    assert_eq!(book.bids[1].order_id.0, "b");
}

#[test]
fn modify_unknown_errs_without_effect() {
    let mut book = Orderbook::new();
    book.add_order(order("a", Side::Buy, 1000, 1)).unwrap();
    assert_eq!(
        book.modify_order(OrderId::new("zz".to_string()), Quantity(9)),
        Err(OrderError::NotFound)
    );
    assert_eq!(book.bids.len(), 1);
    assert_eq!(book.bids[0].quantity, Quantity(1));
}

#[test]
fn modify_to_zero_cancels() {
    let mut book = Orderbook::new();
    book.add_order(order("a", Side::Buy, 1000, 1)).unwrap();
    assert_eq!(
        book.modify_order(OrderId::new("a".to_string()), Quantity(0)),
        Ok(())
    );
    assert_eq!(book.bids.len(), 0);
}

#[test]
fn midprice_means_best_bid_and_ask() {
    let mut book = Orderbook::new();
    assert_eq!(book.midprice(), None);
    book.add_order(order("b", Side::Buy, 1000, 1)).unwrap();
    assert_eq!(book.midprice(), None);
    book.add_order(order("s", Side::Sell, 1011, 1)).unwrap();
    assert_eq!(book.midprice(), Some(Price(1005)));
}

#[test]
fn levels_aggregate_equal_prices() {
    let mut book = Orderbook::new();
    book.add_order(order("a", Side::Buy, 1000, 5)).unwrap();
    book.add_order(order("b", Side::Buy, 1000, 7)).unwrap();
    book.add_order(order("c", Side::Buy, 990, 1)).unwrap();
    book.add_order(order("s", Side::Sell, 1010, 3)).unwrap();
    let levels = book.get_levels();
    assert_eq!(levels.bids().len(), 2);
    assert_eq!(levels.bids()[0].price, 1000);
    assert_eq!(levels.bids()[0].quantity, 12);
    assert_eq!(levels.bids()[1].price, 990);
    assert_eq!(levels.bids()[1].quantity, 1);
    assert_eq!(levels.asks().len(), 1);
    assert_eq!(levels.asks()[0].price, 1010);
    assert_eq!(levels.asks()[0].quantity, 3);
}

#[test]
fn clear_discards_all_resting_orders() {
    let mut book = Orderbook::new();
    book.add_order(order("a", Side::Buy, 1000, 5)).unwrap();
    book.add_order(order("s", Side::Sell, 1010, 3)).unwrap();
    book.clear();
    assert_eq!(book.bids.len(), 0);
    assert_eq!(book.asks.len(), 0);
}
