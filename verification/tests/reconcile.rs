use matchstick::adapter::{process_event, process_message, ParseError};
use matchstick::book::{
    Order, OrderError, OrderId, OrderType, Orderbook, Price, Quantity, Side,
};
use matchstick::messages::{default_event, Data, EventType, OrderEvent, Response};

fn event(kind: EventType, id: &str, price: &str, qty: &str) -> OrderEvent {
    OrderEvent {
        event: kind,
        order_id: id.to_string(),
        limit_price: price.to_string(),
        order_qty: qty.to_string(),
        timestamp: "2024-01-01T00:00:00Z".to_string(),
    }
}

fn frame(channel: &str, kind: &str, bids: Vec<OrderEvent>, asks: Vec<OrderEvent>) -> Response {
    Response {
        channel: channel.to_string(),
        message_type: kind.to_string(),
        data: vec![Data {
            checksum: None,
            symbol: Some("BTC/USD".to_string()),
            timestamp: None,
            bids,
            asks,
        }],
    }
}

#[test]
fn wrong_channel_rejected_without_mutation() {
    let mut book = Orderbook::new();
    let msg = frame(
        "ticker",
        "update",
        vec![event(EventType::Add, "a", "10.00", "1")],
        vec![],
    );
    assert_eq!(process_message(&mut book, msg), Err(ParseError::InvalidChannel));
    assert_eq!(book.bids.len(), 0);
    assert_eq!(book.asks.len(), 0);
}

#[test]
fn wrong_kind_rejected_without_mutation() {
    let mut book = Orderbook::new();
    let msg = frame(
        "level3",
        "heartbeat",
        vec![event(EventType::Add, "a", "10.00", "1")],
        vec![],
    );
    assert_eq!(process_message(&mut book, msg), Err(ParseError::InvalidType));
    assert_eq!(book.bids.len(), 0);
}

#[test]
fn empty_data_rejected_without_mutation() {
    let mut book = Orderbook::new();
    let msg = Response {
        channel: "level3".to_string(),
        message_type: "update".to_string(),
        data: vec![],
    };
    assert_eq!(process_message(&mut book, msg), Err(ParseError::Empty));
    assert_eq!(book.bids.len(), 0);
}

#[test]
fn update_applies_bids_then_asks() {
    let mut book = Orderbook::new();
    let msg = frame(
        "level3",
        "update",
        vec![event(EventType::Add, "b1", "10.00", "0.00000050")],
        vec![event(EventType::Add, "s1", "10.10", "0.00000030")],
    );
    assert_eq!(process_message(&mut book, msg), Ok(()));
    assert_eq!(book.bids.len(), 1);
    assert_eq!(book.bids[0].order_id.0, "b1");
    assert_eq!(book.bids[0].side, Side::Buy);
    assert_eq!(book.bids[0].price, Price(1000));
    assert_eq!(book.bids[0].quantity, Quantity(50));
    assert_eq!(book.asks.len(), 1);
    assert_eq!(book.asks[0].order_id.0, "s1");
    assert_eq!(book.asks[0].side, Side::Sell);
}

#[test]
fn snapshot_discards_prior_resting_orders() {
    let mut book = Orderbook::new();
    book.add_order(Order::new(
        OrderId::new("old".to_string()),
        OrderType::GoodTillCancelled,
        Side::Buy,
        Price(900),
        Quantity(1),
    ))
    .unwrap();
    let msg = frame(
        "level3",
        "snapshot",
        vec![event(EventType::Add, "new", "10.00", "1")],
        vec![],
    );
    assert_eq!(process_message(&mut book, msg), Ok(()));
    assert_eq!(book.bids.len(), 1);
    assert_eq!(book.bids[0].order_id.0, "new");
}

#[test]
fn add_resends_replace_the_resting_order() {
    let mut book = Orderbook::new();
    let first = frame(
        "level3",
        "update",
        vec![event(EventType::Add, "a1", "10.00", "0.00000050")],
        vec![],
    );
    assert_eq!(process_message(&mut book, first), Ok(()));
    let resend = frame(
        "level3",
        "update",
        vec![event(EventType::Add, "a1", "10.25", "0.00000070")],
        vec![],
    );
    assert_eq!(process_message(&mut book, resend), Ok(()));
    assert_eq!(book.bids.len(), 1);
    assert_eq!(book.bids[0].order_id.0, "a1");
    assert_eq!(book.bids[0].price, Price(1025));
    assert_eq!(book.bids[0].quantity, Quantity(70));
}

#[test]
fn modify_unknown_id_propagates_error() {
    let mut book = Orderbook::new();
    let msg = frame(
        "level3",
        "update",
        vec![event(EventType::Modify, "ghost", "10.00", "1")],
        vec![],
    );
    assert_eq!(
        process_message(&mut book, msg),
        Err(ParseError::OrderError(OrderError::NotFound))
    );
    assert_eq!(book.bids.len(), 0);
    assert_eq!(book.asks.len(), 0);
}

#[test]
fn delete_unknown_id_propagates_error() {
    let mut book = Orderbook::new();
    let msg = frame(
        "level3",
        "update",
        vec![],
        vec![event(EventType::Delete, "ghost", "10.00", "1")],
    );
    assert_eq!(
        process_message(&mut book, msg),
        Err(ParseError::OrderError(OrderError::NotFound))
    );
}

#[test]
fn delete_known_id_removes_it() {
    let mut book = Orderbook::new();
    let add = frame(
        "level3",
        "update",
        vec![event(EventType::Add, "a1", "10.00", "1")],
        vec![],
    );
    process_message(&mut book, add).unwrap();
    let del = frame(
        "level3",
        "update",
        vec![event(EventType::Delete, "a1", "10.00", "1")],
        vec![],
    );
    assert_eq!(process_message(&mut book, del), Ok(()));
    assert_eq!(book.bids.len(), 0);
}

#[test]
fn malformed_numeral_reports_invalid_number() {
    let mut book = Orderbook::new();
    let mut ev = event(EventType::Add, "a1", "not-a-price", "1");
    assert_eq!(
        process_event(&mut book, &ev, true),
        Err(ParseError::InvalidNumber)
    );
    ev = event(EventType::Modify, "a1", "10.00", "1.2.3");
    assert_eq!(
        process_event(&mut book, &ev, true),
        Err(ParseError::InvalidNumber)
    );
    assert_eq!(book.bids.len(), 0);
}

#[test]
fn default_event_kind_is_add() {
    assert_eq!(default_event(), EventType::Add);
}

#[test]
fn aggressor_consumes_asks_in_ascending_price_order() {
    let mut book = Orderbook::new();
    // One hundred resting sells at 1000..1099 cents, one hundred
    // units each.
    for i in 0..100u64 {
        book.add_order(Order::new(
            OrderId::new(format!("s{}", i)),
            OrderType::GoodTillCancelled,
            Side::Sell,
            Price(1000 + i),
            Quantity(100),
        ))
        .unwrap();
    }
    // One incremental buy of five thousand units at 1050 cents:
    // "10.50" converts to 1050 cents, "0.00005" to five thousand
    // units.
    let msg = frame(
        "level3",
        "update",
        vec![event(EventType::Add, "agg", "10.50", "0.00005")],
        vec![],
    );
    assert_eq!(process_message(&mut book, msg), Ok(()));
    // The cheapest fifty levels, 1000..1049, are consumed whole, in
    // ascending price order; 1050..1099 are untouched; the aggressor
    // is exhausted and rests nothing.
    assert_eq!(book.bids.len(), 0);
    let levels = book.get_levels();
    assert_eq!(levels.asks().len(), 50);
    for (k, level) in levels.asks().iter().enumerate() {
        assert_eq!(level.price, 1050 + k as u64);
        assert_eq!(level.quantity, 100);
    }
}

#[test]
fn aggressor_leaves_remainder_at_touched_level() {
    let mut book = Orderbook::new();
    for i in 0..100u64 {
        book.add_order(Order::new(
            OrderId::new(format!("s{}", i)),
            OrderType::GoodTillCancelled,
            Side::Sell,
            Price(1000 + i),
            Quantity(100),
        ))
        .unwrap();
    }
    // Five thousand and twenty-five units: fifty whole levels and a
    // quarter of the next.
    let msg = frame(
        "level3",
        "update",
        vec![event(EventType::Add, "agg", "10.99", "0.00005025")],
        vec![],
    );
    assert_eq!(process_message(&mut book, msg), Ok(()));
    let levels = book.get_levels();
    assert_eq!(levels.asks().len(), 50);
    assert_eq!(levels.asks()[0].price, 1050);
    assert_eq!(levels.asks()[0].quantity, 75);
    assert_eq!(levels.asks()[1].price, 1051);
    assert_eq!(levels.asks()[1].quantity, 100);
}

#[test]
fn empty_data_wins_over_unknown_kind() {
    let mut book = Orderbook::new();
    let msg = Response {
        channel: "level3".to_string(),
        message_type: "heartbeat".to_string(),
        data: vec![],
    };
    assert_eq!(process_message(&mut book, msg), Err(ParseError::Empty));
    assert_eq!(book.bids.len(), 0);
}
