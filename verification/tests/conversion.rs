use matchstick::adapter::{to_order, to_order_id, to_price, to_quantity, to_side};
use matchstick::book::{OrderType, Price, Quantity, Side};
use matchstick::messages::{EventType, OrderEvent};

#[test]
fn price_truncates_not_rounds() {
    assert_eq!(to_price("10.5"), Some(Price(1050)));
    assert_eq!(to_price("10.999"), Some(Price(1099)));
}

#[test]
fn price_integer_and_exact() {
    assert_eq!(to_price("0"), Some(Price(0)));
    assert_eq!(to_price("37500"), Some(Price(3750000)));
    assert_eq!(to_price("0.29"), Some(Price(29)));
    assert_eq!(to_price("99999.99"), Some(Price(9999999)));
}

#[test]
fn quantity_smallest_unit() {
    assert_eq!(to_quantity("0.00000001"), Some(Quantity(1)));
}

#[test]
fn quantity_truncates_past_eight_decimals() {
    assert_eq!(to_quantity("0.000000019"), Some(Quantity(1)));
    assert_eq!(to_quantity("1.234567899"), Some(Quantity(123456789)));
    assert_eq!(to_quantity("2"), Some(Quantity(200000000)));
}

#[test]
fn malformed_numerals_are_rejected() {
    assert_eq!(to_price(""), None);
    assert_eq!(to_price("."), None);
    assert_eq!(to_price("10."), None);
    assert_eq!(to_price(".5"), None);
    assert_eq!(to_price("10.5.1"), None);
    assert_eq!(to_price("1e3"), None);
    assert_eq!(to_price("-1"), None);
    assert_eq!(to_price("1 0"), None);
}

#[test]
fn out_of_range_numerals_are_rejected() {
    // Far past what sixty-four bits hold once scaled.
    assert_eq!(to_price("99999999999999999999999999"), None);
    assert_eq!(to_quantity("999999999999"), None);
    // The largest quantity that still fits.
    assert_eq!(to_quantity("184467440737.09551615"), Some(Quantity(u64::MAX)));
    assert_eq!(to_quantity("184467440737.09551616"), None);
}

#[test]
fn id_and_side_pass_through() {
    let id = to_order_id("OABC-123");
    assert_eq!(id.0, "OABC-123");
    assert_eq!(to_side(true), Side::Buy);
    assert_eq!(to_side(false), Side::Sell);
}

#[test]
fn to_order_converts_whole_event() {
    let ev = OrderEvent {
        event: EventType::Add,
        order_id: "OX-1".to_string(),
        limit_price: "10.999".to_string(),
        order_qty: "0.25".to_string(),
        timestamp: "t".to_string(),
    };
    let order = to_order(&ev, false).unwrap();
    assert_eq!(order.order_id.0, "OX-1");
    assert_eq!(order.order_type, OrderType::GoodTillCancelled);
    assert_eq!(order.side, Side::Sell);
    assert_eq!(order.price, Price(1099));
    assert_eq!(order.quantity, Quantity(25000000));

    let bad = OrderEvent {
        event: EventType::Add,
        order_id: "OX-2".to_string(),
        limit_price: "ten".to_string(),
        order_qty: "0.25".to_string(),
        timestamp: "t".to_string(),
    };
    assert!(to_order(&bad, true).is_none());
}
