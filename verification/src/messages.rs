use vstd::prelude::*;

verus! {

/// Body of the REST token request: `nonce=<value>`.
pub struct TokenRequest {
    pub nonce: u64,
}

/// JSON reply of the REST token exchange.
pub struct TokenResponse {
    pub result: Option<TokenResponseResult>,
    pub error: Vec<String>,
}

pub struct TokenResponseResult {
    pub token: String,
    pub expires: u64,
}

/// Control message sent once after the streaming connection opens.
pub struct SubscribeRequest {
    pub method: String,
    pub params: SubscribeParams,
}

pub struct SubscribeParams {
    pub channel: String,
    pub symbol: Vec<String>,
    pub depth: Option<u32>,
    pub snapshot: Option<bool>,
    pub token: String,
    pub req_id: Option<u64>,
}

/// One decoded data frame of the streaming feed.
pub struct Response {
    pub channel: String,
    pub message_type: String,
    pub data: Vec<Data>,
}

/// One delta inside a frame: events per side, in exchange-send order.
pub struct Data {
    pub checksum: Option<u32>,
    pub symbol: Option<String>,
    pub timestamp: Option<String>,
    pub bids: Vec<OrderEvent>,
    pub asks: Vec<OrderEvent>,
}

/// A single order-by-order event. Price and quantity carry the wire
/// decimal as text, so that fixed-point conversion is exact.
pub struct OrderEvent {
    pub event: EventType,
    pub order_id: String,
    pub limit_price: String,
    pub order_qty: String,
    pub timestamp: String,
}

#[derive(Clone, Copy, PartialEq, Eq, Structural, Debug)]
pub enum EventType {
    Add,
    Modify,
    Delete,
}

/// The event kind a frame implies when it names none.
pub fn default_event() -> (r: EventType)
    ensures
        r == EventType::Add,
{
    EventType::Add
}

/// Ghost image of an `OrderEvent`.
pub ghost struct EventModel {
    pub event: EventType,
    pub order_id: Seq<char>,
    pub limit_price: Seq<char>,
    pub order_qty: Seq<char>,
}

impl View for OrderEvent {
    type V = EventModel;

    open spec fn view(&self) -> EventModel {
        EventModel {
            event: self.event,
            order_id: self.order_id@,
            limit_price: self.limit_price@,
            order_qty: self.order_qty@,
        }
    }
}

/// Ghost image of a `Data` delta: just the two event lists, in order.
pub ghost struct DataModel {
    pub bids: Seq<EventModel>,
    pub asks: Seq<EventModel>,
}

impl View for Data {
    type V = DataModel;

    open spec fn view(&self) -> DataModel {
        DataModel {
            bids: self.bids@.map_values(|e: OrderEvent| e@),
            asks: self.asks@.map_values(|e: OrderEvent| e@),
        }
    }
}

/// Ghost image of a decoded frame.
pub ghost struct ResponseModel {
    pub channel: Seq<char>,
    pub message_type: Seq<char>,
    pub data: Seq<DataModel>,
}

impl View for Response {
    type V = ResponseModel;

    open spec fn view(&self) -> ResponseModel {
        ResponseModel {
            channel: self.channel@,
            message_type: self.message_type@,
            data: self.data@.map_values(|d: Data| d@),
        }
    }
}

} // verus!
