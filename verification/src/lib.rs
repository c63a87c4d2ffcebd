//! A verified client core for an exchange's order-by-order ("level3")
//! streaming feed: a local limit order book, the reconciler that maps
//! decoded feed events onto book mutations, exact fixed-point unit
//! conversion, the signed-handshake computations of the session
//! bootstrap, and latency recording.

pub mod adapter;
pub mod book;
pub mod client;
pub mod messages;
pub mod stats;
