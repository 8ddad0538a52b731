//! The values that the engine exchanges with its callers.
use vstd::prelude::*;

verus! {

/// The side of the market that an order is on.
#[derive(Debug, Clone, Copy, PartialEq, Eq, Structural)]
pub enum Side {
    Buy,
    Sell,
}

/// A limit order.
#[derive(Debug, Clone)]
pub struct Order {
    pub id: u64,
    pub side: Side,
    /// Limit price, in integer ticks.
    pub price: u64,
    pub qty: u64,
    /// Sequence number assigned by the matcher; determines time priority.
    pub seq: u64,
}

/// One execution of an incoming (taker) order against a resting (maker) order.
#[derive(Debug, Clone)]
pub struct Fill {
    pub maker_order_id: u64,
    pub taker_order_id: u64,
    pub price: u64,
    pub qty: u64,
}

/// The total quantity that rests at one price.
#[derive(Debug)]
pub struct PriceLevel {
    pub price: u64,
    pub qty: u64,
}

} // verus!
