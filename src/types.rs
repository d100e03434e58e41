use vstd::prelude::*;

verus! {

/// Direction of an order.
#[derive(Clone, Copy, Debug, PartialEq, Eq, Structural)]
pub enum Side {
    Buy,
    Sell,
}

/// The side whose resting orders an incoming order of side `s` trades against.
pub open spec fn opposite(s: Side) -> Side {
    match s {
        Side::Buy => Side::Sell,
        Side::Sell => Side::Buy,
    }
}

/// One order. The price is in integer ticks; the id is an opaque token
/// (a UUID's 128 bits); the timestamp is in milliseconds.
#[derive(Clone, Copy, Debug, PartialEq, Eq, Structural)]
pub struct Order {
    pub id: u128,
    pub side: Side,
    pub price: u64,
    pub qty: u32,
    pub timestamp: i64,
}

/// One execution: the price of the resting level, the quantity traded and
/// the id of the incoming (aggressor) order.
#[derive(Clone, Copy, Debug, PartialEq, Eq, Structural)]
pub struct Trade {
    pub price: u64,
    pub qty: u32,
    pub aggressor: u128,
}

} // verus!
