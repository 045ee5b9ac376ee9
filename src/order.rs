use vstd::prelude::*;

verus! {

/// The side of an order.
#[derive(Clone, Copy, Debug, PartialEq, Eq, Structural)]
pub enum OrderType {
    Buy,
    Sell,
}

/// An incoming order: immutable once built.
#[derive(Clone, Copy, Debug, PartialEq, Eq, Structural)]
pub struct Order {
    pub id: usize,
    pub order_type: OrderType,
    pub price: u32,
    pub quantity: u32,
}

/// An execution between an incoming buy and a resting sell.
#[derive(Clone, Copy, Debug, PartialEq, Eq, Structural)]
pub struct Trade {
    pub buy_id: usize,
    pub sell_id: usize,
    /// The resting sell's price.
    pub price: u32,
    pub quantity_traded: u32,
}

/// A sell order waiting in the book; `arrival` numbers the orders in the
/// order they came in and breaks ties between equal prices.
#[derive(Clone, Copy, Debug, PartialEq, Eq, Structural)]
pub struct RestingOrder {
    pub id: usize,
    pub price: u32,
    pub quantity: u32,
    pub arrival: u64,
}

impl RestingOrder {
    /// Priority key: lower price first, then earlier arrival.
    pub open spec fn key(self) -> (u32, u64) {
        (self.price, self.arrival)
    }
}

/// `a` comes strictly before `b` in lexicographic tuple order.
pub open spec fn key_lt(a: (u32, u64), b: (u32, u64)) -> bool {
    a.0 < b.0 || (a.0 == b.0 && a.1 < b.1)
}

/// `a` comes before `b` or equals it in lexicographic tuple order.
pub open spec fn key_le(a: (u32, u64), b: (u32, u64)) -> bool {
    key_lt(a, b) || a == b
}

} // verus!
