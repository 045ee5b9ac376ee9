//! A one-sided limit order book: resting sell orders kept in price-time
//! priority, and a matching engine that sweeps them with incoming buy orders.

pub mod order;
pub mod queue;
pub mod book;
pub mod engine;
pub mod laws;
pub mod parse;
