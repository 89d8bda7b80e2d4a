//! Errors of the matching engine.
use vstd::prelude::*;
use crate::types::OrderId;

verus! {

#[derive(Debug)]
pub enum EngineError {
    /// No live order has this id.
    OrderNotFound(OrderId),
    /// The order is not active (its status follows).
    OrderNotActive(OrderId, String),
    /// The order cannot be processed (for instance, its pair is unknown).
    InvalidOrder(String),
    /// A limit order without a price.
    MissingPrice,
    /// The quantity is not positive; the text of the quantity follows.
    InvalidQuantity(String),
    /// The price is not positive; the text of the price follows.
    InvalidPrice(String),
    /// The order names another trading pair.
    PairMismatch { expected: String, got: String },
}

} // verus!
