//! Orders, fills and the other values that the matching engine exchanges.
use vstd::prelude::*;
use crate::decimal::{Dec, aligned_difference, decimal_sub, decimal_mul, dec_sub, dec_mul, dec_is_nonpositive, max_value, pow10, MAX_MANTISSA, MAX_SCALE};

verus! {

/// A 128-bit value laid out as a version-4 (random) UUID: the version field
/// (bits 76 to 79) holds 4 and the variant (bits 62 and 63) is `10`.
pub open spec fn is_v4_uuid(x: u128) -> bool {
    &&& (x >> 76u128) & 0xfu128 == 4u128
    &&& (x >> 62u128) & 0x3u128 == 2u128
}

/// `Uuid::new_v4().as_u128()`: a fresh random identifier. `new_v4` masks
/// random bits and sets the version to 4 and the variant to RFC 4122; the
/// random bits are left unsaid.
#[verifier::external_body]
pub(crate) fn new_uuid() -> (r: u128)
    ensures
        is_v4_uuid(r),
{
    uuid::Uuid::new_v4().as_u128()
}

/// Which side of the book an order sits on.
#[derive(Debug, Clone, Copy, PartialEq, Eq, Structural)]
pub enum Side {
    /// Buy side.
    Bid,
    /// Sell side.
    Ask,
}

impl Side {
    /// The side's name in lower case, as the wire format writes it.
    pub fn to_string(&self) -> (r: String)
        ensures
            *self == Side::Bid ==> r@ == "bid"@,
            *self == Side::Ask ==> r@ == "ask"@,
    {
        match self {
            Side::Bid => String::from_str("bid"),
            Side::Ask => String::from_str("ask"),
        }
    }

    /// The side an incoming order of this side trades against.
    pub open spec fn opposite(self) -> Side {
        match self {
            Side::Bid => Side::Ask,
            Side::Ask => Side::Bid,
        }
    }
}

/// Unique order identifier: the 128 bits of a UUID.
#[derive(Debug, Clone, Copy, PartialEq, Eq, Hash, Structural)]
pub struct OrderId(pub u128);

impl OrderId {
    /// A fresh random (version 4) identifier.
    pub fn new() -> (r: OrderId)
        ensures
            is_v4_uuid(r.0),
    {
        OrderId(new_uuid())
    }
}

impl Default for OrderId {
    /// A fresh random identifier, as `OrderId::new`.
    fn default() -> (r: OrderId)
        ensures
            is_v4_uuid(r.0),
    {
        OrderId::new()
    }
}

/// A trading pair, e.g. SOL/USDT.
#[derive(Debug)]
pub struct TradingPair {
    pub base: String,
    pub quote: String,
}

impl TradingPair {
    pub fn new(base: &str, quote: &str) -> (r: TradingPair)
        ensures
            r.base@ == base@,
            r.quote@ == quote@,
    {
        TradingPair { base: base.to_owned(), quote: quote.to_owned() }
    }

    /// A copy of the pair.
    pub fn duplicate(&self) -> (r: TradingPair)
        ensures
            r == *self,
    {
        TradingPair { base: self.base.clone(), quote: self.quote.clone() }
    }

    /// `base/quote`, as the pair is displayed.
    pub fn to_string(&self) -> (r: String)
        ensures
            r@ == self.base@ + "/"@ + self.quote@,
    {
        let mut s = self.base.clone();
        s.append("/");
        s.append(self.quote.as_str());
        s
    }
}

/// Order type: limit orders only for now; market orders come later.
#[derive(Debug, Clone, Copy, PartialEq, Eq, Structural)]
pub enum OrderType {
    Limit,
    Market,
}

/// Current lifecycle state of an order.
#[derive(Debug, Clone, Copy, PartialEq, Eq, Structural)]
pub enum OrderStatus {
    Open,
    PartiallyFilled,
    Filled,
    Cancelled,
}

/// The core order type submitted to the engine.
#[derive(Debug)]
pub struct Order {
    pub id: OrderId,
    pub pair: TradingPair,
    pub side: Side,
    pub order_type: OrderType,
    /// Limit price. None for market orders.
    pub price: Option<Dec>,
    /// Original quantity submitted.
    pub quantity: Dec,
    /// Remaining unfilled quantity.
    pub quantity_remaining: Dec,
    pub status: OrderStatus,
    /// Unix timestamp in nanoseconds, used for time priority.
    pub timestamp_ns: u64,
    /// The trader's on-chain address.
    pub trader: String,
}

/// The zero decimal that a filled order's remaining quantity is set to.
pub open spec fn dec_zero() -> Dec {
    Dec { mantissa: 0, scale: 0 }
}

/// An order is still live when it is open or partially filled.
pub open spec fn status_active(s: OrderStatus) -> bool {
    s == OrderStatus::Open || s == OrderStatus::PartiallyFilled
}

/// The order after `qty` of it has been filled.
pub open spec fn order_after_fill(o: Order, qty: Dec) -> Order {
    let r = decimal_sub(o.quantity_remaining, qty);
    if r.value() <= 0 {
        Order { quantity_remaining: dec_zero(), status: OrderStatus::Filled, ..o }
    } else {
        Order { quantity_remaining: r, status: OrderStatus::PartiallyFilled, ..o }
    }
}

impl Order {
    /// The decimals of the order are in range.
    pub open spec fn decimals_wf(self) -> bool {
        &&& self.quantity.wf()
        &&& self.quantity_remaining.wf()
        &&& (self.price matches Some(p) ==> p.wf())
    }

    /// True if the order still has quantity to be filled and isn't cancelled.
    pub fn is_active(&self) -> (r: bool)
        ensures
            r == status_active(self.status),
    {
        self.status == OrderStatus::Open || self.status == OrderStatus::PartiallyFilled
    }

    /// Updates the order state after a fill.
    pub fn fill(&mut self, qty: Dec)
        requires
            old(self).quantity_remaining.wf(),
            qty.wf(),
            -max_value() <= old(self).quantity_remaining.value() - qty.value() <= max_value(),
        ensures
            *final(self) == order_after_fill(*old(self), qty),
            final(self).quantity_remaining.wf(),
            final(self).quantity_remaining.value() >= 0,
            decimal_sub(old(self).quantity_remaining, qty).wf(),
            -MAX_MANTISSA <= aligned_difference(old(self).quantity_remaining, qty) <= MAX_MANTISSA
                ==> decimal_sub(old(self).quantity_remaining, qty).value() == old(
                self,
            ).quantity_remaining.value() - qty.value(),
    {
        self.quantity_remaining = dec_sub(self.quantity_remaining, qty);
        if dec_is_nonpositive(self.quantity_remaining) {
            self.status = OrderStatus::Filled;
            self.quantity_remaining = Dec::zero();
        } else {
            self.status = OrderStatus::PartiallyFilled;
        }
    }
}

/// A single matched fill, produced when two orders cross.
#[derive(Debug)]
pub struct Fill {
    pub id: u128,
    /// The passive (resting) order that was sitting in the book.
    pub maker_order_id: OrderId,
    /// The aggressive (incoming) order that triggered the match.
    pub taker_order_id: OrderId,
    pub pair: TradingPair,
    /// Price at which the fill executed (the maker's price).
    pub price: Dec,
    /// Quantity that was exchanged.
    pub quantity: Dec,
    /// Which side the taker was on.
    pub taker_side: Side,
    pub timestamp_ns: u64,
}

impl Fill {
    /// A fill with a fresh random identifier.
    pub fn new(
        maker_order_id: OrderId,
        taker_order_id: OrderId,
        pair: TradingPair,
        price: Dec,
        quantity: Dec,
        taker_side: Side,
        timestamp_ns: u64,
    ) -> (r: Fill)
        ensures
            is_v4_uuid(r.id),
            r.maker_order_id == maker_order_id,
            r.taker_order_id == taker_order_id,
            r.pair == pair,
            r.price == price,
            r.quantity == quantity,
            r.taker_side == taker_side,
            r.timestamp_ns == timestamp_ns,
    {
        Fill {
            id: new_uuid(),
            maker_order_id,
            taker_order_id,
            pair,
            price,
            quantity,
            taker_side,
            timestamp_ns,
        }
    }

    /// Notional value of this fill (price * quantity).
    pub fn notional(&self) -> (r: Dec)
        requires
            self.price.wf(),
            self.quantity.wf(),
            -MAX_MANTISSA * pow10((self.price.scale + self.quantity.scale) as nat)
                <= self.price.mantissa * self.quantity.mantissa <= MAX_MANTISSA * pow10(
                (self.price.scale + self.quantity.scale) as nat,
            ),
        ensures
            r == decimal_mul(self.price, self.quantity),
            self.price.mantissa * self.quantity.mantissa == 0 ==> r.mantissa == 0 && r.scale == 0,
            self.price.mantissa * self.quantity.mantissa != 0 && self.price.scale
                + self.quantity.scale <= MAX_SCALE && -MAX_MANTISSA <= self.price.mantissa
                * self.quantity.mantissa <= MAX_MANTISSA ==> r.mantissa == self.price.mantissa
                * self.quantity.mantissa && r.scale == self.price.scale + self.quantity.scale,
    {
        dec_mul(self.price, self.quantity)
    }
}

/// Result returned by the engine after processing an order.
pub struct MatchResult {
    pub order_id: OrderId,
    pub fills: Vec<Fill>,
    pub status: OrderStatus,
}

/// A single price level's aggregated data for market depth.
#[derive(Debug, Clone, Copy)]
pub struct LevelSnapshot {
    pub price: Dec,
    pub quantity: Dec,
}

/// A snapshot of the order book's liquidity at a point in time.
pub struct OrderBookSnapshot {
    pub bids: Vec<LevelSnapshot>,
    pub asks: Vec<LevelSnapshot>,
    pub timestamp_ns: u64,
}


/// After a fill an order is either filled, with nothing remaining, or
/// partially filled, with a positive remainder; its other fields stay.
pub proof fn lemma_fill_status(o: Order, qty: Dec)
    ensures
        ({
            let o2 = order_after_fill(o, qty);
            &&& (o2.status == OrderStatus::Filled) == (o2.quantity_remaining.value() == 0)
            &&& o2.status == OrderStatus::Filled || o2.status == OrderStatus::PartiallyFilled
            &&& o2.quantity_remaining.value() >= 0
            &&& o2.id == o.id && o2.side == o.side && o2.price == o.price && o2.quantity == o.quantity
        }),
{
    crate::decimal::lemma_value_sign(dec_zero());
}

} // verus!
