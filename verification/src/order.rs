//! Orders and the two relations that matching is built on: when a taker may
//! trade with a maker, and when one resting order goes before another.

use vstd::prelude::*;

verus! {

/// The side of the book an order belongs to.
#[derive(Debug, Clone, Copy, PartialEq, Eq, Structural)]
pub enum Side {
    Buy,
    Sell,
}

/// A limit order. `price` is in integer ticks, `qty` is the quantity that is
/// still open, and `ts` orders arrivals at one price.
#[derive(Debug, Clone, Copy, PartialEq, Eq, Structural)]
pub struct Order {
    pub id: u64,
    pub side: Side,
    pub price: i64,
    pub qty: i64,
    pub ts: u64,
}

/// A trade: the taker's id, the maker's id and the quantity filled.
pub type Trade = (u64, u64, i64);

/// The side that orders of `side` trade against.
pub open spec fn opposite(side: Side) -> Side {
    match side {
        Side::Buy => Side::Sell,
        Side::Sell => Side::Buy,
    }
}

/// A taker may trade with a maker of the other side when the taker's limit
/// reaches the maker's price: a buyer pays at least the ask, a seller accepts
/// at most the bid.
pub open spec fn marketable(taker: Order, maker: Order) -> bool {
    match taker.side {
        Side::Buy => taker.price >= maker.price,
        Side::Sell => taker.price <= maker.price,
    }
}

/// Among orders resting on `side`, `a` goes strictly before `b`: it has the
/// better price (higher for bids, lower for asks) or, at the same price, the
/// earlier timestamp.
pub open spec fn outranks(side: Side, a: Order, b: Order) -> bool {
    match side {
        Side::Buy => a.price > b.price || (a.price == b.price && a.ts < b.ts),
        Side::Sell => a.price < b.price || (a.price == b.price && a.ts < b.ts),
    }
}

/// `price` is strictly better than `other` for an order resting on `side`.
pub open spec fn better_price(side: Side, price: int, other: int) -> bool {
    match side {
        Side::Buy => price > other,
        Side::Sell => price < other,
    }
}

/// Executable form of [`marketable`].
pub fn is_marketable(taker: &Order, maker: &Order) -> (b: bool)
    ensures
        b == marketable(*taker, *maker),
{
    match taker.side {
        Side::Buy => taker.price >= maker.price,
        Side::Sell => taker.price <= maker.price,
    }
}

/// Executable form of [`outranks`].
pub fn goes_before(side: Side, a: &Order, b: &Order) -> (r: bool)
    ensures
        r == outranks(side, *a, *b),
{
    match side {
        Side::Buy => a.price > b.price || (a.price == b.price && a.ts < b.ts),
        Side::Sell => a.price < b.price || (a.price == b.price && a.ts < b.ts),
    }
}

} // verus!
