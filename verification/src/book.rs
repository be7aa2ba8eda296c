//! The order book of one instrument.

use crate::depth::{
    has_level, has_order_at, is_depth_of, levels_fit, levels_total, side_levels, Level,
};
use crate::matching::{
    filled, lemma_conservation, lemma_makers_after_resting, lemma_open_means_unmarketable,
    lemma_survivor_at, lemma_trade_at, makers_after, makers_gone, match_against, open_after,
    trades_of,
};
use crate::order::{marketable, opposite, Order, Side, Trade};
use crate::queue::{
    lemma_rest_position, lemma_rested_resting, rest_order, rest_position, rested, resting,
    total_qty, with_qty,
};
use vstd::prelude::*;

verus! {

/// No bid is priced at or above an ask.
pub open spec fn uncrossed(bids: Seq<Order>, asks: Seq<Order>) -> bool {
    forall|i: int, j: int|
        0 <= i < bids.len() && 0 <= j < asks.len() ==> (#[trigger] bids[i]).price < (
        #[trigger] asks[j]).price
}

/// No order of `own` can trade with an order of `makers`.
pub open spec fn clear_of(own: Seq<Order>, makers: Seq<Order>) -> bool {
    forall|i: int, j: int|
        0 <= i < own.len() && 0 <= j < makers.len() ==> !marketable(
            #[trigger] own[i],
            #[trigger] makers[j],
        )
}

/// The taker's own side once the taker has been submitted: with what is left
/// of the taker resting on it, if anything is left.
pub open spec fn own_after(own: Seq<Order>, makers: Seq<Order>, taker: Order) -> Seq<Order> {
    if open_after(makers, taker) > 0 {
        rested(taker.side, own, with_qty(taker, open_after(makers, taker)))
    } else {
        own
    }
}

/// For resting sides, not to be crossed is that neither side can trade with
/// the other.
pub proof fn lemma_uncrossed_is_clear(bids: Seq<Order>, asks: Seq<Order>)
    requires
        resting(Side::Buy, bids),
        resting(Side::Sell, asks),
    ensures
        uncrossed(bids, asks) <==> clear_of(bids, asks),
        uncrossed(bids, asks) <==> clear_of(asks, bids),
{
    if uncrossed(bids, asks) {
        assert forall|i: int, j: int|
            0 <= i < bids.len() && 0 <= j < asks.len() implies !marketable(
            #[trigger] bids[i],
            #[trigger] asks[j],
        ) by {}
        assert forall|j: int, i: int|
            0 <= j < asks.len() && 0 <= i < bids.len() implies !marketable(
            #[trigger] asks[j],
            #[trigger] bids[i],
        ) by {}
    }
    if clear_of(bids, asks) {
        assert forall|i: int, j: int|
            0 <= i < bids.len() && 0 <= j < asks.len() implies (#[trigger] bids[i]).price < (
        #[trigger] asks[j]).price by {
            assert(!marketable(bids[i], asks[j]));
        }
    }
    if clear_of(asks, bids) {
        assert forall|i: int, j: int|
            0 <= i < bids.len() && 0 <= j < asks.len() implies (#[trigger] bids[i]).price < (
        #[trigger] asks[j]).price by {
            assert(!marketable(asks[j], bids[i]));
        }
    }
}

/// Matching leaves the two sides unable to trade with each other.
pub proof fn lemma_match_keeps_clear(own: Seq<Order>, makers: Seq<Order>, taker: Order)
    requires
        resting(taker.side, own),
        resting(opposite(taker.side), makers),
        clear_of(own, makers),
    ensures
        clear_of(own, makers_after(makers, taker)),
{
    let left = makers_after(makers, taker);
    assert forall|i: int, j: int| 0 <= i < own.len() && 0 <= j < left.len() implies !marketable(
        #[trigger] own[i],
        #[trigger] left[j],
    ) by {
        lemma_survivor_at(opposite(taker.side), makers, taker, j);
        assert(!marketable(own[i], makers[makers_gone(makers, taker) + j]));
    }
}

/// A submission leaves both sides resting sides that cannot trade with each
/// other: the book is never crossed at rest.
pub proof fn lemma_submit_keeps_clear(own: Seq<Order>, makers: Seq<Order>, taker: Order)
    requires
        resting(taker.side, own),
        resting(opposite(taker.side), makers),
        clear_of(own, makers),
    ensures
        resting(taker.side, own_after(own, makers, taker)),
        resting(opposite(taker.side), makers_after(makers, taker)),
        clear_of(own_after(own, makers, taker), makers_after(makers, taker)),
{
    let left = makers_after(makers, taker);
    let open = open_after(makers, taker);
    lemma_makers_after_resting(opposite(taker.side), makers, taker);
    lemma_match_keeps_clear(own, makers, taker);
    lemma_conservation(opposite(taker.side), makers, taker);
    if open > 0 {
        let rest = with_qty(taker, open);
        let at = rest_position(taker.side, own, rest);
        let now = own_after(own, makers, taker);
        lemma_rested_resting(taker.side, own, rest);
        lemma_rest_position(taker.side, own, rest);
        assert forall|i: int, j: int| 0 <= i < now.len() && 0 <= j < left.len() implies !marketable(
            #[trigger] now[i],
            #[trigger] left[j],
        ) by {
            if i < at {
                assert(now[i] == own[i]);
            } else if i > at {
                assert(now[i] == own[i - 1]);
            } else {
                lemma_open_means_unmarketable(makers, taker, j);
            }
        }
    }
}

/// Where matching takes every maker at a price, the depth of what is left
/// has no level at that price.
pub proof fn lemma_consumed_price_leaves_depth(
    side: Side,
    makers: Seq<Order>,
    taker: Order,
    price: int,
    levels: Seq<Level>,
)
    requires
        resting(side, makers),
        forall|k: int|
            0 <= k < makers.len() && (#[trigger] makers[k]).price == price ==> k < makers_gone(
                makers,
                taker,
            ),
        is_depth_of(side, levels, makers_after(makers, taker)),
    ensures
        !has_level(levels, price),
{
    let left = makers_after(makers, taker);
    if has_level(levels, price) {
        let i = choose|i: int| 0 <= i < levels.len() && (#[trigger] levels[i]).0 == price;
        assert(has_order_at(left, levels[i].0 as int));
        let k = choose|k: int| 0 <= k < left.len() && (#[trigger] left[k]).price == price;
        lemma_survivor_at(side, makers, taker, k);
        assert(makers[makers_gone(makers, taker) + k].price == price);
    }
}

/// The resting orders of one instrument: the bids and the asks, each in the
/// sequence in which they will be matched.
#[derive(Debug)]
pub struct Book {
    bids: Vec<Order>,
    asks: Vec<Order>,
}

impl Book {
    /// The resting buy orders, best first.
    pub closed spec fn bids(&self) -> Seq<Order> {
        self.bids@
    }

    /// The resting sell orders, best first.
    pub closed spec fn asks(&self) -> Seq<Order> {
        self.asks@
    }

    /// The resting orders of one side, best first.
    pub open spec fn side(&self, side: Side) -> Seq<Order> {
        match side {
            Side::Buy => self.bids(),
            Side::Sell => self.asks(),
        }
    }

    /// What holds of every book at rest: both sides are resting sides, and
    /// the book is not crossed.
    pub open spec fn wf(&self) -> bool {
        &&& resting(Side::Buy, self.bids())
        &&& resting(Side::Sell, self.asks())
        &&& uncrossed(self.bids(), self.asks())
    }

    #[verifier::type_invariant]
    spec fn inv(&self) -> bool {
        self.wf()
    }

    /// A book with no resting orders.
    pub fn new() -> (book: Self)
        ensures
            book.bids() == Seq::<Order>::empty(),
            book.asks() == Seq::<Order>::empty(),
            book.wf(),
    {
        Book { bids: Vec::new(), asks: Vec::new() }
    }

    /// Matches `o` against the other side under price-time priority and
    /// rests what is left of it on its own side. Returns the trades in the
    /// order in which they were made.
    pub fn submit(&mut self, o: Order) -> (trades: Vec<Trade>)
        ensures
            trades@ == trades_of(old(self).side(opposite(o.side)), o),
            final(self).side(opposite(o.side)) == makers_after(
                old(self).side(opposite(o.side)),
                o,
            ),
            final(self).side(o.side) == own_after(
                old(self).side(o.side),
                old(self).side(opposite(o.side)),
                o,
            ),
            final(self).wf(),
            forall|i: int| 0 <= i < trades@.len() ==> (#[trigger] trades@[i]).2 > 0,
            filled(trades@) == o.qty - open_after(old(self).side(opposite(o.side)), o),
            o.qty >= 0 ==> 0 <= filled(trades@) <= o.qty,
    {
        proof {
            use_type_invariant(&*self);
        }
        let mut bids: Vec<Order> = Vec::new();
        let mut asks: Vec<Order> = Vec::new();
        core::mem::swap(&mut bids, &mut self.bids);
        core::mem::swap(&mut asks, &mut self.asks);
        let ghost own = if o.side == Side::Buy { bids@ } else { asks@ };
        let ghost makers = if o.side == Side::Buy { asks@ } else { bids@ };
        proof {
            lemma_uncrossed_is_clear(bids@, asks@);
            lemma_submit_keeps_clear(own, makers, o);
            lemma_conservation(opposite(o.side), makers, o);
            assert forall|i: int| 0 <= i < trades_of(makers, o).len() implies (
            #[trigger] trades_of(makers, o)[i]).2 > 0 by {
                lemma_trade_at(opposite(o.side), makers, o, i);
            }
        }
        let (trades, open) = match o.side {
            Side::Buy => match_against(&mut asks, o),
            Side::Sell => match_against(&mut bids, o),
        };
        if open > 0 {
            let rest = Order { id: o.id, side: o.side, price: o.price, qty: open, ts: o.ts };
            match o.side {
                Side::Buy => rest_order(Side::Buy, &mut bids, rest),
                Side::Sell => rest_order(Side::Sell, &mut asks, rest),
            }
        }
        proof {
            lemma_uncrossed_is_clear(bids@, asks@);
        }
        self.bids = bids;
        self.asks = asks;
        trades
    }

    /// Every level of the book's depth fits the integer that reports it.
    pub open spec fn depth_fits(&self) -> bool {
        levels_fit(self.bids()) && levels_fit(self.asks())
    }

    /// The open quantity per price: the bid levels from the highest price
    /// down, then the ask levels from the lowest price up. `None` where the
    /// quantity at some price is more than a level can hold.
    pub fn checked_depth(&self) -> (depth: Option<(Vec<Level>, Vec<Level>)>)
        ensures
            depth is Some <==> self.depth_fits(),
            depth matches Some(d) ==> {
                &&& is_depth_of(Side::Buy, d.0@, self.bids())
                &&& is_depth_of(Side::Sell, d.1@, self.asks())
                &&& levels_total(d.0@) == total_qty(self.bids())
                &&& levels_total(d.1@) == total_qty(self.asks())
            },
    {
        proof {
            use_type_invariant(self);
        }
        match side_levels(Side::Buy, &self.bids) {
            None => None,
            Some(bids) => match side_levels(Side::Sell, &self.asks) {
                None => None,
                Some(asks) => Some((bids, asks)),
            },
        }
    }

    /// The open quantity per price: the bid levels from the highest price
    /// down, then the ask levels from the lowest price up. Each price at
    /// which an order rests has one level, which holds the sum of the open
    /// quantities at that price.
    pub fn depth(&self) -> (d: (Vec<Level>, Vec<Level>))
        requires
            self.depth_fits(),
        ensures
            is_depth_of(Side::Buy, d.0@, self.bids()),
            is_depth_of(Side::Sell, d.1@, self.asks()),
            levels_total(d.0@) == total_qty(self.bids()),
            levels_total(d.1@) == total_qty(self.asks()),
    {
        proof {
            use_type_invariant(self);
        }
        let bids = side_levels(Side::Buy, &self.bids).unwrap();
        let asks = side_levels(Side::Sell, &self.asks).unwrap();
        (bids, asks)
    }
}

impl Default for Book {
    fn default() -> (book: Self)
        ensures
            book.bids() == Seq::<Order>::empty(),
            book.asks() == Seq::<Order>::empty(),
            book.wf(),
    {
        Book::new()
    }
}

} // verus!
