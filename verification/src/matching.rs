//! Matching a taker against the makers of the other side.
//!
//! The makers are given best first. The taker walks them from the front for as
//! long as it has quantity open and the front maker is marketable; each step
//! fills the smaller of the two quantities. A maker that is filled completely
//! leaves; one that is filled in part stays at the front with what is left.

use crate::order::{is_marketable, marketable, opposite, outranks, Order, Side, Trade};
use crate::queue::{lemma_resting_tail, resting, total_qty, with_qty};
use vstd::prelude::*;

verus! {

/// The taker trades with the front maker: there is one, the taker has quantity
/// open, and the maker's price is within the taker's limit.
pub open spec fn can_fill(makers: Seq<Order>, taker: Order) -> bool {
    makers.len() > 0 && taker.qty > 0 && marketable(taker, makers[0])
}

/// The trades that the taker makes, in the order in which they happen.
pub open spec fn trades_of(makers: Seq<Order>, taker: Order) -> Seq<Trade>
    decreases makers.len(),
{
    if !can_fill(makers, taker) {
        Seq::empty()
    } else if taker.qty < makers[0].qty {
        seq![(taker.id, makers[0].id, taker.qty)]
    } else {
        seq![(taker.id, makers[0].id, makers[0].qty)] + trades_of(
            makers.drop_first(),
            with_qty(taker, taker.qty - makers[0].qty),
        )
    }
}

/// The makers that are left once the taker has matched.
pub open spec fn makers_after(makers: Seq<Order>, taker: Order) -> Seq<Order>
    decreases makers.len(),
{
    if !can_fill(makers, taker) {
        makers
    } else if taker.qty < makers[0].qty {
        makers.update(0, with_qty(makers[0], makers[0].qty - taker.qty))
    } else {
        makers_after(makers.drop_first(), with_qty(taker, taker.qty - makers[0].qty))
    }
}

/// The quantity of the taker that is still open once it has matched.
pub open spec fn open_after(makers: Seq<Order>, taker: Order) -> int
    decreases makers.len(),
{
    if !can_fill(makers, taker) {
        taker.qty as int
    } else if taker.qty < makers[0].qty {
        0
    } else {
        open_after(makers.drop_first(), with_qty(taker, taker.qty - makers[0].qty))
    }
}

/// The sum of the quantities of a sequence of trades.
pub open spec fn filled(trades: Seq<Trade>) -> int
    decreases trades.len(),
{
    if trades.len() == 0 {
        0
    } else {
        trades[0].2 + filled(trades.drop_first())
    }
}

/// What matching leaves of the makers is a resting side again, and no longer
/// than before.
pub proof fn lemma_makers_after_resting(side: Side, makers: Seq<Order>, taker: Order)
    requires
        resting(side, makers),
    ensures
        resting(side, makers_after(makers, taker)),
        makers_after(makers, taker).len() <= makers.len(),
    decreases makers.len(),
{
    if !can_fill(makers, taker) {
    } else if taker.qty < makers[0].qty {
        let left = makers_after(makers, taker);
        assert forall|i: int, j: int| 0 <= i < j < left.len() implies !outranks(
            side,
            #[trigger] left[j],
            #[trigger] left[i],
        ) by {
            assert(!outranks(side, makers[j], makers[i]));
        }
    } else {
        lemma_resting_tail(side, makers);
        lemma_makers_after_resting(
            side,
            makers.drop_first(),
            with_qty(taker, taker.qty - makers[0].qty),
        );
    }
}

/// The number of makers that matching removes from the front.
pub open spec fn makers_gone(makers: Seq<Order>, taker: Order) -> int {
    makers.len() - makers_after(makers, taker).len()
}

/// Matching takes makers from the front only. Behind the order that is in
/// front afterwards the side is untouched, and that order is the old one at
/// its place, with no more quantity than it had.
pub proof fn lemma_makers_after_shape(side: Side, makers: Seq<Order>, taker: Order)
    requires
        resting(side, makers),
    ensures
        0 <= makers_gone(makers, taker) <= makers.len(),
        makers_after(makers, taker).len() > 0 ==> {
            &&& makers_after(makers, taker).skip(1) == makers.skip(makers_gone(makers, taker) + 1)
            &&& makers_after(makers, taker)[0] == with_qty(
                makers[makers_gone(makers, taker)],
                makers_after(makers, taker)[0].qty as int,
            )
            &&& 0 < makers_after(makers, taker)[0].qty <= makers[makers_gone(makers, taker)].qty
        },
    decreases makers.len(),
{
    let left = makers_after(makers, taker);
    if !can_fill(makers, taker) {
        assert(left.skip(1) =~= makers.skip(1));
    } else if taker.qty < makers[0].qty {
        assert(left.skip(1) =~= makers.skip(1));
    } else {
        let rest = makers.drop_first();
        let next = with_qty(taker, taker.qty - makers[0].qty);
        lemma_resting_tail(side, makers);
        lemma_makers_after_shape(side, rest, next);
        if left.len() > 0 {
            let gone = makers_gone(rest, next);
            assert(rest.skip(gone + 1) =~= makers.skip(gone + 2));
            assert(rest[gone] == makers[gone + 1]);
        }
    }
}

/// Quantity is conserved on both sides of a match: what the trades fill is
/// what the taker's open quantity went down by, and what the makers' summed
/// quantity went down by.
pub proof fn lemma_conservation(side: Side, makers: Seq<Order>, taker: Order)
    requires
        resting(side, makers),
    ensures
        filled(trades_of(makers, taker)) == taker.qty - open_after(makers, taker),
        filled(trades_of(makers, taker)) == total_qty(makers) - total_qty(
            makers_after(makers, taker),
        ),
        filled(trades_of(makers, taker)) >= 0,
        taker.qty >= 0 ==> 0 <= open_after(makers, taker) <= taker.qty,
        taker.qty < 0 ==> open_after(makers, taker) == taker.qty,
    decreases makers.len(),
{
    let trades = trades_of(makers, taker);
    let left = makers_after(makers, taker);
    if !can_fill(makers, taker) {
        assert(filled(trades) == 0);
    } else if taker.qty < makers[0].qty {
        assert(trades.drop_first() =~= Seq::<Trade>::empty());
        assert(filled(trades.drop_first()) == 0);
        assert(filled(trades) == taker.qty);
        assert(left.drop_first() =~= makers.drop_first());
        assert(total_qty(left) == left[0].qty + total_qty(left.drop_first()));
        assert(total_qty(makers) == makers[0].qty + total_qty(makers.drop_first()));
    } else {
        let rest = makers.drop_first();
        let next = with_qty(taker, taker.qty - makers[0].qty);
        lemma_resting_tail(side, makers);
        lemma_conservation(side, rest, next);
        assert(trades.drop_first() =~= trades_of(rest, next));
        assert(filled(trades) == makers[0].qty + filled(trades.drop_first()));
        assert(total_qty(makers) == makers[0].qty + total_qty(rest));
        assert(next.qty == taker.qty - makers[0].qty);
    }
}

/// The `i`-th trade is made with the `i`-th maker: it names the taker and
/// that maker, the maker's price is within the taker's limit, and it fills a
/// positive quantity, no more than the maker had. Every trade but the last
/// fills its maker completely.
pub proof fn lemma_trade_at(side: Side, makers: Seq<Order>, taker: Order, i: int)
    requires
        resting(side, makers),
        0 <= i < trades_of(makers, taker).len(),
    ensures
        i < makers.len(),
        trades_of(makers, taker)[i].0 == taker.id,
        trades_of(makers, taker)[i].1 == makers[i].id,
        0 < trades_of(makers, taker)[i].2 <= makers[i].qty,
        marketable(taker, makers[i]),
        i + 1 < trades_of(makers, taker).len() ==> trades_of(makers, taker)[i].2 == makers[i].qty,
    decreases makers.len(),
{
    if !can_fill(makers, taker) {
    } else if taker.qty < makers[0].qty {
    } else {
        let rest = makers.drop_first();
        let next = with_qty(taker, taker.qty - makers[0].qty);
        let trades = trades_of(makers, taker);
        assert(trades.drop_first() =~= trades_of(rest, next));
        if i > 0 {
            lemma_resting_tail(side, makers);
            lemma_trade_at(side, rest, next, i - 1);
            assert(trades[i] == trades.drop_first()[i - 1]);
            assert(rest[i - 1] == makers[i]);
        }
    }
}

/// The `k`-th order left after matching is the old order `k` places behind
/// the makers that are gone: the same order with no more quantity than it had
/// and, unless it is in front, with all of it.
pub proof fn lemma_survivor_at(side: Side, makers: Seq<Order>, taker: Order, k: int)
    requires
        resting(side, makers),
        0 <= k < makers_after(makers, taker).len(),
    ensures
        0 <= makers_gone(makers, taker) + k < makers.len(),
        makers_after(makers, taker)[k] == with_qty(
            makers[makers_gone(makers, taker) + k],
            makers_after(makers, taker)[k].qty as int,
        ),
        0 < makers_after(makers, taker)[k].qty <= makers[makers_gone(makers, taker) + k].qty,
        k > 0 ==> makers_after(makers, taker)[k] == makers[makers_gone(makers, taker) + k],
{
    lemma_makers_after_shape(side, makers, taker);
    if k > 0 {
        let left = makers_after(makers, taker);
        let gone = makers_gone(makers, taker);
        assert(left[k] == left.skip(1)[k - 1]);
        assert(makers[gone + k] == makers.skip(gone + 1)[k - 1]);
    }
}

/// A taker that has quantity open after matching has left no maker within
/// its limit.
pub proof fn lemma_open_means_unmarketable(makers: Seq<Order>, taker: Order, k: int)
    requires
        resting(opposite(taker.side), makers),
        open_after(makers, taker) > 0,
        0 <= k < makers_after(makers, taker).len(),
    ensures
        !marketable(taker, makers_after(makers, taker)[k]),
    decreases makers.len(),
{
    let side = opposite(taker.side);
    if !can_fill(makers, taker) {
        assert(!outranks(side, makers[k], makers[0]) || k == 0);
    } else if taker.qty < makers[0].qty {
    } else {
        lemma_resting_tail(side, makers);
        lemma_open_means_unmarketable(
            makers.drop_first(),
            with_qty(taker, taker.qty - makers[0].qty),
            k,
        );
    }
}

/// Price-time priority. If a maker was matched, then every maker that goes
/// before it (a better price, whatever the timestamps, or the same price and
/// an earlier timestamp) was matched in an earlier trade and filled
/// completely.
pub proof fn lemma_price_time_priority(makers: Seq<Order>, taker: Order, a: int, b: int)
    requires
        resting(opposite(taker.side), makers),
        0 <= a < makers.len(),
        0 <= b < makers.len(),
        outranks(opposite(taker.side), makers[a], makers[b]),
        b < trades_of(makers, taker).len(),
    ensures
        a < b < makers.len(),
        trades_of(makers, taker)[a].1 == makers[a].id,
        trades_of(makers, taker)[a].2 == makers[a].qty,
        trades_of(makers, taker)[b].1 == makers[b].id,
{
    let side = opposite(taker.side);
    lemma_trade_at(side, makers, taker, b);
    if a > b {
        assert(!outranks(side, makers[a], makers[b]));
    }
    lemma_trade_at(side, makers, taker, a);
}

/// A maker that a trade fills completely is among the makers that are gone:
/// every order left after matching stood behind it.
pub proof fn lemma_full_fill_removed(side: Side, makers: Seq<Order>, taker: Order, i: int)
    requires
        resting(side, makers),
        0 <= i < trades_of(makers, taker).len(),
        i < makers.len(),
        trades_of(makers, taker)[i].2 == makers[i].qty,
    ensures
        i < makers_gone(makers, taker) <= makers.len(),
    decreases makers.len(),
{
    lemma_trade_at(side, makers, taker, i);
    lemma_makers_after_resting(side, makers, taker);
    if !can_fill(makers, taker) {
    } else if taker.qty < makers[0].qty {
    } else {
        let rest = makers.drop_first();
        let next = with_qty(taker, taker.qty - makers[0].qty);
        let trades = trades_of(makers, taker);
        lemma_resting_tail(side, makers);
        lemma_makers_after_resting(side, rest, next);
        assert(trades.drop_first() =~= trades_of(rest, next));
        if i > 0 {
            assert(trades[i] == trades.drop_first()[i - 1]);
            assert(rest[i - 1] == makers[i]);
            lemma_full_fill_removed(side, rest, next, i - 1);
        }
    }
}

/// There is one trade for each maker that is gone and, where the last trade
/// filled its maker in part, one more: that maker is then in front of what
/// is left.
pub proof fn lemma_trades_count(side: Side, makers: Seq<Order>, taker: Order)
    requires
        resting(side, makers),
    ensures
        makers_gone(makers, taker) <= trades_of(makers, taker).len() <= makers_gone(makers, taker)
            + 1,
        trades_of(makers, taker).len() <= makers.len(),
        trades_of(makers, taker).len() == makers_gone(makers, taker) + 1 ==> {
            &&& makers_after(makers, taker).len() > 0
            &&& makers_after(makers, taker)[0].qty == makers[makers_gone(makers, taker)].qty
                - trades_of(makers, taker).last().2
            &&& makers_after(makers, taker)[0].qty < makers[makers_gone(makers, taker)].qty
        },
    decreases makers.len(),
{
    lemma_makers_after_resting(side, makers, taker);
    if !can_fill(makers, taker) {
    } else if taker.qty < makers[0].qty {
    } else {
        let rest = makers.drop_first();
        let next = with_qty(taker, taker.qty - makers[0].qty);
        let trades = trades_of(makers, taker);
        lemma_resting_tail(side, makers);
        lemma_trades_count(side, rest, next);
        lemma_makers_after_resting(side, rest, next);
        assert(trades.drop_first() =~= trades_of(rest, next));
        if trades.len() == makers_gone(makers, taker) + 1 {
            assert(trades.last() == trades_of(rest, next).last());
            assert(rest[makers_gone(rest, next)] == makers[makers_gone(makers, taker)]);
        }
    }
}

/// Matches `taker` against `makers`, which rest on the other side, best first.
/// Returns the trades and the taker's quantity that is still open, and leaves
/// in `makers` the orders that are still resting.
pub fn match_against(makers: &mut Vec<Order>, taker: Order) -> (out: (Vec<Trade>, i64))
    requires
        resting(opposite(taker.side), old(makers)@),
    ensures
        out.0@ == trades_of(old(makers)@, taker),
        out.1 == open_after(old(makers)@, taker),
        final(makers)@ == makers_after(old(makers)@, taker),
{
    let ghost start = makers@;
    let ghost side = opposite(taker.side);
    let mut trades: Vec<Trade> = Vec::new();
    let mut cur = taker;
    while makers.len() > 0 && cur.qty > 0 && is_marketable(&cur, &makers[0])
        invariant
            resting(side, makers@),
            cur == with_qty(taker, cur.qty as int),
            trades@ + trades_of(makers@, cur) == trades_of(start, taker),
            makers_after(makers@, cur) == makers_after(start, taker),
            open_after(makers@, cur) == open_after(start, taker),
        decreases makers@.len() + (if cur.qty > 0 { 1int } else { 0int }),
    {
        let maker = makers[0];
        let ghost before = makers@;
        let ghost was = cur;
        if cur.qty < maker.qty {
            trades.push((cur.id, maker.id, cur.qty));
            makers[0] = Order {
                id: maker.id,
                side: maker.side,
                price: maker.price,
                qty: maker.qty - cur.qty,
                ts: maker.ts,
            };
            cur.qty = 0;
            proof {
                assert(makers@ == makers_after(before, was));
                assert(!can_fill(makers@, cur));
                assert(trades@ =~= trades@.drop_last() + trades_of(before, was));
                lemma_makers_after_resting(side, before, was);
            }
        } else {
            trades.push((cur.id, maker.id, maker.qty));
            cur.qty = cur.qty - maker.qty;
            makers.remove(0);
            proof {
                assert(makers@ =~= before.drop_first());
                assert(cur == with_qty(was, was.qty - before[0].qty));
                assert(trades@ + trades_of(makers@, cur) =~= trades@.drop_last() + trades_of(
                    before,
                    was,
                ));
                lemma_resting_tail(side, before);
            }
        }
    }
    proof {
        assert(trades@ + Seq::<Trade>::empty() =~= trades@);
    }
    (trades, cur.qty)
}

} // verus!
