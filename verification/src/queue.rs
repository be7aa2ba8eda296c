//! One side of the book as a queue: its orders in the sequence in which they
//! will be matched, best price first and, at one price, earliest first.

use crate::order::{goes_before, outranks, Order, Side};
use vstd::prelude::*;

verus! {

/// `o` with its open quantity replaced.
pub open spec fn with_qty(o: Order, qty: int) -> Order {
    Order { id: o.id, side: o.side, price: o.price, qty: qty as i64, ts: o.ts }
}

/// A side of the book as it rests: every order is of that side and has
/// quantity open, and no order goes before one that stands ahead of it.
pub open spec fn resting(side: Side, s: Seq<Order>) -> bool {
    &&& forall|i: int| 0 <= i < s.len() ==> (#[trigger] s[i]).side == side && s[i].qty > 0
    &&& forall|i: int, j: int| 0 <= i < j < s.len() ==> !outranks(side, #[trigger] s[j], #[trigger] s[i])
}

/// The sum of the open quantities of a sequence of orders.
pub open spec fn total_qty(orders: Seq<Order>) -> int
    decreases orders.len(),
{
    if orders.len() == 0 {
        0
    } else {
        orders[0].qty + total_qty(orders.drop_first())
    }
}

/// A resting side without its front order is a resting side.
pub proof fn lemma_resting_tail(side: Side, s: Seq<Order>)
    requires
        resting(side, s),
        s.len() > 0,
    ensures
        resting(side, s.drop_first()),
{
    let t = s.drop_first();
    assert forall|i: int| 0 <= i < t.len() implies (#[trigger] t[i]).side == side && t[i].qty > 0 by {
        assert(t[i] == s[i + 1]);
    }
    assert forall|i: int, j: int| 0 <= i < j < t.len() implies !outranks(
        side,
        #[trigger] t[j],
        #[trigger] t[i],
    ) by {
        assert(t[i] == s[i + 1]);
        assert(t[j] == s[j + 1]);
    }
}

/// The place at which `o` comes to rest in `s`: behind every order that it
/// does not go before, that is, in front of the first order that it outranks.
pub open spec fn rest_position(side: Side, s: Seq<Order>, o: Order) -> int
    decreases s.len(),
{
    if s.len() == 0 || outranks(side, o, s[0]) {
        0
    } else {
        1 + rest_position(side, s.drop_first(), o)
    }
}

/// The side `s` with `o` resting on it.
pub open spec fn rested(side: Side, s: Seq<Order>, o: Order) -> Seq<Order> {
    s.insert(rest_position(side, s, o), o)
}

/// The place of rest lies within the side, no order in front of it is
/// outranked by `o`, and the order at it, if there is one, is.
pub proof fn lemma_rest_position(side: Side, s: Seq<Order>, o: Order)
    ensures
        0 <= rest_position(side, s, o) <= s.len(),
        forall|i: int| 0 <= i < rest_position(side, s, o) ==> !outranks(side, o, #[trigger] s[i]),
        rest_position(side, s, o) < s.len() ==> outranks(side, o, s[rest_position(side, s, o)]),
    decreases s.len(),
{
    if s.len() == 0 || outranks(side, o, s[0]) {
    } else {
        let t = s.drop_first();
        lemma_rest_position(side, t, o);
        assert forall|i: int| 0 <= i < rest_position(side, s, o) implies !outranks(
            side,
            o,
            #[trigger] s[i],
        ) by {
            if i > 0 {
                assert(s[i] == t[i - 1]);
            }
        }
        if rest_position(side, t, o) < t.len() {
            assert(t[rest_position(side, t, o)] == s[rest_position(side, t, o) + 1]);
        }
    }
}

/// An order of the side with quantity open rests in order: the side stays a
/// resting side.
pub proof fn lemma_rested_resting(side: Side, s: Seq<Order>, o: Order)
    requires
        resting(side, s),
        o.side == side,
        o.qty > 0,
    ensures
        resting(side, rested(side, s, o)),
{
    let k = rest_position(side, s, o);
    let r = rested(side, s, o);
    lemma_rest_position(side, s, o);
    assert forall|i: int| 0 <= i < r.len() implies (#[trigger] r[i]).side == side && r[i].qty > 0 by {
        if i < k {
            assert(r[i] == s[i]);
        } else if i > k {
            assert(r[i] == s[i - 1]);
        }
    }
    assert forall|i: int, j: int| 0 <= i < j < r.len() implies !outranks(
        side,
        #[trigger] r[j],
        #[trigger] r[i],
    ) by {
        if j < k {
            assert(r[i] == s[i] && r[j] == s[j]);
        } else if j == k {
            assert(r[i] == s[i]);
        } else if i == k {
            assert(r[j] == s[j - 1]);
            if k < j - 1 {
                assert(!outranks(side, s[j - 1], s[k]));
            }
            assert(outranks(side, o, s[k]));
        } else if i < k {
            assert(r[i] == s[i] && r[j] == s[j - 1]);
        } else {
            assert(r[i] == s[i - 1] && r[j] == s[j - 1]);
        }
    }
}

/// Rests `o` on `queue` at its place in priority order.
pub fn rest_order(side: Side, queue: &mut Vec<Order>, o: Order)
    ensures
        final(queue)@ == rested(side, old(queue)@, o),
{
    let ghost s = queue@;
    let mut k: usize = 0;
    proof {
        assert(s.skip(0) =~= s);
    }
    while k < queue.len() && !goes_before(side, &o, &queue[k])
        invariant
            queue@ == s,
            0 <= k <= s.len(),
            rest_position(side, s, o) == k + rest_position(side, s.skip(k as int), o),
        decreases s.len() - k,
    {
        proof {
            assert(s.skip(k as int).drop_first() =~= s.skip(k + 1));
        }
        k = k + 1;
    }
    proof {
        if k < s.len() {
            assert(s.skip(k as int)[0] == s[k as int]);
        }
    }
    queue.insert(k, o);
}

} // verus!
