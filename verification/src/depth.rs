//! Depth: the open quantity of a side, summed per price, best price first.

use crate::order::{better_price, outranks, Order, Side};
use crate::queue::{resting, total_qty};
use vstd::prelude::*;

verus! {

/// A price level: the price and the quantity open at it.
pub type Level = (i64, i64);

/// The open quantity of `orders` at `price`.
pub open spec fn level_qty(orders: Seq<Order>, price: int) -> int
    decreases orders.len(),
{
    if orders.len() == 0 {
        0
    } else {
        (if orders[0].price == price {
            orders[0].qty as int
        } else {
            0
        }) + level_qty(orders.drop_first(), price)
    }
}

/// The sum of the quantities of a sequence of levels.
pub open spec fn levels_total(levels: Seq<Level>) -> int
    decreases levels.len(),
{
    if levels.len() == 0 {
        0
    } else {
        levels[0].1 + levels_total(levels.drop_first())
    }
}

/// Some level of `levels` is at `price`.
pub open spec fn has_level(levels: Seq<Level>, price: int) -> bool {
    exists|i: int| 0 <= i < levels.len() && (#[trigger] levels[i]).0 == price
}

/// Some order of `orders` is at `price`.
pub open spec fn has_order_at(orders: Seq<Order>, price: int) -> bool {
    exists|k: int| 0 <= k < orders.len() && (#[trigger] orders[k]).price == price
}

/// The levels stand best price first, every price once.
pub open spec fn best_first(side: Side, levels: Seq<Level>) -> bool {
    forall|i: int, j: int|
        0 <= i < j < levels.len() ==> better_price(
            side,
            (#[trigger] levels[i]).0 as int,
            (#[trigger] levels[j]).0 as int,
        )
}

/// `levels` is the depth of `orders`, which rest on `side`: the levels stand
/// best price first with every price once, the prices are those at which an
/// order rests, and each level holds the open quantity at its price.
pub open spec fn is_depth_of(side: Side, levels: Seq<Level>, orders: Seq<Order>) -> bool {
    &&& best_first(side, levels)
    &&& forall|i: int|
        0 <= i < levels.len() ==> (#[trigger] levels[i]).1 == level_qty(orders, levels[i].0 as int)
            && has_order_at(orders, levels[i].0 as int)
    &&& forall|k: int| 0 <= k < orders.len() ==> has_level(levels, (#[trigger] orders[k]).price as int)
}

/// Every level of the depth of `orders` fits the machine integer that holds it.
pub open spec fn levels_fit(orders: Seq<Order>) -> bool {
    forall|price: int| #[trigger] level_qty(orders, price) <= i64::MAX
}

/// Appending an order raises the quantity at its price by its quantity and
/// leaves the other prices as they were.
pub proof fn lemma_level_qty_push(orders: Seq<Order>, o: Order, price: int)
    ensures
        level_qty(orders.push(o), price) == level_qty(orders, price) + (if o.price == price {
            o.qty as int
        } else {
            0
        }),
    decreases orders.len(),
{
    let longer = orders.push(o);
    if orders.len() == 0 {
        assert(longer.drop_first() =~= orders);
    } else {
        assert(longer.drop_first() =~= orders.drop_first().push(o));
        lemma_level_qty_push(orders.drop_first(), o, price);
    }
}

/// Appending an order raises the summed quantity by its quantity.
pub proof fn lemma_total_qty_push(orders: Seq<Order>, o: Order)
    ensures
        total_qty(orders.push(o)) == total_qty(orders) + o.qty,
    decreases orders.len(),
{
    let longer = orders.push(o);
    if orders.len() == 0 {
        assert(longer.drop_first() =~= orders);
    } else {
        assert(longer.drop_first() =~= orders.drop_first().push(o));
        lemma_total_qty_push(orders.drop_first(), o);
    }
}

/// Appending a level raises the levels' sum by its quantity.
pub proof fn lemma_levels_total_push(levels: Seq<Level>, l: Level)
    ensures
        levels_total(levels.push(l)) == levels_total(levels) + l.1,
    decreases levels.len(),
{
    let longer = levels.push(l);
    if levels.len() == 0 {
        assert(longer.drop_first() =~= levels);
    } else {
        assert(longer.drop_first() =~= levels.drop_first().push(l));
        lemma_levels_total_push(levels.drop_first(), l);
    }
}

/// No order at a price, no quantity at it.
pub proof fn lemma_level_qty_absent(orders: Seq<Order>, price: int)
    requires
        !has_order_at(orders, price),
    ensures
        level_qty(orders, price) == 0,
    decreases orders.len(),
{
    if orders.len() > 0 {
        let rest = orders.drop_first();
        assert(orders[0].price != price);
        assert(!has_order_at(rest, price)) by {
            if has_order_at(rest, price) {
                let k = choose|k: int| 0 <= k < rest.len() && (#[trigger] rest[k]).price == price;
                assert(orders[k + 1].price == price);
            }
        }
        lemma_level_qty_absent(rest, price);
    }
}

/// Where every order has quantity open, the quantity at a price over the
/// first `n` orders is at least zero and at most that over all of them.
pub proof fn lemma_level_qty_prefix(orders: Seq<Order>, n: int, price: int)
    requires
        forall|i: int| 0 <= i < orders.len() ==> (#[trigger] orders[i]).qty > 0,
        0 <= n <= orders.len(),
    ensures
        0 <= level_qty(orders.take(n), price) <= level_qty(orders, price),
    decreases orders.len(),
{
    if n == 0 {
        assert(orders.take(0) =~= Seq::<Order>::empty());
        if orders.len() > 0 {
            let rest = orders.drop_first();
            assert forall|i: int| 0 <= i < rest.len() implies (#[trigger] rest[i]).qty > 0 by {
                assert(rest[i] == orders[i + 1]);
            }
            lemma_level_qty_prefix(rest, 0, price);
            assert(rest.take(0) =~= Seq::<Order>::empty());
        }
    } else {
        let rest = orders.drop_first();
        assert forall|i: int| 0 <= i < rest.len() implies (#[trigger] rest[i]).qty > 0 by {
            assert(rest[i] == orders[i + 1]);
        }
        lemma_level_qty_prefix(rest, n - 1, price);
        assert(orders.take(n).drop_first() =~= rest.take(n - 1));
        assert(orders.take(n)[0] == orders[0]);
    }
}

/// Where every order has quantity open, the quantity at one price is at
/// least zero and at most the quantity of the whole side. So a side whose
/// summed quantity fits has levels that fit.
pub proof fn lemma_level_qty_bounds(orders: Seq<Order>, price: int)
    requires
        forall|i: int| 0 <= i < orders.len() ==> (#[trigger] orders[i]).qty > 0,
    ensures
        0 <= level_qty(orders, price) <= total_qty(orders),
    decreases orders.len(),
{
    if orders.len() > 0 {
        let rest = orders.drop_first();
        assert forall|i: int| 0 <= i < rest.len() implies (#[trigger] rest[i]).qty > 0 by {
            assert(rest[i] == orders[i + 1]);
        }
        lemma_level_qty_bounds(rest, price);
    }
}

/// Two lists of levels that stand best first and hold the same prices hold
/// them at the same places.
pub proof fn lemma_same_prices(side: Side, a: Seq<Level>, b: Seq<Level>)
    requires
        best_first(side, a),
        best_first(side, b),
        forall|price: int| #[trigger] has_level(a, price) <==> has_level(b, price),
    ensures
        a.len() == b.len(),
        forall|i: int| 0 <= i < a.len() ==> (#[trigger] a[i]).0 == b[i].0,
    decreases a.len(),
{
    if a.len() == 0 {
        if b.len() > 0 {
            assert(has_level(b, b[0].0 as int));
            assert(has_level(a, b[0].0 as int));
        }
    } else {
        assert(has_level(a, a[0].0 as int));
        assert(has_level(b, a[0].0 as int));
        let j = choose|j: int| 0 <= j < b.len() && (#[trigger] b[j]).0 == a[0].0 as int;
        assert(has_level(b, b[0].0 as int));
        assert(has_level(a, b[0].0 as int));
        let i = choose|i: int| 0 <= i < a.len() && (#[trigger] a[i]).0 == b[0].0 as int;
        if j > 0 {
            assert(better_price(side, b[0].0 as int, b[j].0 as int));
            if i > 0 {
                assert(better_price(side, a[0].0 as int, a[i].0 as int));
            }
        }
        assert(a[0].0 == b[0].0);
        let ta = a.drop_first();
        let tb = b.drop_first();
        assert forall|x: int, y: int| 0 <= x < y < ta.len() implies better_price(
            side,
            (#[trigger] ta[x]).0 as int,
            (#[trigger] ta[y]).0 as int,
        ) by {
            assert(ta[x] == a[x + 1] && ta[y] == a[y + 1]);
        }
        assert forall|x: int, y: int| 0 <= x < y < tb.len() implies better_price(
            side,
            (#[trigger] tb[x]).0 as int,
            (#[trigger] tb[y]).0 as int,
        ) by {
            assert(tb[x] == b[x + 1] && tb[y] == b[y + 1]);
        }
        assert forall|price: int| #[trigger] has_level(ta, price) <==> has_level(tb, price) by {
            if has_level(ta, price) {
                let x = choose|x: int| 0 <= x < ta.len() && (#[trigger] ta[x]).0 == price;
                assert(a[x + 1].0 == price);
                assert(better_price(side, a[0].0 as int, a[x + 1].0 as int));
                assert(has_level(a, price));
                assert(has_level(b, price));
                let y = choose|y: int| 0 <= y < b.len() && (#[trigger] b[y]).0 == price;
                assert(tb[y - 1].0 == price);
            }
            if has_level(tb, price) {
                let y = choose|y: int| 0 <= y < tb.len() && (#[trigger] tb[y]).0 == price;
                assert(b[y + 1].0 == price);
                assert(better_price(side, b[0].0 as int, b[y + 1].0 as int));
                assert(has_level(b, price));
                assert(has_level(a, price));
                let x = choose|x: int| 0 <= x < a.len() && (#[trigger] a[x]).0 == price;
                assert(ta[x - 1].0 == price);
            }
        }
        lemma_same_prices(side, ta, tb);
        assert forall|k: int| 0 <= k < a.len() implies (#[trigger] a[k]).0 == b[k].0 by {
            if k > 0 {
                assert(ta[k - 1] == a[k]);
                assert(tb[k - 1] == b[k]);
            }
        }
    }
}

/// A side has one depth: two lists of levels that are both the depth of the
/// same orders are equal.
pub proof fn lemma_depth_unique(side: Side, a: Seq<Level>, b: Seq<Level>, orders: Seq<Order>)
    requires
        is_depth_of(side, a, orders),
        is_depth_of(side, b, orders),
    ensures
        a == b,
{
    assert forall|price: int| #[trigger] has_level(a, price) <==> has_level(b, price) by {
        if has_level(a, price) {
            let i = choose|i: int| 0 <= i < a.len() && (#[trigger] a[i]).0 == price;
            assert(has_order_at(orders, a[i].0 as int));
            let k = choose|k: int| 0 <= k < orders.len() && (#[trigger] orders[k]).price == price;
            assert(has_level(b, orders[k].price as int));
        }
        if has_level(b, price) {
            let i = choose|i: int| 0 <= i < b.len() && (#[trigger] b[i]).0 == price;
            assert(has_order_at(orders, b[i].0 as int));
            let k = choose|k: int| 0 <= k < orders.len() && (#[trigger] orders[k]).price == price;
            assert(has_level(a, orders[k].price as int));
        }
    }
    lemma_same_prices(side, a, b);
    assert forall|i: int| 0 <= i < a.len() implies a[i] == b[i] by {
        assert(a[i].0 == b[i].0);
        assert(a[i].1 == level_qty(orders, a[i].0 as int));
        assert(b[i].1 == level_qty(orders, b[i].0 as int));
    }
    assert(a =~= b);
}

/// The levels of one side, which rests in `orders`: `None` where a level's
/// quantity does not fit, else the depth of the side.
pub fn side_levels(side: Side, orders: &Vec<Order>) -> (out: Option<Vec<Level>>)
    requires
        resting(side, orders@),
    ensures
        out is Some <==> levels_fit(orders@),
        out matches Some(levels) ==> is_depth_of(side, levels@, orders@) && levels_total(levels@)
            == total_qty(orders@),
{
    let mut levels: Vec<Level> = Vec::new();
    let mut i: usize = 0;
    proof {
        assert(orders@.take(0) =~= Seq::<Order>::empty());
    }
    while i < orders.len()
        invariant
            0 <= i <= orders.len(),
            resting(side, orders@),
            is_depth_of(side, levels@, orders@.take(i as int)),
            levels_total(levels@) == total_qty(orders@.take(i as int)),
            i > 0 ==> levels.len() > 0 && levels@.last().0 == orders@[i - 1].price,
            i == 0 ==> levels.len() == 0,
        decreases orders.len() - i,
    {
        let o = orders[i];
        let n = levels.len();
        let ghost t = orders@.take(i as int);
        let ghost t1 = orders@.take(i + 1);
        let ghost was = levels@;
        proof {
            assert(t1 =~= t.push(o));
            lemma_total_qty_push(t, o);
            assert forall|price: int| #[trigger]
                level_qty(t1, price) == level_qty(t, price) + (if o.price == price {
                    o.qty as int
                } else {
                    0
                }) by {
                lemma_level_qty_push(t, o, price);
            }
        }
        if n > 0 && levels[n - 1].0 == o.price {
            let last = levels[n - 1];
            proof {
                lemma_level_qty_prefix(orders@, i as int, o.price as int);
                lemma_level_qty_prefix(orders@, i + 1, o.price as int);
            }
            if o.qty > i64::MAX - last.1 {
                return None;
            }
            levels[n - 1] = (last.0, last.1 + o.qty);
            proof {
                let now = levels@;
                assert forall|j: int| 0 <= j < now.len() implies (#[trigger] now[j]).1 == level_qty(
                    t1,
                    now[j].0 as int,
                ) && has_order_at(t1, now[j].0 as int) by {
                    assert(now[j].0 == was[j].0);
                    if j < n - 1 {
                        assert(better_price(side, was[j].0 as int, was[n - 1].0 as int));
                    }
                    let k = choose|k: int|
                        0 <= k < t.len() && (#[trigger] t[k]).price == was[j].0 as int;
                    assert(t1[k].price == now[j].0);
                }
                assert forall|k: int| 0 <= k < t1.len() implies has_level(
                    now,
                    (#[trigger] t1[k]).price as int,
                ) by {
                    if k < i {
                        assert(t1[k] == t[k]);
                        let j = choose|j: int|
                            0 <= j < was.len() && (#[trigger] was[j]).0 == t[k].price as int;
                        assert(now[j].0 == t1[k].price);
                    } else {
                        assert(now[n - 1].0 == t1[k].price);
                    }
                }
                assert forall|a: int, b: int| 0 <= a < b < now.len() implies better_price(
                    side,
                    (#[trigger] now[a]).0 as int,
                    (#[trigger] now[b]).0 as int,
                ) by {
                    assert(better_price(side, was[a].0 as int, was[b].0 as int));
                }
                assert(was =~= was.drop_last().push(last));
                assert(now =~= was.drop_last().push((last.0, (last.1 + o.qty) as i64)));
                lemma_levels_total_push(was.drop_last(), last);
                lemma_levels_total_push(was.drop_last(), (last.0, (last.1 + o.qty) as i64));
            }
        } else {
            levels.push((o.price, o.qty));
            proof {
                let now = levels@;
                assert forall|j: int| 0 <= j < n implies better_price(
                    side,
                    (#[trigger] was[j]).0 as int,
                    o.price as int,
                ) by {
                    assert(!outranks(side, orders@[i as int], orders@[i - 1]));
                    if j < n - 1 {
                        assert(better_price(side, was[j].0 as int, was[n - 1].0 as int));
                    }
                }
                assert(!has_order_at(t, o.price as int)) by {
                    if has_order_at(t, o.price as int) {
                        let k = choose|k: int|
                            0 <= k < t.len() && (#[trigger] t[k]).price == o.price as int;
                        let j = choose|j: int|
                            0 <= j < was.len() && (#[trigger] was[j]).0 == t[k].price as int;
                        assert(better_price(side, was[j].0 as int, o.price as int));
                    }
                }
                lemma_level_qty_absent(t, o.price as int);
                assert forall|j: int| 0 <= j < now.len() implies (#[trigger] now[j]).1 == level_qty(
                    t1,
                    now[j].0 as int,
                ) && has_order_at(t1, now[j].0 as int) by {
                    if j < n {
                        assert(now[j] == was[j]);
                        let k = choose|k: int|
                            0 <= k < t.len() && (#[trigger] t[k]).price == was[j].0 as int;
                        assert(t1[k].price == now[j].0);
                    } else {
                        assert(t1[i as int].price == now[j].0);
                    }
                }
                assert forall|k: int| 0 <= k < t1.len() implies has_level(
                    now,
                    (#[trigger] t1[k]).price as int,
                ) by {
                    if k < i {
                        assert(t1[k] == t[k]);
                        let j = choose|j: int|
                            0 <= j < was.len() && (#[trigger] was[j]).0 == t[k].price as int;
                        assert(now[j].0 == t1[k].price);
                    } else {
                        assert(now[n as int].0 == t1[k].price);
                    }
                }
                assert forall|a: int, b: int| 0 <= a < b < now.len() implies better_price(
                    side,
                    (#[trigger] now[a]).0 as int,
                    (#[trigger] now[b]).0 as int,
                ) by {
                    assert(now[a] == was[a]);
                    if b < n {
                        assert(now[b] == was[b]);
                    }
                }
                lemma_levels_total_push(was, (o.price, o.qty));
            }
        }
        i = i + 1;
    }
    proof {
        assert(orders@.take(orders.len() as int) =~= orders@);
        assert forall|price: int| #[trigger] level_qty(orders@, price) <= i64::MAX by {
            if has_order_at(orders@, price) {
                let k = choose|k: int|
                    0 <= k < orders@.len() && (#[trigger] orders@[k]).price == price;
                let j = choose|j: int|
                    0 <= j < levels@.len() && (#[trigger] levels@[j]).0 == orders@[k].price as int;
                assert(levels@[j].1 == level_qty(orders@, price));
            } else {
                lemma_level_qty_absent(orders@, price);
            }
        }
    }
    Some(levels)
}

} // verus!
