use orderbook::{Book, Order, Side};

fn buy(id: u64, price: i64, qty: i64, ts: u64) -> Order {
    Order { id, side: Side::Buy, price, qty, ts }
}

fn sell(id: u64, price: i64, qty: i64, ts: u64) -> Order {
    Order { id, side: Side::Sell, price, qty, ts }
}

#[test]
fn simple_cross() {
    let mut b = Book::new();
    b.submit(Order { id: 1, side: Side::Buy, price: 100, qty: 10, ts: 1 });
    let trades = b.submit(Order { id: 2, side: Side::Sell, price: 100, qty: 6, ts: 2 });
    assert_eq!(trades, vec![(2, 1, 6)]);
    let (bids, asks) = b.depth();
    assert_eq!(bids, vec![(100, 4)]);
    assert!(asks.is_empty());
}

#[test]
fn prop_qty_positive() {
    for o_qty in [1i64, 2, 3, 10, 57, 500, 999] {
        let mut b = Book::new();
        b.submit(buy(1, 100, o_qty, 1));
        let trades = b.submit(sell(2, 100, o_qty, 2));
        assert_eq!(trades, vec![(2, 1, o_qty)]);
        for (_, _, q) in trades {
            assert!(q > 0);
        }
        assert_eq!(b.depth(), (vec![], vec![]));
    }
}

#[test]
fn sell_into_empty_book_rests() {
    let mut b = Book::new();
    let trades = b.submit(sell(1, 50, 5, 1));
    assert!(trades.is_empty());
    let (bids, asks) = b.depth();
    assert!(bids.is_empty());
    assert_eq!(asks, vec![(50, 5)]);
}

#[test]
fn better_price_is_matched_first() {
    let mut b = Book::new();
    assert!(b.submit(buy(1, 100, 5, 1)).is_empty());
    assert!(b.submit(buy(2, 101, 5, 2)).is_empty());
    let trades = b.submit(sell(3, 99, 8, 3));
    assert_eq!(trades, vec![(3, 2, 5), (3, 1, 3)]);
    let (bids, asks) = b.depth();
    assert_eq!(bids, vec![(100, 2)]);
    assert!(asks.is_empty());
}

#[test]
fn new_book_is_empty() {
    let b = Book::new();
    assert_eq!(b.depth(), (vec![], vec![]));
    let d = Book::default();
    assert_eq!(d.depth(), (vec![], vec![]));
}

#[test]
fn earlier_timestamp_is_matched_first_at_one_price() {
    let mut b = Book::new();
    b.submit(sell(1, 100, 4, 20));
    b.submit(sell(2, 100, 4, 10));
    b.submit(sell(3, 100, 4, 15));
    let trades = b.submit(buy(9, 100, 10, 30));
    assert_eq!(trades, vec![(9, 2, 4), (9, 3, 4), (9, 1, 2)]);
    assert_eq!(b.depth(), (vec![], vec![(100, 2)]));
}

#[test]
fn lower_ask_is_matched_first_whatever_the_timestamps() {
    let mut b = Book::new();
    b.submit(sell(1, 102, 3, 1));
    b.submit(sell(2, 101, 3, 2));
    b.submit(sell(3, 100, 3, 3));
    let trades = b.submit(buy(4, 101, 10, 4));
    assert_eq!(trades, vec![(4, 3, 3), (4, 2, 3)]);
    assert_eq!(b.depth(), (vec![(101, 4)], vec![(102, 3)]));
}

#[test]
fn higher_bid_is_matched_first_whatever_the_timestamps() {
    let mut b = Book::new();
    b.submit(buy(1, 98, 3, 1));
    b.submit(buy(2, 99, 3, 2));
    b.submit(buy(3, 100, 3, 3));
    let trades = b.submit(sell(4, 99, 10, 4));
    assert_eq!(trades, vec![(4, 3, 3), (4, 2, 3)]);
    assert_eq!(b.depth(), (vec![(98, 3)], vec![(99, 4)]));
}

#[test]
fn equal_price_and_timestamp_match_in_arrival_order() {
    let mut b = Book::new();
    b.submit(buy(1, 100, 2, 7));
    b.submit(buy(2, 100, 2, 7));
    b.submit(buy(3, 100, 2, 7));
    let trades = b.submit(sell(4, 100, 5, 8));
    assert_eq!(trades, vec![(4, 1, 2), (4, 2, 2), (4, 3, 1)]);
    assert_eq!(b.depth(), (vec![(100, 1)], vec![]));
}

#[test]
fn fills_never_exceed_the_taker() {
    let mut b = Book::new();
    b.submit(sell(1, 10, 7, 1));
    b.submit(sell(2, 11, 7, 2));
    b.submit(sell(3, 12, 7, 3));
    let trades = b.submit(buy(4, 12, 16, 4));
    assert_eq!(trades, vec![(4, 1, 7), (4, 2, 7), (4, 3, 2)]);
    let sum: i64 = trades.iter().map(|t| t.2).sum();
    assert_eq!(sum, 16);
    assert!(trades.iter().all(|t| t.2 > 0));
    assert_eq!(b.depth(), (vec![], vec![(12, 5)]));
}

#[test]
fn taker_larger_than_the_book_rests_the_remainder() {
    let mut b = Book::new();
    b.submit(sell(1, 10, 3, 1));
    b.submit(sell(2, 11, 4, 2));
    let trades = b.submit(buy(3, 20, 10, 3));
    assert_eq!(trades, vec![(3, 1, 3), (3, 2, 4)]);
    assert_eq!(b.depth(), (vec![(20, 3)], vec![]));
}

#[test]
fn unmarketable_taker_rests_in_full() {
    let mut b = Book::new();
    b.submit(sell(1, 105, 3, 1));
    let trades = b.submit(buy(2, 104, 9, 2));
    assert!(trades.is_empty());
    assert_eq!(b.depth(), (vec![(104, 9)], vec![(105, 3)]));
}

#[test]
fn book_is_never_crossed_at_rest() {
    let mut b = Book::new();
    let orders = [
        buy(1, 100, 5, 1),
        sell(2, 103, 5, 2),
        buy(3, 102, 2, 3),
        sell(4, 101, 6, 4),
        buy(5, 104, 1, 5),
        sell(6, 99, 20, 6),
        buy(7, 99, 3, 7),
        buy(8, 120, 40, 8),
        sell(9, 110, 2, 9),
    ];
    for o in orders {
        b.submit(o);
        let (bids, asks) = b.depth();
        for (bp, _) in &bids {
            for (ap, _) in &asks {
                assert!(bp < ap);
            }
        }
    }
    assert_eq!(b.depth(), (vec![(120, 18)], vec![]));
}

#[test]
fn depth_merges_orders_at_one_price() {
    let mut b = Book::new();
    b.submit(buy(1, 100, 5, 1));
    b.submit(buy(2, 100, 7, 2));
    b.submit(buy(3, 99, 1, 3));
    b.submit(buy(4, 101, 2, 4));
    b.submit(buy(5, 99, 4, 5));
    b.submit(sell(6, 110, 3, 6));
    b.submit(sell(7, 105, 2, 7));
    b.submit(sell(8, 110, 8, 8));
    let (bids, asks) = b.depth();
    assert_eq!(bids, vec![(101, 2), (100, 12), (99, 5)]);
    assert_eq!(asks, vec![(105, 2), (110, 11)]);
    let bid_sum: i64 = bids.iter().map(|l| l.1).sum();
    let ask_sum: i64 = asks.iter().map(|l| l.1).sum();
    assert_eq!(bid_sum, 5 + 7 + 1 + 2 + 4);
    assert_eq!(ask_sum, 3 + 2 + 8);
}

#[test]
fn depth_does_not_change_the_book() {
    let mut b = Book::new();
    b.submit(buy(1, 100, 5, 1));
    b.submit(sell(2, 101, 5, 2));
    let first = b.depth();
    let second = b.depth();
    assert_eq!(first, second);
    assert_eq!(first, (vec![(100, 5)], vec![(101, 5)]));
}

#[test]
fn fully_filled_maker_leaves_the_depth() {
    let mut b = Book::new();
    b.submit(sell(1, 100, 5, 1));
    b.submit(sell(2, 101, 5, 2));
    let trades = b.submit(buy(3, 100, 5, 3));
    assert_eq!(trades, vec![(3, 1, 5)]);
    assert_eq!(b.depth(), (vec![], vec![(101, 5)]));
    let trades = b.submit(buy(4, 100, 1, 4));
    assert!(trades.is_empty());
    assert_eq!(b.depth(), (vec![(100, 1)], vec![(101, 5)]));
}

#[test]
fn partly_filled_maker_keeps_its_place() {
    let mut b = Book::new();
    b.submit(sell(1, 100, 5, 1));
    b.submit(sell(2, 100, 5, 2));
    assert_eq!(b.submit(buy(3, 100, 2, 3)), vec![(3, 1, 2)]);
    assert_eq!(b.submit(buy(4, 100, 4, 4)), vec![(4, 1, 3), (4, 2, 1)]);
    assert_eq!(b.depth(), (vec![], vec![(100, 4)]));
}

#[test]
fn zero_quantity_order_is_accepted_and_does_nothing() {
    let mut b = Book::new();
    b.submit(sell(1, 100, 5, 1));
    let trades = b.submit(buy(2, 100, 0, 2));
    assert!(trades.is_empty());
    assert_eq!(b.depth(), (vec![], vec![(100, 5)]));
}

#[test]
fn negative_quantity_order_is_accepted_and_does_nothing() {
    let mut b = Book::new();
    b.submit(sell(1, 100, 5, 1));
    let trades = b.submit(buy(2, 100, -3, 2));
    assert!(trades.is_empty());
    let trades = b.submit(sell(3, 100, -3, 3));
    assert!(trades.is_empty());
    assert_eq!(b.depth(), (vec![], vec![(100, 5)]));
}

#[test]
fn non_positive_prices_are_accepted() {
    let mut b = Book::new();
    b.submit(buy(1, 0, 5, 1));
    b.submit(buy(2, -7, 5, 2));
    assert_eq!(b.depth(), (vec![(0, 5), (-7, 5)], vec![]));
    let trades = b.submit(sell(3, -7, 8, 3));
    assert_eq!(trades, vec![(3, 1, 5), (3, 2, 3)]);
    assert_eq!(b.depth(), (vec![(-7, 2)], vec![]));
}

#[test]
fn lowest_possible_bid_is_matched_last() {
    let mut b = Book::new();
    b.submit(buy(1, i64::MIN, 5, 1));
    b.submit(buy(2, 10, 5, 2));
    let trades = b.submit(sell(3, i64::MIN, 7, 3));
    assert_eq!(trades, vec![(3, 2, 5), (3, 1, 2)]);
    assert_eq!(b.depth(), (vec![(i64::MIN, 3)], vec![]));
}

#[test]
fn an_order_can_trade_with_its_own_id() {
    let mut b = Book::new();
    b.submit(buy(7, 100, 5, 1));
    let trades = b.submit(sell(7, 100, 2, 2));
    assert_eq!(trades, vec![(7, 7, 2)]);
    assert_eq!(b.depth(), (vec![(100, 3)], vec![]));
}

#[test]
fn checked_depth_agrees_with_depth() {
    let mut b = Book::new();
    b.submit(buy(1, 100, 5, 1));
    b.submit(buy(2, 100, 6, 2));
    b.submit(sell(3, 101, 5, 3));
    assert_eq!(b.checked_depth(), Some((vec![(100, 11)], vec![(101, 5)])));
    assert_eq!(b.checked_depth(), Some(b.depth()));
}

#[test]
fn checked_depth_is_none_where_a_level_does_not_fit() {
    let mut b = Book::new();
    b.submit(buy(1, 100, i64::MAX, 1));
    assert_eq!(b.checked_depth(), Some((vec![(100, i64::MAX)], vec![])));
    b.submit(buy(2, 100, 1, 2));
    assert_eq!(b.checked_depth(), None);
    let mut a = Book::new();
    a.submit(sell(1, 100, i64::MAX, 1));
    a.submit(sell(2, 101, i64::MAX, 2));
    assert_eq!(
        a.checked_depth(),
        Some((vec![], vec![(100, i64::MAX), (101, i64::MAX)]))
    );
    a.submit(sell(3, 101, i64::MAX, 3));
    assert_eq!(a.checked_depth(), None);
}

#[test]
fn largest_quantities_match_without_overflow() {
    let mut b = Book::new();
    b.submit(sell(1, 100, i64::MAX, 1));
    let trades = b.submit(buy(2, 100, i64::MAX, 2));
    assert_eq!(trades, vec![(2, 1, i64::MAX)]);
    assert_eq!(b.depth(), (vec![], vec![]));
}
