use exchange::book::Book;
use exchange::priority::{compare_ask_orders, compare_bid_orders};
use exchange::sorting::sort_orders;
use exchange::types::{Match, Order, OrderType};
use std::cmp::Ordering;

/// An order; `price` is a price key, and the book orders keys as numbers.
fn order(otype: OrderType, price: i64, trader: i64, qty: u64, time: u128, id: i64, hidden: bool) -> Order {
    Order { otype, price, trader, qty, time, id, hidden }
}

fn ask(price: i64, trader: i64, qty: u64, time: u128, id: i64) -> Order {
    order(OrderType::Ask, price, trader, qty, time, id, false)
}

fn bid(price: i64, trader: i64, qty: u64, time: u128, id: i64) -> Order {
    order(OrderType::Bid, price, trader, qty, time, id, false)
}

#[test]
fn asks_rank_cheapest_then_visible_then_earliest() {
    let a = ask(100, 1, 1, 5, 1);
    let b = ask(101, 1, 1, 1, 2);
    assert_eq!(compare_ask_orders(&a, &b), Ordering::Less);
    assert_eq!(compare_ask_orders(&b, &a), Ordering::Greater);
    let hidden = order(OrderType::Ask, 100, 1, 1, 1, 3, true);
    assert_eq!(compare_ask_orders(&hidden, &a), Ordering::Greater);
    let later = ask(100, 2, 1, 9, 4);
    assert_eq!(compare_ask_orders(&a, &later), Ordering::Less);
    let twin = ask(100, 7, 3, 5, 9);
    assert_eq!(compare_ask_orders(&a, &twin), Ordering::Equal);
}

#[test]
fn bids_rank_dearest_then_visible_then_earliest() {
    let a = bid(101, 1, 1, 5, 1);
    let b = bid(100, 1, 1, 1, 2);
    assert_eq!(compare_bid_orders(&a, &b), Ordering::Less);
    assert_eq!(compare_bid_orders(&b, &a), Ordering::Greater);
    let hidden = order(OrderType::Bid, 101, 1, 1, 1, 3, true);
    assert_eq!(compare_bid_orders(&hidden, &a), Ordering::Greater);
    assert_eq!(compare_bid_orders(&a, &hidden), Ordering::Less);
    let twin = bid(101, 2, 8, 5, 4);
    assert_eq!(compare_bid_orders(&a, &twin), Ordering::Equal);
}

#[test]
fn sort_is_stable_by_priority() {
    let v = vec![ask(102, 1, 1, 1, 1), ask(100, 1, 1, 3, 2), ask(100, 2, 1, 3, 3), ask(100, 1, 1, 2, 4)];
    let s = sort_orders(OrderType::Ask, &v);
    let ids: Vec<i64> = s.iter().map(|o| o.id).collect();
    assert_eq!(ids, vec![4, 2, 3, 1]);
    let b = vec![bid(100, 1, 1, 1, 1), bid(102, 1, 1, 1, 2), bid(101, 1, 1, 1, 3)];
    let ids: Vec<i64> = sort_orders(OrderType::Bid, &b).iter().map(|o| o.id).collect();
    assert_eq!(ids, vec![2, 3, 1]);
}

#[test]
fn new_book_is_empty() {
    let b = Book::new();
    assert!(b.buy.is_empty() && b.sell.is_empty() && b.matches.is_empty());
}

#[test]
fn resting_orders_do_not_trade_when_apart() {
    let mut b = Book::new();
    b.add_order(bid(99, 1, 10, 1, 1));
    b.add_order(ask(101, 2, 10, 2, 2));
    b.add_order(bid(100, 3, 5, 3, 3));
    assert!(b.matches.is_empty());
    let ids: Vec<i64> = b.buy.iter().map(|o| o.id).collect();
    assert_eq!(ids, vec![3, 1]);
    assert_eq!(b.sell.len(), 1);
}

#[test]
fn bid_sweeps_two_asks() {
    let mut b = Book::new();
    b.add_order(ask(100, 1, 5, 1, 1));
    b.add_order(ask(101, 2, 5, 2, 2));
    b.add_order(ask(105, 4, 5, 3, 5));
    b.add_order(bid(101, 9, 7, 4, 3));
    assert_eq!(
        b.matches,
        vec![
            Match { buyer: 9, seller: 1, qty: 5, price: 100 },
            Match { buyer: 9, seller: 2, qty: 2, price: 101 },
        ]
    );
    assert!(b.buy.is_empty());
    assert_eq!(b.sell.len(), 2);
    assert_eq!(b.sell[0].id, 2);
    assert_eq!(b.sell[0].qty, 3);
    assert_eq!(b.sell[1].id, 5);
}

#[test]
fn ask_rests_after_partial_fill() {
    let mut b = Book::new();
    b.add_order(bid(100, 1, 4, 1, 1));
    b.add_order(bid(98, 2, 4, 2, 2));
    b.add_order(ask(99, 3, 10, 3, 3));
    // the bid at 98 is passed over; the one at 100 is filled at its price
    assert_eq!(b.matches, vec![Match { buyer: 1, seller: 3, qty: 4, price: 100 }]);
    assert_eq!(b.buy.len(), 1);
    assert_eq!(b.buy[0].id, 2);
    assert_eq!(b.sell.len(), 1);
    assert_eq!(b.sell[0].id, 3);
    assert_eq!(b.sell[0].qty, 6);
    // the book is not crossed and quantity is conserved: 4 + 4 + 10 = 4 + 6 + 2 * 4
    assert!(b.buy[0].price < b.sell[0].price);
}

#[test]
fn exact_fill_removes_both() {
    let mut b = Book::new();
    b.add_order(ask(100, 1, 5, 1, 1));
    b.add_order(bid(100, 2, 5, 2, 2));
    assert_eq!(b.matches, vec![Match { buyer: 2, seller: 1, qty: 5, price: 100 }]);
    assert!(b.buy.is_empty() && b.sell.is_empty());
}

#[test]
fn earlier_incoming_order_sets_the_price() {
    // a resting ask that arrived after the incoming bid's time stamp trades at the bid's price
    let mut b = Book::new();
    b.add_order(ask(100, 1, 5, 10, 1));
    b.add_order(bid(103, 2, 5, 3, 2));
    assert_eq!(b.matches, vec![Match { buyer: 2, seller: 1, qty: 5, price: 103 }]);
}

#[test]
fn hidden_order_waits_behind_visible_one() {
    let mut b = Book::new();
    b.add_order(order(OrderType::Ask, 100, 1, 5, 1, 1, true));
    b.add_order(ask(100, 2, 5, 2, 2));
    assert_eq!(b.sell[0].id, 2);
    b.add_order(bid(100, 3, 5, 3, 3));
    assert_eq!(b.matches, vec![Match { buyer: 3, seller: 2, qty: 5, price: 100 }]);
    assert_eq!(b.sell.len(), 1);
    assert_eq!(b.sell[0].id, 1);
}

#[test]
fn drop_order_withdraws_first_match_by_id() {
    let mut b = Book::new();
    b.add_order(bid(90, 1, 1, 1, 7));
    b.add_order(ask(110, 1, 1, 2, 8));
    assert!(b.has_order(7));
    assert!(b.has_order(8));
    assert!(!b.has_order(9));
    b.drop_order(8);
    assert!(b.sell.is_empty());
    assert_eq!(b.buy.len(), 1);
    b.drop_order(7);
    assert!(b.buy.is_empty());
}

#[test]
fn clone_copies_the_book() {
    let mut b = Book::new();
    b.add_order(bid(90, 1, 1, 1, 7));
    let c = b.clone();
    assert_eq!(c.buy, b.buy);
}

#[test]
fn cancel_undoes_a_resting_add() {
    let mut b = Book::new();
    b.add_order(bid(90, 1, 3, 1, 1));
    b.add_order(ask(110, 2, 3, 2, 2));
    b.add_order(bid(95, 3, 3, 3, 3));
    let before = b.clone();
    b.add_order(ask(100, 4, 2, 4, 4));
    assert_eq!(b.sell[0].id, 4);
    b.drop_order(4);
    assert_eq!(b.buy, before.buy);
    assert_eq!(b.sell, before.sell);
    assert_eq!(b.matches, before.matches);
}

#[test]
fn quantity_is_conserved_by_trading() {
    let mut b = Book::new();
    b.add_order(ask(100, 1, 5, 1, 1));
    b.add_order(ask(102, 2, 5, 2, 2));
    b.add_order(bid(99, 3, 4, 3, 3));
    let before: u64 = b.buy.iter().chain(b.sell.iter()).map(|o| o.qty).sum();
    b.add_order(bid(103, 4, 8, 4, 4));
    let after: u64 = b.buy.iter().chain(b.sell.iter()).map(|o| o.qty).sum();
    let traded: u64 = b.matches.iter().map(|m| m.qty).sum();
    assert_eq!(after + 2 * traded, before + 8);
    // every trade is within both limits: the buyer's 103 and the sellers' asks
    for m in &b.matches {
        assert_eq!(m.buyer, 4);
        assert!(m.price <= 103 && m.price >= 100);
    }
    // the book is not crossed
    assert!(b.buy.iter().all(|x| b.sell.iter().all(|y| x.price < y.price)));
}

#[test]
fn incoming_order_fills_what_it_reaches_and_rests_the_remainder() {
    let mut b = Book::new();
    b.add_order(ask(100, 1, 3, 1, 1));
    b.add_order(ask(101, 2, 4, 2, 2));
    b.add_order(ask(110, 3, 9, 3, 3));
    b.add_order(bid(90, 8, 2, 4, 8));
    // 3 + 4 shares are within reach of a bid at 105
    b.add_order(bid(105, 9, 10, 5, 9));
    let traded: u64 = b.matches.iter().map(|m| m.qty).sum();
    assert_eq!(traded, 7);
    // trades come front to back, at the resting prices
    assert_eq!(b.matches[0], Match { buyer: 9, seller: 1, qty: 3, price: 100 });
    assert_eq!(b.matches[1], Match { buyer: 9, seller: 2, qty: 4, price: 101 });
    // the remainder rests at the front of the bids
    assert_eq!(b.buy[0].id, 9);
    assert_eq!(b.buy[0].qty, 3);
    assert_eq!(b.buy[1].id, 8);
    assert_eq!(b.sell.len(), 1);
    assert_eq!(b.sell[0].id, 3);
}

#[test]
fn fully_filled_order_leaves_its_queue_as_it_was() {
    let mut b = Book::new();
    b.add_order(ask(100, 1, 10, 1, 1));
    b.add_order(bid(90, 8, 2, 2, 8));
    let before = b.buy.clone();
    b.add_order(bid(100, 9, 4, 3, 9));
    assert_eq!(b.buy, before);
    assert_eq!(b.sell[0].qty, 6);
}
