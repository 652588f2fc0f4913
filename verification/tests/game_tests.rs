use exchange::book::Book;
use exchange::game::{
    build_response, new_trader, order_refused, recount_status, Exchange, Step, MAX_ORDERS, TOTAL_SHARES,
};
use exchange::ids::gen_id;
use exchange::game::MIN_PRICE;
use exchange::types::{price_from_bits, Match, Order, OrderReq, OrderType, Request, TraderStatus};

fn status(goal: OrderType) -> TraderStatus {
    TraderStatus { goal, amount: 100, tolerance: 10, orders: 0, done: 0, opp: 0 }
}

/// The price key of `x`.
fn px(x: f64) -> i64 {
    price_from_bits(x.to_bits()).unwrap()
}

fn req(kind: OrderType, qty: u64, price: i64) -> OrderReq {
    OrderReq { kind, qty, price, hidden: false }
}

#[test]
fn newcomers_get_alternating_goals() {
    let s = new_trader(OrderType::Ask);
    assert_eq!(s.goal, OrderType::Bid);
    assert_eq!(s.amount, TOTAL_SHARES);
    assert_eq!(s.tolerance, TOTAL_SHARES / 10);
    assert_eq!((s.orders, s.done, s.opp), (0, 0, 0));
    assert_eq!(new_trader(OrderType::Bid).goal, OrderType::Ask);
}

#[test]
fn refusal_rules() {
    let st = status(OrderType::Bid);
    assert!(!order_refused(&st, &req(OrderType::Bid, 5, px(0.02))));
    // past the tolerance against the goal
    assert!(order_refused(&st, &req(OrderType::Ask, 11, px(0.02))));
    assert!(!order_refused(&st, &req(OrderType::Ask, 10, px(0.02))));
    // goal reached
    let done = TraderStatus { done: 100, ..st };
    assert!(order_refused(&done, &req(OrderType::Bid, 1, px(0.02))));
    // too many trades
    let busy = TraderStatus { orders: MAX_ORDERS, ..st };
    assert!(order_refused(&busy, &req(OrderType::Bid, 1, px(0.02))));
    // price at or below one cent
    assert_eq!(MIN_PRICE, px(0.01));
    assert!(order_refused(&st, &req(OrderType::Bid, 1, px(0.01))));
    assert!(order_refused(&st, &req(OrderType::Bid, 1, px(-3.0))));
    assert!(!order_refused(&st, &req(OrderType::Bid, 1, px(0.010000000000000002))));
    assert!(!order_refused(&st, &req(OrderType::Bid, 1, px(1.0e300))));
    assert!(!order_refused(&st, &req(OrderType::Bid, 1, px(f64::INFINITY))));
    // too large
    assert!(order_refused(&st, &req(OrderType::Bid, 50_001, px(0.02))));
    assert!(!order_refused(&st, &req(OrderType::Bid, 50_000, px(0.02))));
}

#[test]
fn recount_counts_goal_and_other_side() {
    let st = status(OrderType::Bid);
    let first = vec![
        Match { buyer: 1, seller: 2, qty: 5, price: 1 },
        Match { buyer: 3, seller: 1, qty: 2, price: 1 },
        Match { buyer: 1, seller: 1, qty: 9, price: 1 },
    ];
    let second = vec![Match { buyer: 4, seller: 5, qty: 7, price: 1 }, Match { buyer: 1, seller: 6, qty: 1, price: 1 }];
    let r = recount_status(&st, 1, &first, &second).unwrap();
    assert_eq!(r.orders, 4);
    assert_eq!(r.done, 6);
    assert_eq!(r.opp, 2);
    assert_eq!(r.goal, OrderType::Bid);
}

#[test]
fn recount_overflow_is_reported() {
    let st = status(OrderType::Bid);
    let first = vec![Match { buyer: 1, seller: 2, qty: u64::MAX, price: 1 }];
    let second = vec![Match { buyer: 1, seller: 2, qty: 1, price: 1 }];
    assert_eq!(recount_status(&st, 1, &first, &second), None);
}

#[test]
fn gen_id_creates_generator_and_gives_distinct_ids() {
    let mut state = None;
    let a = gen_id(&mut state);
    assert!(state.is_some());
    let b = gen_id(&mut state);
    assert_ne!(a, b);
    // both ids carry worker 2 and datacenter 1 in bits 12 to 21
    assert_eq!(a & 0x3ff000, 0x41000);
    assert_eq!(b & 0x3ff000, 0x41000);
}

fn game() -> Exchange {
    Exchange::new(Book::new(), Book::new())
}

#[test]
fn exchange_order_is_placed_and_trader_registered() {
    let mut e = game();
    let mut ids = None;
    let r = e.apply_request(1, Request::ExchangeOrder(req(OrderType::Bid, 10, px(0.02))), 5, &mut ids);
    let id = match r {
        Step::Placed(id) => id,
        other => panic!("unexpected {:?}", other),
    };
    assert_eq!(id & 0x3ff000, 0x41000);
    assert_eq!(e.users.len(), 1);
    assert_eq!(e.users[0].1.goal, OrderType::Bid);
    assert_eq!(e.prev, OrderType::Bid);
    assert_eq!(e.lob.buy, vec![Order { otype: OrderType::Bid, price: px(0.02), trader: 1, qty: 10, time: 5, id, hidden: false }]);
    assert_eq!(e.status_of(1), Some(e.users[0].1));
    assert_eq!(e.status_of(2), None);
    // a second trader is given the other goal
    assert_eq!(e.apply_request(2, Request::Get, 6, &mut ids), Step::Done);
    assert_eq!(e.users[1].1.goal, OrderType::Ask);
}

#[test]
fn darkpool_order_goes_to_the_dark_book() {
    let mut e = game();
    let mut ids = None;
    let r = e.apply_request(1, Request::DarkpoolOrder(req(OrderType::Bid, 15, px(0.02))), 5, &mut ids);
    assert!(matches!(r, Step::Placed(_)));
    assert_eq!(e.dark.buy.len(), 1);
    assert!(e.lob.buy.is_empty());
}

#[test]
fn refused_order_changes_nothing_but_registration() {
    let mut e = game();
    let mut ids = None;
    let r = e.apply_request(1, Request::ExchangeOrder(req(OrderType::Bid, 10, 100)), 5, &mut ids);
    assert_eq!(r, Step::Refused);
    assert_eq!(e.users.len(), 1);
    assert!(e.lob.buy.is_empty());
    assert!(ids.is_none());
}

#[test]
fn faults() {
    let mut e = game();
    let mut ids = None;
    // an exchange order of quantity 15 that is not refused
    assert_eq!(e.apply_request(1, Request::ExchangeOrder(req(OrderType::Bid, 15, px(0.02))), 5, &mut ids), Step::Fault);
    // cancelling an order that is not in the exchange book
    assert_eq!(e.apply_request(1, Request::Cancel(42), 5, &mut ids), Step::Fault);
    // weighing an order against the goal overflows
    e.users[0].1.opp = u64::MAX;
    assert_eq!(e.apply_request(1, Request::ExchangeOrder(req(OrderType::Ask, 1, px(0.02))), 5, &mut ids), Step::Fault);
}

#[test]
fn cancel_withdraws_exchange_order() {
    let mut e = game();
    let mut ids = None;
    let id = match e.apply_request(1, Request::ExchangeOrder(req(OrderType::Bid, 10, px(0.02))), 5, &mut ids) {
        Step::Placed(id) => id,
        other => panic!("unexpected {:?}", other),
    };
    assert_eq!(e.apply_request(1, Request::Cancel(id), 6, &mut ids), Step::Done);
    assert!(e.lob.buy.is_empty());
}

fn resting(otype: OrderType, trader: i64, id: i64, price: i64) -> Order {
    Order { otype, price, trader, qty: 1, time: 1, id, hidden: false }
}

#[test]
fn settle_recounts_and_withdraws_orders_that_no_longer_fit() {
    let mut lob = Book::new();
    // trader 1 wants to buy and has traded 10 against its goal already
    lob.matches.push(Match { buyer: 2, seller: 1, qty: 10, price: px(0.02) });
    lob.buy.push(resting(OrderType::Bid, 1, 11, 100));
    lob.sell.push(resting(OrderType::Ask, 1, 12, 200));
    lob.sell.push(resting(OrderType::Ask, 2, 13, 300));
    let mut e = Exchange::new(lob, Book::new());
    e.users.push((1, status(OrderType::Bid)));
    e.users.push((2, status(OrderType::Ask)));
    assert!(e.settle());
    assert_eq!(e.users[0].1.opp, 10);
    assert_eq!(e.users[0].1.orders, 1);
    assert_eq!(e.users[1].1.opp, 10);
    // trader 1 is past its tolerance: its ask is gone, its bid stays
    let ids: Vec<i64> = e.lob.buy.iter().chain(e.lob.sell.iter()).map(|o| o.id).collect();
    assert_eq!(ids, vec![11, 13]);
}

#[test]
fn settle_withdraws_all_orders_once_goal_is_reached() {
    let mut lob = Book::new();
    lob.matches.push(Match { buyer: 1, seller: 2, qty: 100, price: px(0.02) });
    lob.buy.push(resting(OrderType::Bid, 1, 11, 100));
    let mut dark = Book::new();
    dark.buy.push(resting(OrderType::Bid, 1, 21, 100));
    let mut e = Exchange::new(lob, dark);
    e.users.push((1, status(OrderType::Bid)));
    assert!(e.settle());
    assert!(e.lob.buy.is_empty());
    assert!(e.dark.buy.is_empty());
}

#[test]
fn settle_faults_on_double_withdrawal() {
    let mut lob = Book::new();
    // trader 1 reached its goal and is past its tolerance, with an order against its goal
    lob.matches.push(Match { buyer: 1, seller: 2, qty: 100, price: px(0.02) });
    lob.matches.push(Match { buyer: 3, seller: 1, qty: 10, price: px(0.02) });
    lob.sell.push(resting(OrderType::Ask, 1, 12, 200));
    let mut e = Exchange::new(lob, Book::new());
    e.users.push((1, status(OrderType::Bid)));
    assert!(!e.settle());
    // the state is left as it was
    assert_eq!(e.lob.sell.len(), 1);
    assert_eq!(e.users[0].1.done, 0);
}

#[test]
fn response_shows_visible_book_own_orders_and_recent_trades_first() {
    let mut lob = Book::new();
    lob.buy.push(resting(OrderType::Bid, 1, 1, 100));
    lob.buy.push(Order { hidden: true, ..resting(OrderType::Bid, 2, 2, 90) });
    lob.sell.push(resting(OrderType::Ask, 2, 3, 200));
    lob.matches.push(Match { buyer: 1, seller: 2, qty: 3, price: 150 });
    lob.matches.push(Match { buyer: 4, seller: 2, qty: 4, price: 160 });
    let mut dark = Book::new();
    dark.sell.push(resting(OrderType::Ask, 1, 4, 300));
    let st = status(OrderType::Bid);
    let r = build_response(&lob, &dark, 1, st);
    assert_eq!(r.book.0.len(), 1);
    assert!(r.book.0[0].mine);
    assert_eq!(r.book.1.len(), 1);
    assert!(!r.book.1[0].mine);
    assert_eq!(r.matches.len(), 2);
    assert_eq!(r.matches[0].price, 160);
    assert!(!r.matches[0].mine);
    assert!(r.matches[1].mine);
    assert_eq!(r.orders.len(), 1);
    assert_eq!(r.orders[0].id, 1);
    assert_eq!(r.dark_orders.len(), 1);
    assert_eq!(r.dark_orders[0].id, 4);
    assert!(r.dark_matches.is_empty());
    assert_eq!(r.status, st);
    // the hidden bid of trader 2 is among trader 2's orders
    let r2 = build_response(&lob, &dark, 2, st);
    assert_eq!(r2.orders.len(), 2);
}

#[test]
fn settling_twice_changes_nothing() {
    let mut lob = Book::new();
    lob.matches.push(Match { buyer: 2, seller: 1, qty: 10, price: px(0.02) });
    lob.buy.push(resting(OrderType::Bid, 1, 11, 100));
    lob.sell.push(resting(OrderType::Ask, 1, 12, 200));
    let mut e = Exchange::new(lob, Book::new());
    e.users.push((1, status(OrderType::Bid)));
    e.users.push((2, status(OrderType::Ask)));
    assert!(e.settle());
    let (buy, sell, users) = (e.lob.buy.clone(), e.lob.sell.clone(), e.users.clone());
    assert!(e.settle());
    assert_eq!(e.lob.buy, buy);
    assert_eq!(e.lob.sell, sell);
    assert_eq!(e.users, users);
}

#[test]
fn settle_keeps_fitting_orders_of_every_trader() {
    let mut lob = Book::new();
    // trader 1 (buying) is past its tolerance; trader 2 (selling) is not
    lob.matches.push(Match { buyer: 3, seller: 1, qty: 10, price: px(0.02) });
    lob.matches.push(Match { buyer: 3, seller: 2, qty: 1, price: px(0.02) });
    lob.buy.push(resting(OrderType::Bid, 1, 11, 100));
    lob.buy.push(resting(OrderType::Bid, 2, 14, 90));
    lob.sell.push(resting(OrderType::Ask, 1, 12, 200));
    lob.sell.push(resting(OrderType::Ask, 2, 13, 300));
    let mut dark = Book::new();
    dark.sell.push(resting(OrderType::Ask, 1, 21, 400));
    dark.sell.push(resting(OrderType::Ask, 3, 22, 400));
    let mut e = Exchange::new(lob, dark);
    e.users.push((1, status(OrderType::Bid)));
    e.users.push((2, status(OrderType::Ask)));
    assert!(e.settle());
    // only trader 1's asks go; trader 2's bid fits as trader 2 is within tolerance
    let ids: Vec<i64> = e.lob.buy.iter().chain(e.lob.sell.iter()).map(|o| o.id).collect();
    assert_eq!(ids, vec![11, 14, 13]);
    let dark_ids: Vec<i64> = e.dark.sell.iter().map(|o| o.id).collect();
    assert_eq!(dark_ids, vec![22]);
}

#[test]
fn response_ignores_others_hidden_and_dark_orders() {
    let st = status(OrderType::Bid);
    let mut lob = Book::new();
    lob.buy.push(resting(OrderType::Bid, 1, 1, 100));
    let mut dark = Book::new();
    dark.buy.push(resting(OrderType::Bid, 1, 2, 100));
    let a = build_response(&lob, &dark, 1, st);
    // another trader's hidden exchange order and dark pool order
    lob.buy.push(Order { hidden: true, ..resting(OrderType::Bid, 5, 3, 95) });
    dark.sell.push(resting(OrderType::Ask, 5, 4, 300));
    let b = build_response(&lob, &dark, 1, st);
    assert_eq!(a.book, b.book);
    assert_eq!(a.orders, b.orders);
    assert_eq!(a.dark_orders, b.dark_orders);
    assert_eq!(a.matches, b.matches);
    assert_eq!(a.dark_matches, b.dark_matches);
}

#[test]
fn gen_id_follows_the_sequence_within_a_millisecond() {
    let mut state = None;
    let first = gen_id(&mut state);
    // a new generator last read the clock as 0, so its first id starts the sequence
    assert_eq!(first & 0xfff, 0);
    let mut prev = first;
    for _ in 0..2000 {
        let id = gen_id(&mut state);
        assert_ne!(id, prev);
        assert_eq!(id & 0x3ff000, 0x41000);
        if id >> 22 == prev >> 22 {
            assert_eq!(id & 0xfff, ((prev & 0xfff) + 1) % 4096);
        } else {
            assert_eq!(id & 0xfff, 0);
        }
        prev = id;
    }
}
