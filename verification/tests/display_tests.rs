use exchange::display::{order_list_text, pretty_u64, status_words, table_layout, DONE_BADGE, MIN_ROWS};
use exchange::types::{Order, OrderType, TraderStatus, VisibleOrder};

#[test]
fn pretty_counts() {
    assert_eq!(pretty_u64(0), "0");
    assert_eq!(pretty_u64(7), "7");
    assert_eq!(pretty_u64(999), "999");
    assert_eq!(pretty_u64(1000), "1k");
    assert_eq!(pretty_u64(1500), "1k");
    assert_eq!(pretty_u64(100_000), "100k");
    assert_eq!(pretty_u64(999_999), "999k");
    assert_eq!(pretty_u64(1_000_000), "1M");
    assert_eq!(pretty_u64(25_700_000), "25M");
    assert_eq!(pretty_u64(u64::MAX), "18446744073709M");
}

fn v(qty: u64, mine: bool) -> VisibleOrder {
    VisibleOrder { qty, price: 1, mine }
}

#[test]
fn layout_pads_tables() {
    let bids = vec![v(1, true), v(2, false)];
    let asks = vec![v(3, false)];
    let matches: Vec<VisibleOrder> = (0..13).map(|i| v(i, i == 0)).collect();
    let dark = vec![v(9, true)];
    let t = table_layout(&bids, &asks, &matches, &dark);
    assert_eq!(t.bids.len(), MIN_ROWS);
    assert_eq!(t.asks.len(), MIN_ROWS);
    assert_eq!(t.bids[0], Some(v(1, true)));
    assert_eq!(t.bids[2], None);
    assert_eq!(t.asks[1], None);
    assert_eq!(t.matches.len(), 13);
    assert_eq!(t.matches[0], Some(v(0, true)));
    assert_eq!(t.dark_matches.len(), MIN_ROWS);
    assert_eq!(t.dark_matches[0], Some(v(9, false)));
}

#[test]
fn layout_grows_with_the_longer_side() {
    let bids: Vec<VisibleOrder> = (0..15).map(|i| v(i, false)).collect();
    let asks = vec![];
    let t = table_layout(&bids, &asks, &vec![], &vec![]);
    assert_eq!(t.bids.len(), 15);
    assert_eq!(t.asks.len(), 15);
    assert_eq!(t.matches.len(), 15);
    assert_eq!(t.dark_matches.len(), MIN_ROWS);
}

fn status(goal: OrderType, done: u64, opp: u64) -> TraderStatus {
    TraderStatus { goal, amount: 100, tolerance: 10, orders: 0, done, opp }
}

#[test]
fn status_words_of_a_trader_on_its_way() {
    let w = status_words(&status(OrderType::Bid, 99, 9));
    assert_eq!(w.done_badge, "");
    assert_eq!(w.goal_verb, "buy");
    assert_eq!(w.other_verb, "sell");
    assert_eq!(w.progress_colour, "inherit");
    assert_eq!(w.opp_colour, "inherit");
}

#[test]
fn status_words_of_a_finished_trader_past_its_tolerance() {
    let w = status_words(&status(OrderType::Ask, 100, 10));
    assert_eq!(w.done_badge, DONE_BADGE);
    assert_eq!(w.done_badge, "<code style='color: green; font-size: 12pt'>DONE</code>");
    assert_eq!(w.goal_verb, "sell");
    assert_eq!(w.other_verb, "buy");
    assert_eq!(w.progress_colour, "green");
    assert_eq!(w.opp_colour, "red");
}

fn order(otype: OrderType, qty: u64, hidden: bool) -> Order {
    Order { otype, price: 7, trader: 1, qty, time: 1, id: 1, hidden }
}

#[test]
fn order_lists() {
    let orders = vec![order(OrderType::Ask, 250, true), order(OrderType::Bid, 3, false)];
    let prices = vec![String::from("1.5"), String::from("0.02")];
    let head = "<div><button class='close-button' type='button' data-close><span aria-hidden='true'>&times;</span></button>&nbsp; ";
    assert_eq!(
        order_list_text(&orders, &prices, true),
        format!("<b>My orders:</b><br>{head}SELL 250 AT 1.5 (hidden)</div>\n{head}BUY 3 AT 0.02 </div>\n")
    );
    assert_eq!(
        order_list_text(&orders, &prices, false),
        format!("<b>My orders:</b><br>{head}SELL 250 AT 1.5</div>\n{head}BUY 3 AT 0.02</div>\n")
    );
    assert_eq!(order_list_text(&vec![], &vec![], true), "<b>My orders:</b><br>");
}
