//! What each rule of the game does, stated over its inputs: which orders are
//! refused, how a trade counts for a trader, what a placed order carries,
//! how trades are marked for a trader, and how lists fill the screen's
//! tables.

use vstd::prelude::*;
use crate::types::{Match, Order, OrderReq, OrderType, Request, TraderStatus, VisibleOrder, opposite};
use crate::priority::sort_ranked;
use crate::sorting::lemma_sort_ranked;
use crate::book::{BookView, after_add, queue_of, sweep};
use crate::game::{
    ExchangeView, Step, MAX_ORDERS, MAX_ORDER_SIZE, MIN_PRICE, refuses, recounted, recount_overflows,
    registered, served, response_spec, lemma_counts_monotone, trade_count, qty_towards, qty_against,
};
use crate::display::{MIN_ROWS, larger, rows_of};
use crate::game::shown;
use crate::game_laws::{present, unique_ids, lemma_in_filter, lemma_trader_orders_cover, lemma_push_lookup, lemma_drop_unique};
use crate::game::{lookup, TOTAL_SHARES};
use crate::book::book_holds;
use crate::display::{decimal, pretty, verb, order_line, order_list, LINE_HEAD, LIST_HEAD};

verus! {

/// An order is refused when any one rule is broken: it is against the
/// trader's goal and the shares already traded against the goal plus its
/// quantity exceed the tolerance; it is on the goal side and the goal is
/// reached; the trader took part in `MAX_ORDERS` trades or more; its price
/// is at most one cent; or its quantity exceeds `MAX_ORDER_SIZE`. When no
/// rule is broken it is accepted.
pub proof fn law_refusal_rules(user: TraderStatus, req: OrderReq)
    ensures
        req.kind != user.goal && user.opp + req.qty > user.tolerance ==> refuses(user, req),
        req.kind == user.goal && user.done >= user.amount ==> refuses(user, req),
        user.orders >= MAX_ORDERS ==> refuses(user, req),
        req.price <= MIN_PRICE ==> refuses(user, req),
        req.qty > MAX_ORDER_SIZE ==> refuses(user, req),
        !(req.kind != user.goal && user.opp + req.qty > user.tolerance) && !(req.kind == user.goal
            && user.done >= user.amount) && user.orders < MAX_ORDERS && req.price > MIN_PRICE && req.qty
            <= MAX_ORDER_SIZE ==> !refuses(user, req),
{
}

/// Refusal against the goal grows with what was already traded against it:
/// an order refused at `opp` is refused at any larger `opp`.
pub proof fn law_refusal_grows_with_opp(user: TraderStatus, req: OrderReq, more: u64)
    requires
        refuses(user, req),
        more >= user.opp,
    ensures
        ({ refuses(TraderStatus { opp: more, ..user }, req) }),
{
}

/// Recounting from no trades gives zero counters and keeps the goal and the
/// limits.
pub proof fn law_recount_of_no_trades(st: TraderStatus, tid: i64)
    ensures
        ({ recounted(st, tid, Seq::empty()) == TraderStatus { orders: 0, done: 0, opp: 0, ..st } }),
{
}

/// One more trade `m` changes the recount of the trader `tid` so: a trade it
/// took part in adds one to `orders`; one where it sold (and did not buy)
/// adds the quantity to `done` if its goal is to sell, else to `opp`; one
/// where it bought (and did not sell) adds the quantity to `done` if its
/// goal is to buy, else to `opp`; a trade with itself on both sides, or
/// without it, adds no shares.
pub proof fn law_recount_one_more_trade(st: TraderStatus, tid: i64, ms: Seq<Match>, m: Match)
    requires
        !recount_overflows(st, tid, ms.push(m)),
    ensures
        !recount_overflows(st, tid, ms),
        ({
            let a = recounted(st, tid, ms);
            let b = recounted(st, tid, ms.push(m));
            let sold = m.seller == tid && m.buyer != tid;
            let bought = m.buyer == tid && m.seller != tid;
            &&& b.goal == st.goal && b.amount == st.amount && b.tolerance == st.tolerance
            &&& b.orders == a.orders + if m.buyer == tid || m.seller == tid { 1int } else { 0int }
            &&& b.done == a.done + if (sold && st.goal == OrderType::Ask) || (bought && st.goal
                == OrderType::Bid) {
                m.qty as int
            } else {
                0int
            }
            &&& b.opp == a.opp + if (sold && st.goal == OrderType::Bid) || (bought && st.goal
                == OrderType::Ask) {
                m.qty as int
            } else {
                0int
            }
        }),
{
    let all = ms.push(m);
    assert(all.drop_last() == ms);
    assert(all.last() == m);
    lemma_counts_monotone(all, tid, st.goal, ms.len() as int);
    assert(all.take(ms.len() as int) =~= ms);
    lemma_counts_monotone(ms, tid, st.goal, 0);
    assert(ms.take(0) =~= Seq::<Match>::empty());
    assert(trade_count(ms, tid) >= 0 && qty_towards(ms, tid, st.goal) >= 0 && qty_against(ms, tid, st.goal) >= 0);
}

/// Each trade shown to the trader `tid`, in the exchange's list and in the
/// dark pool's, is a trade of that book, most recent first, with its
/// quantity and price, marked as the trader's own exactly when the trader
/// bought or sold in it.
pub proof fn law_trades_marked_by_party(lob: BookView, dark: BookView, tid: i64, status: TraderStatus)
    ensures
        ({
            let r = response_spec(lob, dark, tid, status);
            let n = lob.matches.len();
            let d = dark.matches.len();
            &&& r.2.len() == n
            &&& forall|k: int|
                0 <= k < n ==> #[trigger] r.2[k] == VisibleOrder {
                    qty: lob.matches[n - 1 - k].qty,
                    price: lob.matches[n - 1 - k].price,
                    mine: lob.matches[n - 1 - k].buyer == tid || lob.matches[n - 1 - k].seller == tid,
                }
            &&& r.4.len() == d
            &&& forall|k: int|
                0 <= k < d ==> #[trigger] r.4[k] == VisibleOrder {
                    qty: dark.matches[d - 1 - k].qty,
                    price: dark.matches[d - 1 - k].price,
                    mine: dark.matches[d - 1 - k].buyer == tid || dark.matches[d - 1 - k].seller == tid,
                }
        }),
{
}

/// The list `v` shown in `n` rows: one row per entry, in order, while rows
/// last (with the trader's mark cleared unless `keep_mine`), then empty rows.
pub proof fn law_rows_show_each_entry(v: Seq<VisibleOrder>, n: nat, keep_mine: bool)
    ensures
        rows_of(v, n as int, keep_mine).len() == n,
        ({
            forall|i: int|
                0 <= i < n && i < v.len() ==> #[trigger] rows_of(v, n as int, keep_mine)[i] == Some(
                    VisibleOrder { mine: v[i].mine && keep_mine, ..v[i] },
                )
        }),
        ({ forall|i: int| v.len() <= i < n ==> (#[trigger] rows_of(v, n as int, keep_mine)[i] is None) }),
{
    assert forall|i: int| 0 <= i < n && i < v.len() implies #[trigger] rows_of(v, n as int, keep_mine)[i] == Some(
        VisibleOrder { mine: v[i].mine && keep_mine, ..v[i] },
    ) by {
        if keep_mine {
            assert(VisibleOrder { mine: v[i].mine && keep_mine, ..v[i] } == v[i]);
        }
    }
}

/// The screen's tables show every entry of their lists, each in its own
/// row and in order: the book tables are as long as the longer side (at
/// least `MIN_ROWS`), the exchange's trades get at least as many rows, and
/// the dark pool's trades, shown without the trader's mark, at least
/// `MIN_ROWS`.
pub proof fn law_tables_show_every_entry(
    bids: Seq<VisibleOrder>,
    asks: Seq<VisibleOrder>,
    matches: Seq<VisibleOrder>,
    dark_matches: Seq<VisibleOrder>,
)
    ensures
        ({
            let book_rows = larger(larger(bids.len() as int, asks.len() as int), MIN_ROWS as int);
            let match_rows = larger(book_rows, matches.len() as int);
            let dark_rows = larger(MIN_ROWS as int, dark_matches.len() as int);
            &&& book_rows >= bids.len() && book_rows >= asks.len() && book_rows >= MIN_ROWS
            &&& match_rows >= matches.len() && dark_rows >= dark_matches.len()
            &&& forall|i: int| 0 <= i < bids.len() ==> #[trigger] rows_of(bids, book_rows, true)[i] == Some(bids[i])
            &&& forall|i: int| 0 <= i < asks.len() ==> #[trigger] rows_of(asks, book_rows, true)[i] == Some(asks[i])
            &&& forall|i: int|
                0 <= i < matches.len() ==> #[trigger] rows_of(matches, match_rows, true)[i] == Some(matches[i])
            &&& forall|i: int|
                0 <= i < dark_matches.len() ==> #[trigger] rows_of(dark_matches, dark_rows, false)[i] == Some(
                    VisibleOrder { mine: false, ..dark_matches[i] },
                )
        }),
{
    let book_rows = larger(larger(bids.len() as int, asks.len() as int), MIN_ROWS as int);
    let match_rows = larger(book_rows, matches.len() as int);
    let dark_rows = larger(MIN_ROWS as int, dark_matches.len() as int);
    law_rows_show_each_entry(bids, book_rows as nat, true);
    law_rows_show_each_entry(asks, book_rows as nat, true);
    law_rows_show_each_entry(matches, match_rows as nat, true);
    law_rows_show_each_entry(dark_matches, dark_rows as nat, false);
    assert forall|i: int| 0 <= i < bids.len() implies #[trigger] rows_of(bids, book_rows, true)[i] == Some(bids[i]) by {
        assert(VisibleOrder { mine: bids[i].mine && true, ..bids[i] } == bids[i]);
    }
    assert forall|i: int| 0 <= i < asks.len() implies #[trigger] rows_of(asks, book_rows, true)[i] == Some(asks[i]) by {
        assert(VisibleOrder { mine: asks[i].mine && true, ..asks[i] } == asks[i]);
    }
    assert forall|i: int| 0 <= i < matches.len() implies #[trigger] rows_of(matches, match_rows, true)[i] == Some(
        matches[i],
    ) by {
        assert(VisibleOrder { mine: matches[i].mine && true, ..matches[i] } == matches[i]);
    }
}

/// The resting orders of `rest` are all out of reach of `order`: asks
/// priced above a bid, bids priced below an ask.
pub open spec fn out_of_reach(order_kind: OrderType, price: i64, rest: Seq<Order>) -> bool {
    forall|k: int|
        0 <= k < rest.len() ==> match order_kind {
            OrderType::Bid => (#[trigger] rest[k]).price > price,
            OrderType::Ask => rest[k].price < price,
        }
}

/// An order that no resting order of the other side reaches trades nothing:
/// its queue is left as it came in.
proof fn lemma_sweep_out_of_reach(order: Order, queue: Seq<Order>, rest: Seq<Order>, fills: Seq<Match>)
    requires
        out_of_reach(order.otype, order.price, rest),
    ensures
        sweep(order, queue, rest, fills).0 == queue,
    decreases rest.len(),
{
    if rest.len() > 0 {
        let t = rest.drop_first();
        assert(rest[0].price > order.price || rest[0].price < order.price);
        assert(out_of_reach(order.otype, order.price, t)) by {
            assert forall|k: int| 0 <= k < t.len() implies #[trigger] t[k] == rest[k + 1] by {}
        }
        lemma_sweep_out_of_reach(order, queue, t, fills);
    }
}

/// An order placed for a request, when no resting order of the other side
/// of its book reaches its price, rests in its book on its own side, in
/// full, carrying the request's side, price, quantity and hidden flag, the
/// trader's id, the time the request came in and the id it was given.
pub proof fn law_placed_order_rests_as_requested(
    e: ExchangeView,
    tid: i64,
    o: OrderReq,
    now: u128,
    id: i64,
    in_dark: bool,
)
    requires
        out_of_reach(o.kind, o.price, queue_of(if in_dark { e.dark } else { e.lob }, opposite(o.kind))),
    ensures
        ({
            let req = if in_dark { Request::DarkpoolOrder(o) } else { Request::ExchangeOrder(o) };
            let r = served(registered(e, tid), tid, req, now, id);
            let book = if in_dark { r.1.dark } else { r.1.lob };
            r.0 == Step::Placed(id) ==> queue_of(book, o.kind).contains(
                Order { otype: o.kind, price: o.price, trader: tid, qty: o.qty, time: now, id: id, hidden: o.hidden },
            )
        }),
{
    let x = Order { otype: o.kind, price: o.price, trader: tid, qty: o.qty, time: now, id: id, hidden: o.hidden };
    let e1 = registered(e, tid);
    let b = if in_dark { e1.dark } else { e1.lob };
    let q = queue_of(b, o.kind).push(x);
    lemma_sort_ranked(o.kind, q);
    broadcast use vstd::seq_lib::group_to_multiset_ensures;
    assert(q[q.len() - 1] == x);
    assert(q.contains(x));
    assert(q.to_multiset().count(x) > 0);
    assert(sort_ranked(o.kind, q).to_multiset().count(x) > 0);
    assert(sort_ranked(o.kind, q).contains(x));
    lemma_sweep_out_of_reach(x, sort_ranked(o.kind, q), queue_of(b, opposite(o.kind)), b.matches);
    let a = after_add(b, x);
    assert(queue_of(a, o.kind) == sort_ranked(o.kind, q)) by {
        match o.kind {
            OrderType::Bid => {},
            OrderType::Ask => {},
        }
    }
}

/// The public book that the trader `tid` is shown lists, side by side,
/// every resting order of the exchange that is not hidden and no other, in
/// the book's order, each with its quantity and price and marked as the
/// trader's own exactly when it is; and the trader's order lists hold every
/// order of its own in each book.
pub proof fn law_book_shows_visible_orders(lob: BookView, dark: BookView, tid: i64, status: TraderStatus)
    ensures
        ({
            let r = response_spec(lob, dark, tid, status);
            let bids = lob.buy.filter(shown());
            let asks = lob.sell.filter(shown());
            &&& r.0.len() == bids.len()
            &&& r.1.len() == asks.len()
            &&& forall|k: int|
                0 <= k < bids.len() ==> #[trigger] r.0[k] == VisibleOrder {
                    qty: bids[k].qty,
                    price: bids[k].price,
                    mine: bids[k].trader == tid,
                }
            &&& forall|k: int|
                0 <= k < asks.len() ==> #[trigger] r.1[k] == VisibleOrder {
                    qty: asks[k].qty,
                    price: asks[k].price,
                    mine: asks[k].trader == tid,
                }
            &&& forall|o: Order| #[trigger] lob.buy.contains(o) && !o.hidden ==> bids.contains(o)
            &&& forall|o: Order| #[trigger] lob.sell.contains(o) && !o.hidden ==> asks.contains(o)
            &&& forall|o: Order| #[trigger] present(lob, o) && o.trader == tid ==> r.3.contains(o)
            &&& forall|o: Order| #[trigger] present(dark, o) && o.trader == tid ==> r.5.contains(o)
        }),
{
    assert forall|o: Order| #[trigger] lob.buy.contains(o) && !o.hidden implies lob.buy.filter(shown()).contains(o) by {
        lemma_in_filter(lob.buy, shown(), o);
    }
    assert forall|o: Order| #[trigger] lob.sell.contains(o) && !o.hidden implies lob.sell.filter(shown()).contains(o) by {
        lemma_in_filter(lob.sell, shown(), o);
    }
    assert forall|o: Order| #[trigger] present(lob, o) && o.trader == tid implies response_spec(lob, dark, tid, status).3.contains(o) by {
        lemma_trader_orders_cover(lob, tid, o);
    }
    assert forall|o: Order| #[trigger] present(dark, o) && o.trader == tid implies response_spec(lob, dark, tid, status).5.contains(o) by {
        lemma_trader_orders_cover(dark, tid, o);
    }
}

/// A trader that sends its first request is registered with a goal opposite
/// to that of the trader before it, the full amount of shares to trade, a
/// tenth of it as tolerance, and nothing counted yet.
pub proof fn law_newcomer_status(e: ExchangeView, tid: i64)
    requires
        lookup(e.users, tid) is None,
    ensures
        ({
            let e1 = registered(e, tid);
            &&& lookup(e1.users, tid) == Some(
                TraderStatus {
                    goal: opposite(e.prev),
                    amount: TOTAL_SHARES,
                    tolerance: (TOTAL_SHARES / 10) as u64,
                    orders: 0,
                    done: 0,
                    opp: 0,
                },
            )
            &&& e1.prev == opposite(e.prev)
            &&& e1.lob == e.lob && e1.dark == e.dark
        }),
{
    lemma_push_lookup(e.users, tid, crate::game::fresh_status(e.prev));
}

/// A cancel withdraws from the exchange book exactly the order with the
/// given id, where the book holds one (ids being unique), and leaves the
/// dark pool and the trades alone; a cancel of an id that the book does not
/// hold cannot be served and changes nothing.
pub proof fn law_cancel_withdraws_the_order(e: ExchangeView, tid: i64, cid: i64, now: u128, id: i64)
    requires
        unique_ids(e.lob),
    ensures
        ({
            let e1 = registered(e, tid);
            let r = served(e1, tid, Request::Cancel(cid), now, id);
            &&& book_holds(e.lob, cid) ==> {
                &&& r.0 == Step::Done
                &&& r.1.dark == e.dark
                &&& r.1.lob.matches == e.lob.matches
                &&& forall|o: Order| #[trigger] present(r.1.lob, o) <==> present(e.lob, o) && o.id != cid
            }
            &&& !book_holds(e.lob, cid) ==> r.0 == Step::Fault && r.1 == e1
        }),
{
    if book_holds(e.lob, cid) {
        lemma_drop_unique(e.lob, cid);
    }
}

/// The value of the decimal digit `c`.
pub open spec fn digit_value(c: char) -> int {
    if c == '1' {
        1
    } else if c == '2' {
        2
    } else if c == '3' {
        3
    } else if c == '4' {
        4
    } else if c == '5' {
        5
    } else if c == '6' {
        6
    } else if c == '7' {
        7
    } else if c == '8' {
        8
    } else if c == '9' {
        9
    } else {
        0
    }
}

/// `c` is a decimal digit.
pub open spec fn is_digit(c: char) -> bool {
    c == '0' || c == '1' || c == '2' || c == '3' || c == '4' || c == '5' || c == '6' || c == '7' || c == '8'
        || c == '9'
}

/// The number that the digits `s` spell, read left to right.
pub open spec fn value_of(s: Seq<char>) -> int
    decreases s.len(),
{
    if s.len() == 0 {
        0
    } else {
        value_of(s.drop_last()) * 10 + digit_value(s.last())
    }
}

/// The decimal notation of `n` is made of digits, reads back as `n`, and
/// starts with a zero only for zero itself.
pub proof fn law_decimal_reads_back(n: nat)
    ensures
        decimal(n).len() > 0,
        forall|i: int| 0 <= i < decimal(n).len() ==> is_digit(#[trigger] decimal(n)[i]),
        value_of(decimal(n)) == n,
        decimal(n)[0] == '0' ==> n == 0,
    decreases n,
{
    if n >= 10 {
        law_decimal_reads_back(n / 10);
        let d = decimal(n / 10);
        let s = decimal(n);
        assert(s == d.push(crate::display::digit_char((n % 10) as int)));
        assert(s.drop_last() =~= d);
        assert forall|i: int| 0 <= i < s.len() implies is_digit(#[trigger] s[i]) by {
            if i < d.len() {
                assert(s[i] == d[i]);
            }
        }
        assert(s[0] == d[0]);
        assert(s.last() == crate::display::digit_char((n % 10) as int));
        assert(digit_value(crate::display::digit_char((n % 10) as int)) == n % 10);
        assert(n == (n / 10) * 10 + n % 10);
        assert(value_of(s) == value_of(d) * 10 + digit_value(s.last()));
        assert(value_of(d) * 10 == (n / 10) * 10);
    } else {
        let s = decimal(n);
        assert(s.drop_last() =~= Seq::<char>::empty());
        assert(digit_value(crate::display::digit_char(n as int)) == n);
        assert(value_of(s) == value_of(s.drop_last()) * 10 + digit_value(s.last()));
    }
}

/// A share count is shown in full below a thousand, in whole thousands
/// followed by `k` below a million, and in whole millions followed by `M`
/// from a million on.
pub proof fn law_pretty_counts(x: u64)
    ensures
        x < 1000 ==> value_of(pretty(x)) == x,
        1000 <= x < 1_000_000 ==> pretty(x).last() == 'k' && value_of(pretty(x).drop_last()) == x / 1000,
        x >= 1_000_000 ==> pretty(x).last() == 'M' && value_of(pretty(x).drop_last()) == x / 1_000_000,
{
    law_decimal_reads_back(x as nat);
    law_decimal_reads_back((x / 1000) as nat);
    law_decimal_reads_back((x / 1_000_000) as nat);
    if 1000 <= x < 1_000_000 {
        assert(pretty(x).drop_last() =~= decimal((x / 1000) as nat));
    } else if x >= 1_000_000 {
        assert(pretty(x).drop_last() =~= decimal((x / 1_000_000) as nat));
    }
}

/// The status panel names the goal of buying as `buy` and that of selling
/// as `sell`, so the two sides never share a word.
pub proof fn law_verbs_name_sides()
    ensures
        verb(OrderType::Bid) == "buy"@,
        verb(OrderType::Ask) == "sell"@,
        verb(OrderType::Bid) != verb(OrderType::Ask),
{
    reveal_strlit("buy");
    reveal_strlit("sell");
    assert(verb(OrderType::Bid).len() != verb(OrderType::Ask).len());
}

/// The line of an order in a list: the close button, `SELL` for an ask or
/// `BUY` for a bid, its quantity in decimal, `AT` and the price text; in the
/// exchange's list then a space and `(hidden)` for a hidden order; and the
/// end of the line.
pub proof fn law_order_line_parts(o: Order, price: Seq<char>, show_hidden: bool)
    ensures
        order_line(o, price, show_hidden) == LINE_HEAD@ + (if o.otype == OrderType::Ask {
            "SELL"@
        } else {
            "BUY"@
        }) + " "@ + decimal(o.qty as nat) + " AT "@ + price + (if show_hidden && o.hidden {
            " (hidden)"@
        } else if show_hidden {
            " "@
        } else {
            ""@
        }) + "</div>"@,
{
    reveal_strlit(" (hidden)");
    reveal_strlit("(hidden)");
    reveal_strlit(" ");
    reveal_strlit("");
    let head = LINE_HEAD@ + (if o.otype == OrderType::Ask {
        "SELL"@
    } else {
        "BUY"@
    }) + " "@ + decimal(o.qty as nat) + " AT "@ + price;
    if show_hidden && o.hidden {
        assert(" "@ + "(hidden)"@ =~= " (hidden)"@);
    } else if show_hidden {
        assert(" "@ + ""@ =~= " "@);
    } else {
        assert(head + ""@ =~= head);
    }
}

/// The list reads only the price texts of its orders.
proof fn lemma_order_list_prices(os: Seq<Order>, prices: Seq<String>, more: Seq<String>, show_hidden: bool)
    requires
        os.len() <= prices.len(),
    ensures
        order_list(os, prices + more, show_hidden) == order_list(os, prices, show_hidden),
    decreases os.len(),
{
    if os.len() > 0 {
        let n = os.len() - 1;
        lemma_order_list_prices(os.take(n), prices, more, show_hidden);
        assert((prices + more)[n] == prices[n]);
    }
}

/// The list of no orders is its heading alone, and one more order adds its
/// line, then a line break, at the end: the lines come in the order of the
/// orders, each with its own price text.
pub proof fn law_order_list_lines(os: Seq<Order>, prices: Seq<String>, o: Order, price: String, show_hidden: bool)
    requires
        prices.len() == os.len(),
    ensures
        order_list(Seq::empty(), prices, show_hidden) == LIST_HEAD@,
        order_list(os.push(o), prices.push(price), show_hidden) == order_list(os, prices, show_hidden)
            + order_line(o, price@, show_hidden) + "\n"@,
{
    lemma_order_list_prices(os, prices, seq![price], show_hidden);
    assert(prices.push(price) =~= prices + seq![price]);
    assert(os.push(o).take(os.len() as int) =~= os);
    assert(prices.push(price)[os.len() as int] == price);
}

} // verus!
