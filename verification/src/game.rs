//! The trading game played on an exchange book and a dark pool: each trader
//! gets a goal, may only place orders that fit it, and loses the orders that
//! no longer fit once a limit is reached.

use vstd::prelude::*;
use crate::types::{
    Order, OrderType, OrderReq, Match, Request, TraderStatus, VisibleOrder, Response, opposite,
};
use crate::book::{Book, BookView, after_add, after_drop, book_holds};
use crate::ids::{gen_id, IdGenerator, next_id};

verus! {

/// Most trades a trader may take part in before further orders are refused.
pub const MAX_ORDERS: u64 = 200;

/// Largest quantity of a single order.
pub const MAX_ORDER_SIZE: u64 = 50_000;

/// Shares a trader has to trade towards the goal.
pub const TOTAL_SHARES: u64 = 1_000_000;

/// Orders must be priced above this price key: that of `0.01`, one cent.
pub const MIN_PRICE: i64 = 0x3f84_7ae1_47ae_147b;

/// A trader's id and status.
pub type Trader = (i64, TraderStatus);

/// The state of the game: the exchange book, the dark pool, the traders in
/// the order they arrived, and the goal given to the latest of them.
pub struct Exchange {
    pub lob: Book,
    pub dark: Book,
    pub users: Vec<Trader>,
    pub prev: OrderType,
}

/// The contents of an `Exchange`.
pub struct ExchangeView {
    pub lob: BookView,
    pub dark: BookView,
    pub users: Seq<Trader>,
    pub prev: OrderType,
}

impl View for Exchange {
    type V = ExchangeView;

    open spec fn view(&self) -> ExchangeView {
        ExchangeView { lob: self.lob@, dark: self.dark@, users: self.users@, prev: self.prev }
    }
}

/// What became of a request.
#[derive(Debug, PartialEq, Eq, Structural, Clone, Copy)]
pub enum Step {
    /// The order does not fit the trader's goal or the limits: nothing is
    /// stored or sent.
    Refused,
    /// The order was placed with this id.
    Placed(i64),
    /// The request was served.
    Done,
    /// The request cannot be served: the server stops.
    Fault,
}

/// The status of a newly arrived trader, when the previous one got the goal
/// `prev`: goals alternate between buying and selling.
pub open spec fn fresh_status(prev: OrderType) -> TraderStatus {
    TraderStatus {
        goal: opposite(prev),
        amount: TOTAL_SHARES,
        tolerance: (TOTAL_SHARES / 10) as u64,
        orders: 0,
        done: 0,
        opp: 0,
    }
}

/// Checking `req` against `user` overflows: the quantity of an order
/// against the goal, added to what the trader already traded against it,
/// does not fit in a `u64`.
pub open spec fn check_overflows(user: TraderStatus, req: OrderReq) -> bool {
    req.kind != user.goal && user.opp + req.qty > u64::MAX
}

/// `req` is refused for `user`: it would take the trader past the tolerance
/// against the goal, or the goal is already reached, or the trader took part
/// in too many trades, or the price is too low, or the order is too large.
pub open spec fn refuses(user: TraderStatus, req: OrderReq) -> bool {
    ||| (req.kind != user.goal && user.opp + req.qty > user.tolerance)
    ||| (req.kind == user.goal && user.done >= user.amount)
    ||| user.orders >= MAX_ORDERS
    ||| req.price <= MIN_PRICE
    ||| req.qty > MAX_ORDER_SIZE
}

/// The status of a newly arrived trader, when the previous one got the goal
/// `prev`.
pub fn new_trader(prev: OrderType) -> (s: TraderStatus)
    ensures
        s == fresh_status(prev),
{
    let goal = match prev {
        OrderType::Ask => OrderType::Bid,
        OrderType::Bid => OrderType::Ask,
    };
    TraderStatus { goal, amount: TOTAL_SHARES, tolerance: TOTAL_SHARES / 10, orders: 0, done: 0, opp: 0 }
}

/// Whether `req` is refused for `user`.
pub fn order_refused(user: &TraderStatus, req: &OrderReq) -> (r: bool)
    requires
        !check_overflows(*user, *req),
    ensures
        r == refuses(*user, *req),
{
    (req.kind != user.goal && user.opp + req.qty > user.tolerance) || (req.kind == user.goal && user.done
        >= user.amount) || (user.orders >= MAX_ORDERS) || (req.price <= MIN_PRICE) || (req.qty
        > MAX_ORDER_SIZE)
}

// ---------------------------------------------------------------------------
// Counting trades towards the goal

/// `tid` is a party to the trade `m`.
pub open spec fn involves(m: Match, tid: i64) -> bool {
    m.seller == tid || m.buyer == tid
}

/// The trade `m` moves the trader `tid` towards the goal `goal`: the trader
/// is on the goal side of it, and not on both sides.
pub open spec fn towards_goal(m: Match, tid: i64, goal: OrderType) -> bool {
    &&& involves(m, tid)
    &&& !(m.seller == tid && m.buyer == tid)
    &&& ((m.seller == tid && goal == OrderType::Ask) || (m.buyer == tid && goal == OrderType::Bid))
}

/// The trade `m` moves the trader `tid` against the goal `goal`.
pub open spec fn against_goal(m: Match, tid: i64, goal: OrderType) -> bool {
    &&& involves(m, tid)
    &&& !(m.seller == tid && m.buyer == tid)
    &&& !towards_goal(m, tid, goal)
}

/// Number of trades of `ms` that `tid` took part in.
pub open spec fn trade_count(ms: Seq<Match>, tid: i64) -> int
    decreases ms.len(),
{
    if ms.len() == 0 {
        0
    } else {
        trade_count(ms.drop_last(), tid) + if involves(ms.last(), tid) { 1int } else { 0int }
    }
}

/// Shares of the trades of `ms` that moved `tid` towards `goal`.
pub open spec fn qty_towards(ms: Seq<Match>, tid: i64, goal: OrderType) -> int
    decreases ms.len(),
{
    if ms.len() == 0 {
        0
    } else {
        qty_towards(ms.drop_last(), tid, goal) + if towards_goal(ms.last(), tid, goal) {
            ms.last().qty as int
        } else {
            0int
        }
    }
}

/// Shares of the trades of `ms` that moved `tid` against `goal`.
pub open spec fn qty_against(ms: Seq<Match>, tid: i64, goal: OrderType) -> int
    decreases ms.len(),
{
    if ms.len() == 0 {
        0
    } else {
        qty_against(ms.drop_last(), tid, goal) + if against_goal(ms.last(), tid, goal) {
            ms.last().qty as int
        } else {
            0int
        }
    }
}

/// Counting the trades of `ms` for `tid` overflows a `u64`.
pub open spec fn recount_overflows(st: TraderStatus, tid: i64, ms: Seq<Match>) -> bool {
    ||| trade_count(ms, tid) > u64::MAX
    ||| qty_towards(ms, tid, st.goal) > u64::MAX
    ||| qty_against(ms, tid, st.goal) > u64::MAX
}

/// The status of `tid` with its counters recomputed from the trades `ms`.
pub open spec fn recounted(st: TraderStatus, tid: i64, ms: Seq<Match>) -> TraderStatus {
    TraderStatus {
        orders: trade_count(ms, tid) as u64,
        done: qty_towards(ms, tid, st.goal) as u64,
        opp: qty_against(ms, tid, st.goal) as u64,
        ..st
    }
}

proof fn lemma_counts_step(ms: Seq<Match>, k: int)
    requires
        0 <= k < ms.len(),
    ensures
        ms.take(k + 1).drop_last() == ms.take(k),
        ms.take(k + 1).last() == ms[k],
{
    assert(ms.take(k + 1).drop_last() =~= ms.take(k));
}

pub(crate) proof fn lemma_counts_monotone(ms: Seq<Match>, tid: i64, goal: OrderType, k: int)
    requires
        0 <= k <= ms.len(),
    ensures
        0 <= trade_count(ms.take(k), tid) <= trade_count(ms, tid),
        0 <= qty_towards(ms.take(k), tid, goal) <= qty_towards(ms, tid, goal),
        0 <= qty_against(ms.take(k), tid, goal) <= qty_against(ms, tid, goal),
    decreases ms.len(),
{
    if k == ms.len() {
        assert(ms.take(k) =~= ms);
        if ms.len() > 0 {
            lemma_counts_monotone(ms.drop_last(), tid, goal, k - 1);
        }
    } else {
        lemma_counts_monotone(ms.drop_last(), tid, goal, k);
        assert(ms.drop_last().take(k) =~= ms.take(k));
        lemma_counts_monotone(ms.drop_last(), tid, goal, ms.len() - 1);
    }
}

/// The counters after one more trade `m`, or `None` if one overflows.
fn tally(m: &Match, tid: i64, goal: OrderType, orders: u64, done: u64, opp: u64) -> (r: Option<(u64, u64, u64)>)
    ensures
        ({
            let o2 = orders + if involves(*m, tid) { 1int } else { 0int };
            let d2 = done + if towards_goal(*m, tid, goal) { m.qty as int } else { 0int };
            let p2 = opp + if against_goal(*m, tid, goal) { m.qty as int } else { 0int };
            r == if o2 > u64::MAX || d2 > u64::MAX || p2 > u64::MAX {
                None::<(u64, u64, u64)>
            } else {
                Some((o2 as u64, d2 as u64, p2 as u64))
            }
        }),
{
    if m.seller == tid || m.buyer == tid {
        if orders == u64::MAX {
            return None;
        }
        if m.seller == tid && m.buyer == tid {
            Some((orders + 1, done, opp))
        } else if (m.seller == tid && goal == OrderType::Ask) || (m.buyer == tid && goal == OrderType::Bid) {
            match done.checked_add(m.qty) {
                Some(d) => Some((orders + 1, d, opp)),
                None => None,
            }
        } else {
            match opp.checked_add(m.qty) {
                Some(p) => Some((orders + 1, done, p)),
                None => None,
            }
        }
    } else {
        Some((orders, done, opp))
    }
}

/// The status `st` of the trader `tid` with its counters recomputed from
/// the trades `first` followed by `second`: `None` if a counter overflows.
pub fn recount_status(st: &TraderStatus, tid: i64, first: &Vec<Match>, second: &Vec<Match>) -> (r: Option<
    TraderStatus,
>)
    ensures
        r == (if recount_overflows(*st, tid, first@ + second@) {
            None
        } else {
            Some(recounted(*st, tid, first@ + second@))
        }),
{
    let ghost all = first@ + second@;
    let mut orders: u64 = 0;
    let mut done: u64 = 0;
    let mut opp: u64 = 0;
    let mut k: usize = 0;
    let mut from_first = true;
    assert(all.take(0) =~= Seq::<Match>::empty());
    // the trades are taken from `first`, then from `second`; `pos` is the
    // position in `all` of the next one
    let ghost mut pos: int = 0;
    loop
        invariant
            all == first@ + second@,
            from_first ==> 0 <= k <= first.len() && pos == k,
            !from_first ==> 0 <= k <= second.len() && pos == first.len() + k,
            0 <= pos <= all.len(),
            orders == trade_count(all.take(pos), tid),
            done == qty_towards(all.take(pos), tid, st.goal),
            opp == qty_against(all.take(pos), tid, st.goal),
        ensures
            pos == all.len(),
            orders == trade_count(all.take(pos), tid),
            done == qty_towards(all.take(pos), tid, st.goal),
            opp == qty_against(all.take(pos), tid, st.goal),
        decreases all.len() - pos, if from_first { 1int } else { 0int },
    {
        if from_first && k == first.len() {
            from_first = false;
            k = 0;
            continue;
        }
        if !from_first && k == second.len() {
            break;
        }
        let m = if from_first { first[k] } else { second[k] };
        assert(m == all[pos]);
        proof {
            lemma_counts_step(all, pos);
            lemma_counts_monotone(all, tid, st.goal, pos + 1);
        }
        match tally(&m, tid, st.goal, orders, done, opp) {
            Some(c) => {
                orders = c.0;
                done = c.1;
                opp = c.2;
            },
            None => {
                return None;
            },
        }
        k = k + 1;
        proof {
            pos = pos + 1;
        }
    }
    proof {
        assert(all.take(pos) =~= all);
    }
    Some(TraderStatus { orders, done, opp, ..*st })
}

// ---------------------------------------------------------------------------
// Withdrawing the orders that no longer fit

/// Orders of the trader `tid`.
pub open spec fn by_trader(tid: i64) -> spec_fn(Order) -> bool {
    |o: Order| o.trader == tid
}

/// Orders on the side opposite to `goal`.
pub open spec fn off_goal(goal: OrderType) -> spec_fn(Order) -> bool {
    |o: Order| o.otype != goal
}

/// The resting orders of `tid` in `b`: its bids, then its asks.
pub open spec fn trader_orders(b: BookView, tid: i64) -> Seq<Order> {
    b.buy.filter(by_trader(tid)) + b.sell.filter(by_trader(tid))
}

/// `b` after each order of `os` is withdrawn by its id, in turn; `None` if
/// one of them is no longer there.
pub open spec fn drop_all(b: BookView, os: Seq<Order>) -> Option<BookView>
    decreases os.len(),
{
    if os.len() == 0 {
        Some(b)
    } else if book_holds(b, os[0].id) {
        drop_all(after_drop(b, os[0].id), os.drop_first())
    } else {
        None
    }
}

/// Both books after the orders `os` and `dos` are withdrawn from them.
pub open spec fn drop_both(lob: BookView, dark: BookView, os: Seq<Order>, dos: Seq<Order>) -> Option<
    (BookView, BookView),
> {
    match drop_all(lob, os) {
        None => None,
        Some(l) => match drop_all(dark, dos) {
            None => None,
            Some(d) => Some((l, d)),
        },
    }
}

/// The books after the orders of `tid` that no longer fit its status `st`
/// are withdrawn: past the tolerance, its orders against the goal; with the
/// goal reached, all its orders. `None` if an order is withdrawn twice.
pub open spec fn enforce(lob: BookView, dark: BookView, tid: i64, st: TraderStatus) -> Option<
    (BookView, BookView),
> {
    let mine = trader_orders(lob, tid);
    let mine_dark = trader_orders(dark, tid);
    let first = if st.opp >= st.tolerance {
        drop_both(lob, dark, mine.filter(off_goal(st.goal)), mine_dark.filter(off_goal(st.goal)))
    } else {
        Some((lob, dark))
    };
    match first {
        None => None,
        Some(p) => if st.done >= st.amount {
            drop_both(p.0, p.1, mine, mine_dark)
        } else {
            Some(p)
        },
    }
}

/// The traders `users` with their counters recomputed from the trades `ms`,
/// and the books after each trader's orders that no longer fit are
/// withdrawn, trader by trader; `None` if a counter overflows or an order is
/// withdrawn twice.
pub open spec fn settle_from(users: Seq<Trader>, lob: BookView, dark: BookView, ms: Seq<Match>) -> Option<
    (Seq<Trader>, BookView, BookView),
>
    decreases users.len(),
{
    if users.len() == 0 {
        Some((users, lob, dark))
    } else {
        let tid = users[0].0;
        let st = users[0].1;
        if recount_overflows(st, tid, ms) {
            None
        } else {
            let st2 = recounted(st, tid, ms);
            match enforce(lob, dark, tid, st2) {
                None => None,
                Some(p) => match settle_from(users.drop_first(), p.0, p.1, ms) {
                    None => None,
                    Some(rest) => Some((seq![(tid, st2)] + rest.0, rest.1, rest.2)),
                },
            }
        }
    }
}

/// The game after a change of the books: every trader recounted from all
/// trades of both books, and the orders that no longer fit withdrawn.
pub open spec fn settled(e: ExchangeView) -> Option<ExchangeView> {
    match settle_from(e.users, e.lob, e.dark, e.lob.matches + e.dark.matches) {
        None => None,
        Some(r) => Some(ExchangeView { users: r.0, lob: r.1, dark: r.2, prev: e.prev }),
    }
}

/// The orders of `v` of the trader `tid`.
fn orders_by(v: &Vec<Order>, tid: i64) -> (res: Vec<Order>)
    ensures
        res@ == v@.filter(by_trader(tid)),
{
    let mut res: Vec<Order> = Vec::new();
    let mut i: usize = 0;
    while i < v.len()
        invariant
            0 <= i <= v.len(),
            res@ == v@.take(i as int).filter(by_trader(tid)),
        decreases v.len() - i,
    {
        proof {
            assert(v@.take(i + 1).drop_last() =~= v@.take(i as int));
            reveal(Seq::filter);
        }
        if v[i].trader == tid {
            res.push(v[i]);
        }
        i = i + 1;
    }
    proof {
        assert(v@.take(v.len() as int) =~= v@);
    }
    res
}

/// The orders of `v` against the goal `goal`.
fn orders_off_goal(v: &Vec<Order>, goal: OrderType) -> (res: Vec<Order>)
    ensures
        res@ == v@.filter(off_goal(goal)),
{
    let mut res: Vec<Order> = Vec::new();
    let mut i: usize = 0;
    while i < v.len()
        invariant
            0 <= i <= v.len(),
            res@ == v@.take(i as int).filter(off_goal(goal)),
        decreases v.len() - i,
    {
        proof {
            assert(v@.take(i + 1).drop_last() =~= v@.take(i as int));
            reveal(Seq::filter);
        }
        if v[i].otype != goal {
            res.push(v[i]);
        }
        i = i + 1;
    }
    proof {
        assert(v@.take(v.len() as int) =~= v@);
    }
    res
}

/// The resting orders of `tid` in `b`: its bids, then its asks.
pub fn orders_of_trader(b: &Book, tid: i64) -> (res: Vec<Order>)
    ensures
        res@ == trader_orders(b@, tid),
{
    let mut res = orders_by(&b.buy, tid);
    let mut asks = orders_by(&b.sell, tid);
    res.append(&mut asks);
    res
}

/// Withdraws the orders `os` from `b` by their ids, in turn. Returns
/// `false`, with `b` in some state, if one of them is no longer there.
fn drop_each(b: &mut Book, os: &Vec<Order>) -> (ok: bool)
    ensures
        ok == drop_all(old(b)@, os@) is Some,
        ok ==> final(b)@ == drop_all(old(b)@, os@)->0,
        final(b)@.matches == old(b)@.matches,
{
    let mut i: usize = 0;
    assert(os@.skip(0) =~= os@);
    while i < os.len()
        invariant
            0 <= i <= os.len(),
            drop_all(b@, os@.skip(i as int)) == drop_all(old(b)@, os@),
            b@.matches == old(b)@.matches,
        decreases os.len() - i,
    {
        let id = os[i].id;
        assert(os@.skip(i as int)[0] == os[i as int]);
        assert(os@.skip(i as int).drop_first() =~= os@.skip(i + 1));
        if !b.has_order(id) {
            return false;
        }
        b.drop_order(id);
        i = i + 1;
    }
    true
}

/// Withdraws the orders of `tid` that no longer fit its status `st` from
/// both books. Returns `false`, with the books in some state, if an order
/// is withdrawn twice.
fn enforce_limits(lob: &mut Book, dark: &mut Book, tid: i64, st: &TraderStatus) -> (ok: bool)
    ensures
        ok == enforce(old(lob)@, old(dark)@, tid, *st) is Some,
        ok ==> (final(lob)@, final(dark)@) == enforce(old(lob)@, old(dark)@, tid, *st)->0,
        final(lob)@.matches == old(lob)@.matches,
        final(dark)@.matches == old(dark)@.matches,
{
    let mine = orders_of_trader(lob, tid);
    let mine_dark = orders_of_trader(dark, tid);
    if st.opp >= st.tolerance {
        let off = orders_off_goal(&mine, st.goal);
        let off_dark = orders_off_goal(&mine_dark, st.goal);
        if !drop_each(lob, &off) {
            return false;
        }
        if !drop_each(dark, &off_dark) {
            return false;
        }
    }
    if st.done >= st.amount {
        if !drop_each(lob, &mine) {
            return false;
        }
        if !drop_each(dark, &mine_dark) {
            return false;
        }
    }
    true
}

/// Position of the first trader of `users` with the id `tid`
/// (`users.len()` if there is none).
pub open spec fn user_index(users: Seq<Trader>, tid: i64) -> int
    decreases users.len(),
{
    if users.len() == 0 {
        0
    } else if users[0].0 == tid {
        0
    } else {
        1 + user_index(users.drop_first(), tid)
    }
}

/// The status of the trader `tid`, if it has arrived.
pub open spec fn lookup(users: Seq<Trader>, tid: i64) -> Option<TraderStatus> {
    if user_index(users, tid) < users.len() {
        Some(users[user_index(users, tid)].1)
    } else {
        None
    }
}

pub proof fn lemma_user_index(users: Seq<Trader>, tid: i64)
    ensures
        0 <= user_index(users, tid) <= users.len(),
        forall|k: int| 0 <= k < user_index(users, tid) ==> (#[trigger] users[k]).0 != tid,
        user_index(users, tid) < users.len() ==> users[user_index(users, tid)].0 == tid,
    decreases users.len(),
{
    if users.len() > 0 && users[0].0 != tid {
        let t = users.drop_first();
        lemma_user_index(t, tid);
        assert forall|k: int| 0 <= k < user_index(users, tid) implies (#[trigger] users[k]).0 != tid by {
            if k > 0 {
                assert(users[k] == t[k - 1]);
            }
        }
    }
}

pub proof fn lemma_user_index_at(users: Seq<Trader>, tid: i64, i: int)
    requires
        0 <= i <= users.len(),
        forall|k: int| 0 <= k < i ==> (#[trigger] users[k]).0 != tid,
        i < users.len() ==> users[i].0 == tid,
    ensures
        user_index(users, tid) == i,
    decreases users.len(),
{
    if users.len() > 0 && i > 0 {
        let t = users.drop_first();
        assert forall|k: int| 0 <= k < i - 1 implies (#[trigger] t[k]).0 != tid by {
            assert(t[k] == users[k + 1]);
        }
        lemma_user_index_at(t, tid, i - 1);
    }
}

/// The state after the trader `tid` arrives: a newcomer is added with the
/// goal opposite to the previous newcomer's.
pub open spec fn registered(e: ExchangeView, tid: i64) -> ExchangeView {
    if lookup(e.users, tid) is Some {
        e
    } else {
        ExchangeView { users: e.users.push((tid, fresh_status(e.prev))), prev: fresh_status(e.prev).goal, ..e }
    }
}

/// The order placed for `req` by `tid` at `now`, with the id `id`.
pub open spec fn placed(req: OrderReq, tid: i64, now: u128, id: i64) -> Order {
    Order { otype: req.kind, price: req.price, trader: tid, qty: req.qty, time: now, id: id, hidden: req.hidden }
}

/// What serving `req` for the registered trader `tid` does, given the id
/// `id` that a placed order receives. The result is the step and the new
/// state; a fault changes nothing. An exchange order of quantity 15
/// that is not refused stops the server.
pub open spec fn served(e: ExchangeView, tid: i64, req: Request, now: u128, id: i64) -> (Step, ExchangeView) {
    let user = lookup(e.users, tid)->0;
    match req {
        Request::ExchangeOrder(o) => if check_overflows(user, o) {
            (Step::Fault, e)
        } else if refuses(user, o) {
            (Step::Refused, e)
        } else if o.qty == 15 {
            (Step::Fault, e)
        } else {
            (Step::Placed(id), ExchangeView { lob: after_add(e.lob, placed(o, tid, now, id)), ..e })
        },
        Request::DarkpoolOrder(o) => if check_overflows(user, o) {
            (Step::Fault, e)
        } else if refuses(user, o) {
            (Step::Refused, e)
        } else {
            (Step::Placed(id), ExchangeView { dark: after_add(e.dark, placed(o, tid, now, id)), ..e })
        },
        Request::Get => (Step::Done, e),
        Request::Cancel(cid) => if book_holds(e.lob, cid) {
            (Step::Done, ExchangeView { lob: after_drop(e.lob, cid), ..e })
        } else {
            (Step::Fault, e)
        },
    }
}

/// The trades of `ms`, most recent first, as the trader `tid` sees them.
pub open spec fn trades_seen(ms: Seq<Match>, tid: i64) -> Seq<VisibleOrder> {
    Seq::new(
        ms.len(),
        |i: int| VisibleOrder { qty: ms[ms.len() - 1 - i].qty, price: ms[ms.len() - 1 - i].price, mine: involves(ms[ms.len() - 1 - i], tid) },
    )
}

/// Orders shown in the public book.
pub open spec fn shown() -> spec_fn(Order) -> bool {
    |o: Order| !o.hidden
}

/// An order as the trader `tid` sees it.
pub open spec fn seen_by(tid: i64) -> spec_fn(Order) -> VisibleOrder {
    |o: Order| VisibleOrder { qty: o.qty, price: o.price, mine: o.trader == tid }
}

/// The visible orders of `s`, as the trader `tid` sees them.
pub open spec fn book_seen(s: Seq<Order>, tid: i64) -> Seq<VisibleOrder> {
    s.filter(shown()).map_values(seen_by(tid))
}

/// The visible orders of `v`, as the trader `tid` sees them.
fn visible_orders(v: &Vec<Order>, tid: i64) -> (res: Vec<VisibleOrder>)
    ensures
        res@ == book_seen(v@, tid),
{
    let mut res: Vec<VisibleOrder> = Vec::new();
    let mut i: usize = 0;
    while i < v.len()
        invariant
            0 <= i <= v.len(),
            res@ == v@.take(i as int).filter(shown()).map_values(seen_by(tid)),
        decreases v.len() - i,
    {
        let ghost before = res@;
        proof {
            assert(v@.take(i + 1).drop_last() =~= v@.take(i as int));
            reveal(Seq::filter);
        }
        let o = v[i];
        if !o.hidden {
            res.push(VisibleOrder { qty: o.qty, price: o.price, mine: o.trader == tid });
            assert(res@ =~= v@.take(i + 1).filter(shown()).map_values(seen_by(tid)));
        } else {
            assert(res@ =~= v@.take(i + 1).filter(shown()).map_values(seen_by(tid)));
        }
        i = i + 1;
    }
    proof {
        assert(v@.take(v.len() as int) =~= v@);
    }
    res
}

/// The trades of `v`, most recent first, as the trader `tid` sees them.
fn visible_trades(v: &Vec<Match>, tid: i64) -> (res: Vec<VisibleOrder>)
    ensures
        res@ == trades_seen(v@, tid),
{
    let mut res: Vec<VisibleOrder> = Vec::new();
    let mut i: usize = v.len();
    while i > 0
        invariant
            0 <= i <= v.len(),
            res.len() == v.len() - i,
            forall|k: int| 0 <= k < res.len() ==> #[trigger] res@[k] == trades_seen(v@, tid)[k],
        decreases i,
    {
        i = i - 1;
        let m = v[i];
        res.push(VisibleOrder { qty: m.qty, price: m.price, mine: m.seller == tid || m.buyer == tid });
    }
    assert(res@ =~= trades_seen(v@, tid));
    res
}

/// What the trader `tid`, with status `status`, is shown of the exchange
/// book `lob` and the dark pool `dark`.
pub open spec fn response_spec(lob: BookView, dark: BookView, tid: i64, status: TraderStatus) -> (
    Seq<VisibleOrder>,
    Seq<VisibleOrder>,
    Seq<VisibleOrder>,
    Seq<Order>,
    Seq<VisibleOrder>,
    Seq<Order>,
) {
    (
        book_seen(lob.buy, tid),
        book_seen(lob.sell, tid),
        trades_seen(lob.matches, tid),
        trader_orders(lob, tid),
        trades_seen(dark.matches, tid),
        trader_orders(dark, tid),
    )
}

/// What the trader `tid`, with status `status`, is shown: the visible
/// orders of the exchange book, the trades of both books most recent first
/// (marking the trader's own), and the trader's resting orders in each book.
pub fn build_response(lob: &Book, dark: &Book, tid: i64, status: TraderStatus) -> (r: Response)
    ensures
        (r.book.0@, r.book.1@, r.matches@, r.orders@, r.dark_matches@, r.dark_orders@)
            == response_spec(lob@, dark@, tid, status),
        r.status == status,
{
    Response {
        book: (visible_orders(&lob.buy, tid), visible_orders(&lob.sell, tid)),
        matches: visible_trades(&lob.matches, tid),
        orders: orders_of_trader(lob, tid),
        dark_matches: visible_trades(&dark.matches, tid),
        dark_orders: orders_of_trader(dark, tid),
        status,
    }
}

/// The traders of `users` have distinct ids.
pub open spec fn distinct_users(users: Seq<Trader>) -> bool {
    forall|i: int, j: int| 0 <= i < j < users.len() ==> (#[trigger] users[i]).0 != (#[trigger] users[j]).0
}

/// Settling keeps the traders, in their order.
proof fn lemma_settle_keeps_ids(users: Seq<Trader>, lob: BookView, dark: BookView, ms: Seq<Match>)
    ensures
        settle_from(users, lob, dark, ms) is Some ==> ({
            let r = settle_from(users, lob, dark, ms)->0;
            &&& r.0.len() == users.len()
            &&& forall|k: int| 0 <= k < users.len() ==> (#[trigger] r.0[k]).0 == users[k].0
        }),
    decreases users.len(),
{
    if users.len() > 0 {
        let tid = users[0].0;
        let st2 = recounted(users[0].1, tid, ms);
        match enforce(lob, dark, tid, st2) {
            Some(p) => {
                lemma_settle_keeps_ids(users.drop_first(), p.0, p.1, ms);
                if settle_from(users, lob, dark, ms) is Some {
                    let r = settle_from(users, lob, dark, ms)->0;
                    let rest = settle_from(users.drop_first(), p.0, p.1, ms)->0;
                    assert forall|k: int| 0 <= k < users.len() implies (#[trigger] r.0[k]).0 == users[k].0 by {
                        if k > 0 {
                            assert(r.0[k] == rest.0[k - 1]);
                            assert(users.drop_first()[k - 1] == users[k]);
                        }
                    }
                }
            },
            None => {},
        }
    }
}

impl Exchange {
    /// A game on the books `lob` and `dark`, with no trader yet. The first
    /// trader will be given the goal to buy.
    pub fn new(lob: Book, dark: Book) -> (e: Self)
        ensures
            e@ == (ExchangeView { lob: lob@, dark: dark@, users: Seq::empty(), prev: OrderType::Ask }),
    {
        Exchange { lob, dark, users: Vec::new(), prev: OrderType::Ask }
    }

    /// The status of the trader `tid`, if it has arrived.
    pub fn status_of(&self, tid: i64) -> (r: Option<TraderStatus>)
        ensures
            r == lookup(self@.users, tid),
    {
        let mut i: usize = 0;
        while i < self.users.len()
            invariant
                0 <= i <= self.users.len(),
                forall|k: int| 0 <= k < i ==> (#[trigger] self.users@[k]).0 != tid,
            decreases self.users.len() - i,
        {
            if self.users[i].0 == tid {
                proof {
                    lemma_user_index_at(self.users@, tid, i as int);
                }
                return Some(self.users[i].1);
            }
            i = i + 1;
        }
        proof {
            lemma_user_index_at(self.users@, tid, i as int);
        }
        None
    }

    /// Serves the request `req` of the trader `tid`, received at time `now`
    /// (in nanoseconds): registers the trader if new, then places, refuses
    /// or cancels. A placed order gets the next id of the generator in
    /// `ids`; otherwise `ids` is left as it was.
    pub fn apply_request(&mut self, tid: i64, req: Request, now: u128, ids: &mut Option<IdGenerator>) -> (r: Step)
        requires
            distinct_users(old(self)@.users),
        ensures
            distinct_users(final(self)@.users),
            ({
                let e1 = registered(old(self)@, tid);
                let id = match r {
                    Step::Placed(i) => i,
                    _ => 0,
                };
                let s = served(e1, tid, req, now, id);
                &&& r == s.0
                &&& final(self)@ == s.1
            }),
            r matches Step::Placed(id) ==> next_id(*old(ids), *final(ids), id),
            !(r is Placed) ==> *final(ids) == *old(ids),
    {
        let user = match self.status_of(tid) {
            Some(u) => u,
            None => {
                let st = new_trader(self.prev);
                self.users.push((tid, st));
                self.prev = st.goal;
                proof {
                    lemma_user_index(old(self).users@, tid);
                    assert forall|k: int| 0 <= k < self.users@.len() - 1 implies (#[trigger] self.users@[k]).0 != tid by {
                        assert(self.users@[k] == old(self).users@[k]);
                    }
                    lemma_user_index_at(self.users@, tid, self.users@.len() - 1);
                }
                st
            },
        };
        assert(self@ == registered(old(self)@, tid));
        match req {
            Request::ExchangeOrder(o) => {
                if o.kind != user.goal && o.qty > u64::MAX - user.opp {
                    return Step::Fault;
                }
                if order_refused(&user, &o) {
                    return Step::Refused;
                }
                if o.qty == 15 {
                    return Step::Fault;
                }
                let id = gen_id(ids);
                let order = Order {
                    otype: o.kind,
                    price: o.price,
                    trader: tid,
                    qty: o.qty,
                    time: now,
                    id,
                    hidden: o.hidden,
                };
                self.lob.add_order(order);
                Step::Placed(id)
            },
            Request::DarkpoolOrder(o) => {
                if o.kind != user.goal && o.qty > u64::MAX - user.opp {
                    return Step::Fault;
                }
                if order_refused(&user, &o) {
                    return Step::Refused;
                }
                let id = gen_id(ids);
                let order = Order {
                    otype: o.kind,
                    price: o.price,
                    trader: tid,
                    qty: o.qty,
                    time: now,
                    id,
                    hidden: o.hidden,
                };
                self.dark.add_order(order);
                Step::Placed(id)
            },
            Request::Get => Step::Done,
            Request::Cancel(cid) => {
                if !self.lob.has_order(cid) {
                    return Step::Fault;
                }
                self.lob.drop_order(cid);
                Step::Done
            },
        }
    }

    /// Recounts every trader from all trades of both books and withdraws
    /// the orders that no longer fit, trader by trader. Returns `false`,
    /// leaving the state as it was, where the server stops: a counter
    /// overflows or an order would be withdrawn twice.
    pub fn settle(&mut self) -> (ok: bool)
        ensures
            ok == settled(old(self)@) is Some,
            ok ==> final(self)@ == settled(old(self)@)->0,
            !ok ==> final(self)@ == old(self)@,
            distinct_users(old(self)@.users) ==> distinct_users(final(self)@.users),
    {
        proof {
            lemma_settle_keeps_ids(self.users@, self.lob@, self.dark@, self.lob@.matches + self.dark@.matches);
        }
        let mut lob = self.lob.clone();
        let mut dark = self.dark.clone();
        let mut users: Vec<Trader> = Vec::new();
        let ghost ms = self.lob@.matches + self.dark@.matches;
        let mut i: usize = 0;
        proof {
            assert(self.users@.skip(0) =~= self.users@);
            match settle_from(self.users@, lob@, dark@, ms) {
                Some(r) => {
                    assert(users@ + r.0 =~= r.0);
                },
                None => {},
            }
        }
        while i < self.users.len()
            invariant
                0 <= i <= self.users.len(),
                ms == self.lob@.matches + self.dark@.matches,
                lob@.matches == self.lob@.matches,
                dark@.matches == self.dark@.matches,
                settle_from(self.users@, self.lob@, self.dark@, ms) == match settle_from(
                    self.users@.skip(i as int),
                    lob@,
                    dark@,
                    ms,
                ) {
                    None => None,
                    Some(r) => Some((users@ + r.0, r.1, r.2)),
                },
            decreases self.users.len() - i,
        {
            let (tid, st) = self.users[i];
            let ghost rest = self.users@.skip(i as int);
            assert(rest[0] == (tid, st));
            assert(rest.drop_first() =~= self.users@.skip(i + 1));
            let st2 = match recount_status(&st, tid, &self.lob.matches, &self.dark.matches) {
                Some(s) => s,
                None => {
                    return false;
                },
            };
            if !enforce_limits(&mut lob, &mut dark, tid, &st2) {
                return false;
            }
            users.push((tid, st2));
            i = i + 1;
        }
        assert(self.users@.skip(i as int) =~= Seq::<Trader>::empty());
        self.lob = lob;
        self.dark = dark;
        self.users = users;
        true
    }
}

} // verus!
