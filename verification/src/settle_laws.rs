//! Exactly what settling does: when it succeeds, and which orders it
//! withdraws and keeps (order ids being unique in each book and trader ids
//! distinct).

use vstd::prelude::*;
use crate::types::{Order, TraderStatus, Match};
use crate::book::{BookView, after_drop, book_holds, holds_id};
use crate::game::{
    ExchangeView, Trader, drop_all, drop_both, enforce, settle_from, settled, trader_orders, off_goal,
    recounted, recount_overflows, distinct_users,
};
use crate::game_laws::{
    all_orders, present, unique_ids, id_in, lemma_drop_unique, lemma_drop_all_unique,
    lemma_trader_orders_cover, lemma_trader_orders_sound, lemma_in_filter, lemma_id_in,
};

verus! {

/// No two orders of `s` have the same id.
pub open spec fn distinct_ids(s: Seq<Order>) -> bool {
    forall|i: int, j: int| 0 <= i < j < s.len() ==> (#[trigger] s[i]).id != (#[trigger] s[j]).id
}

/// The order `o` no longer fits the status `st` of the trader `tid`: it is
/// the trader's, and the goal is reached, or it is against the goal while
/// the trader is past its tolerance.
pub open spec fn unfit(o: Order, tid: i64, st: TraderStatus) -> bool {
    o.trader == tid && (st.done >= st.amount || (st.opp >= st.tolerance && o.otype != st.goal))
}

/// The orders of the trader `tid` cannot all be withdrawn: it is past its
/// tolerance and has reached its goal, and holds an order against the goal,
/// which would be withdrawn twice.
pub open spec fn withdrawn_twice(lob: BookView, dark: BookView, tid: i64, st: TraderStatus) -> bool {
    &&& st.opp >= st.tolerance
    &&& st.done >= st.amount
    &&& exists|o: Order| #![trigger present(lob, o)] #![trigger present(dark, o)]
        (present(lob, o) || present(dark, o)) && o.trader == tid && o.otype != st.goal
}

/// Settling the trader `tid`, with status `st`, against the trades `ms`
/// fails: a counter overflows, or an order would be withdrawn twice.
pub open spec fn settle_blocked(lob: BookView, dark: BookView, tid: i64, st: TraderStatus, ms: Seq<Match>) -> bool {
    recount_overflows(st, tid, ms) || withdrawn_twice(lob, dark, tid, recounted(st, tid, ms))
}

/// The order `o` no longer fits the recounted status of some trader of
/// `users`.
pub open spec fn unfit_for_some(users: Seq<Trader>, ms: Seq<Match>, o: Order) -> bool {
    exists|k: int| 0 <= k < users.len() && unfit(o, (#[trigger] users[k]).0, recounted(users[k].1, users[k].0, ms))
}

proof fn lemma_same_id(b: BookView, x: Order, y: Order)
    requires
        unique_ids(b),
        present(b, x),
        present(b, y),
        x.id == y.id,
    ensures
        x == y,
{
    let s = all_orders(b);
    let i = choose|i: int| 0 <= i < s.len() && s[i] == x;
    let j = choose|j: int| 0 <= j < s.len() && s[j] == y;
    if i < j {
        assert(s[i].id != s[j].id);
    } else if j < i {
        assert(s[j].id != s[i].id);
    }
}

proof fn lemma_holds_present(b: BookView, id: i64)
    ensures
        book_holds(b, id) <==> exists|o: Order| #[trigger] present(b, o) && o.id == id,
{
    let s = all_orders(b);
    if holds_id(b.buy, id) {
        let j = choose|j: int| 0 <= j < b.buy.len() && (#[trigger] b.buy[j]).id == id;
        assert(s[j] == b.buy[j]);
        assert(present(b, b.buy[j]));
    } else if holds_id(b.sell, id) {
        let j = choose|j: int| 0 <= j < b.sell.len() && (#[trigger] b.sell[j]).id == id;
        assert(s[b.buy.len() + j] == b.sell[j]);
        assert(present(b, b.sell[j]));
    }
    if exists|o: Order| #[trigger] present(b, o) && o.id == id {
        let o = choose|o: Order| #[trigger] present(b, o) && o.id == id;
        let j = choose|j: int| 0 <= j < s.len() && s[j] == o;
        if j < b.buy.len() {
            assert(b.buy[j] == o);
        } else {
            assert(b.sell[j - b.buy.len()] == o);
        }
    }
}

/// Withdrawing orders of the book with distinct ids succeeds.
proof fn lemma_drop_all_succeeds(b: BookView, os: Seq<Order>)
    requires
        unique_ids(b),
        forall|k: int| 0 <= k < os.len() ==> present(b, #[trigger] os[k]),
        distinct_ids(os),
    ensures
        drop_all(b, os) is Some,
    decreases os.len(),
{
    if os.len() > 0 {
        lemma_holds_present(b, os[0].id);
        assert(present(b, os[0]));
        lemma_drop_unique(b, os[0].id);
        let a = after_drop(b, os[0].id);
        let t = os.drop_first();
        assert forall|k: int| 0 <= k < t.len() implies present(a, #[trigger] t[k]) by {
            assert(t[k] == os[k + 1]);
            assert(present(b, os[k + 1]));
            assert(os[0].id != os[k + 1].id);
        }
        assert forall|i: int, j: int| 0 <= i < j < t.len() implies (#[trigger] t[i]).id != (#[trigger] t[j]).id by {
            assert(t[i] == os[i + 1] && t[j] == os[j + 1]);
        }
        lemma_drop_all_succeeds(a, t);
    }
}

/// Withdrawing orders fails if one of their ids is not in the book.
proof fn lemma_drop_all_fails(b: BookView, os: Seq<Order>, k: int)
    requires
        unique_ids(b),
        0 <= k < os.len(),
        !book_holds(b, os[k].id),
    ensures
        drop_all(b, os) is None,
    decreases os.len(),
{
    if book_holds(b, os[0].id) {
        lemma_drop_unique(b, os[0].id);
        let a = after_drop(b, os[0].id);
        let t = os.drop_first();
        assert(k > 0);
        assert(t[k - 1] == os[k]);
        lemma_holds_present(b, os[k].id);
        lemma_holds_present(a, os[k].id);
        if book_holds(a, os[k].id) {
            let o = choose|o: Order| #[trigger] present(a, o) && o.id == os[k].id;
            assert(present(b, o));
        }
        lemma_drop_all_fails(a, t, k - 1);
    }
}

/// Keeping some orders keeps their ids distinct.
proof fn lemma_filter_distinct(s: Seq<Order>, p: spec_fn(Order) -> bool)
    requires
        distinct_ids(s),
    ensures
        distinct_ids(s.filter(p)),
    decreases s.len(),
{
    reveal(Seq::filter);
    if s.len() > 0 {
        let d = s.drop_last();
        assert forall|i: int, j: int| 0 <= i < j < d.len() implies (#[trigger] d[i]).id != (#[trigger] d[j]).id by {
            assert(d[i] == s[i] && d[j] == s[j]);
        }
        lemma_filter_distinct(d, p);
        let f = d.filter(p);
        if p(s.last()) {
            let g = f.push(s.last());
            assert forall|i: int, j: int| 0 <= i < j < g.len() implies (#[trigger] g[i]).id != (#[trigger] g[j]).id by {
                if j == f.len() {
                    assert(f.contains(f[i]));
                    d.lemma_filter_contains_rev(p, f[i]);
                    let a = choose|a: int| 0 <= a < d.len() && d[a] == f[i];
                    assert(s[a] == f[i]);
                    assert(s[a].id != s[s.len() - 1].id);
                } else {
                    assert(g[i] == f[i] && g[j] == f[j]);
                }
            }
        }
    }
}

/// The orders of a trader, and those of them against a goal, have
/// distinct ids.
proof fn lemma_mine_distinct(b: BookView, tid: i64, g: crate::types::OrderType)
    requires
        unique_ids(b),
    ensures
        distinct_ids(trader_orders(b, tid)),
        distinct_ids(trader_orders(b, tid).filter(off_goal(g))),
{
    let s = all_orders(b);
    let p = crate::game::by_trader(tid);
    assert forall|i: int, j: int| 0 <= i < j < b.buy.len() implies (#[trigger] b.buy[i]).id != (#[trigger] b.buy[j]).id by {
        assert(s[i] == b.buy[i] && s[j] == b.buy[j]);
    }
    assert forall|i: int, j: int| 0 <= i < j < b.sell.len() implies (#[trigger] b.sell[i]).id != (#[trigger] b.sell[j]).id by {
        assert(s[b.buy.len() + i] == b.sell[i] && s[b.buy.len() + j] == b.sell[j]);
    }
    lemma_filter_distinct(b.buy, p);
    lemma_filter_distinct(b.sell, p);
    let f = b.buy.filter(p);
    let h = b.sell.filter(p);
    let m = trader_orders(b, tid);
    assert forall|i: int, j: int| 0 <= i < j < m.len() implies (#[trigger] m[i]).id != (#[trigger] m[j]).id by {
        if j < f.len() {
            assert(m[i] == f[i] && m[j] == f[j]);
        } else if i >= f.len() {
            assert(m[i] == h[i - f.len()] && m[j] == h[j - f.len()]);
        } else {
            assert(m[i] == f[i] && m[j] == h[j - f.len()]);
            assert(f.contains(f[i]));
            b.buy.lemma_filter_contains_rev(p, f[i]);
            let a = choose|a: int| 0 <= a < b.buy.len() && b.buy[a] == f[i];
            assert(h.contains(h[j - f.len()]));
            b.sell.lemma_filter_contains_rev(p, h[j - f.len()]);
            let c = choose|c: int| 0 <= c < b.sell.len() && b.sell[c] == h[j - f.len()];
            assert(s[a] == b.buy[a] && s[b.buy.len() + c] == b.sell[c]);
            assert(s[a].id != s[b.buy.len() + c].id);
        }
    }
    lemma_filter_distinct(m, off_goal(g));
}

/// For an order of the book, its id is among the trader's orders exactly
/// when it is the trader's, and among those against the goal `g` exactly
/// when it is also against `g`.
proof fn lemma_id_in_mine(b: BookView, tid: i64, g: crate::types::OrderType, o: Order)
    requires
        unique_ids(b),
        present(b, o),
    ensures
        id_in(trader_orders(b, tid), o.id) <==> o.trader == tid,
        id_in(trader_orders(b, tid).filter(off_goal(g)), o.id) <==> o.trader == tid && o.otype != g,
{
    let m = trader_orders(b, tid);
    let f = m.filter(off_goal(g));
    if o.trader == tid {
        lemma_trader_orders_cover(b, tid, o);
        lemma_id_in(m, o);
        if o.otype != g {
            lemma_in_filter(m, off_goal(g), o);
            lemma_id_in(f, o);
        }
    }
    if id_in(m, o.id) {
        let k = choose|k: int| 0 <= k < m.len() && (#[trigger] m[k]).id == o.id;
        assert(m.contains(m[k]));
        lemma_trader_orders_sound(b, tid, m[k]);
        lemma_same_id(b, m[k], o);
    }
    if id_in(f, o.id) {
        let k = choose|k: int| 0 <= k < f.len() && (#[trigger] f[k]).id == o.id;
        m.lemma_filter_pred(off_goal(g), k);
        assert(f.contains(f[k]));
        m.lemma_filter_contains_rev(off_goal(g), f[k]);
        lemma_trader_orders_sound(b, tid, f[k]);
        lemma_same_id(b, f[k], o);
    }
}

/// With unique ids, withdrawing a trader's orders that do not fit succeeds
/// exactly when no order would be withdrawn twice, and then it withdraws
/// exactly the trader's orders that do not fit.
pub proof fn lemma_enforce_exact(lob: BookView, dark: BookView, tid: i64, st: TraderStatus)
    requires
        unique_ids(lob),
        unique_ids(dark),
    ensures
        enforce(lob, dark, tid, st) is Some <==> !withdrawn_twice(lob, dark, tid, st),
        enforce(lob, dark, tid, st) is Some ==> ({
            let r = enforce(lob, dark, tid, st)->0;
            &&& unique_ids(r.0)
            &&& unique_ids(r.1)
            &&& r.0.matches == lob.matches
            &&& r.1.matches == dark.matches
            &&& forall|o: Order| #[trigger] present(r.0, o) <==> present(lob, o) && !unfit(o, tid, st)
            &&& forall|o: Order| #[trigger] present(r.1, o) <==> present(dark, o) && !unfit(o, tid, st)
        }),
{
    let mine = trader_orders(lob, tid);
    let mine_dark = trader_orders(dark, tid);
    let off = mine.filter(off_goal(st.goal));
    let off_dark = mine_dark.filter(off_goal(st.goal));
    lemma_mine_distinct(lob, tid, st.goal);
    lemma_mine_distinct(dark, tid, st.goal);
    assert forall|o: Order| present(lob, o) implies (id_in(mine, o.id) <==> o.trader == tid) && (id_in(off, o.id)
        <==> o.trader == tid && o.otype != st.goal) by {
        lemma_id_in_mine(lob, tid, st.goal, o);
    }
    assert forall|o: Order| present(dark, o) implies (id_in(mine_dark, o.id) <==> o.trader == tid) && (id_in(
        off_dark,
        o.id,
    ) <==> o.trader == tid && o.otype != st.goal) by {
        lemma_id_in_mine(dark, tid, st.goal, o);
    }
    // every order listed is an order of its book
    assert forall|k: int| 0 <= k < mine.len() implies present(lob, #[trigger] mine[k]) by {
        assert(mine.contains(mine[k]));
        lemma_trader_orders_sound(lob, tid, mine[k]);
    }
    assert forall|k: int| 0 <= k < mine_dark.len() implies present(dark, #[trigger] mine_dark[k]) by {
        assert(mine_dark.contains(mine_dark[k]));
        lemma_trader_orders_sound(dark, tid, mine_dark[k]);
    }
    assert forall|k: int| 0 <= k < off.len() implies present(lob, #[trigger] off[k]) by {
        assert(off.contains(off[k]));
        mine.lemma_filter_contains_rev(off_goal(st.goal), off[k]);
        lemma_trader_orders_sound(lob, tid, off[k]);
    }
    assert forall|k: int| 0 <= k < off_dark.len() implies present(dark, #[trigger] off_dark[k]) by {
        assert(off_dark.contains(off_dark[k]));
        mine_dark.lemma_filter_contains_rev(off_goal(st.goal), off_dark[k]);
        lemma_trader_orders_sound(dark, tid, off_dark[k]);
    }
    // the first stage
    let p0 = if st.opp >= st.tolerance { drop_all(lob, off)->0 } else { lob };
    let p1 = if st.opp >= st.tolerance { drop_all(dark, off_dark)->0 } else { dark };
    if st.opp >= st.tolerance {
        lemma_drop_all_succeeds(lob, off);
        lemma_drop_all_succeeds(dark, off_dark);
        lemma_drop_all_unique(lob, off);
        lemma_drop_all_unique(dark, off_dark);
        assert(drop_both(lob, dark, off, off_dark) == Some((p0, p1)));
    }
    assert forall|o: Order| #[trigger] present(p0, o) <==> present(lob, o) && !(st.opp >= st.tolerance && o.trader
        == tid && o.otype != st.goal) by {
        if st.opp >= st.tolerance {
            assert(present(drop_all(lob, off)->0, o) <==> present(lob, o) && !id_in(off, o.id));
        }
    }
    assert forall|o: Order| #[trigger] present(p1, o) <==> present(dark, o) && !(st.opp >= st.tolerance && o.trader
        == tid && o.otype != st.goal) by {
        if st.opp >= st.tolerance {
            assert(present(drop_all(dark, off_dark)->0, o) <==> present(dark, o) && !id_in(off_dark, o.id));
        }
    }
    // the second stage
    if st.done >= st.amount {
        if withdrawn_twice(lob, dark, tid, st) {
            let x = choose|x: Order| #![trigger present(lob, x)] #![trigger present(dark, x)]
                (present(lob, x) || present(dark, x)) && x.trader == tid && x.otype != st.goal;
            if present(lob, x) {
                lemma_trader_orders_cover(lob, tid, x);
                let k = choose|k: int| 0 <= k < mine.len() && mine[k] == x;
                lemma_holds_present(p0, x.id);
                if book_holds(p0, x.id) {
                    let y = choose|y: Order| #[trigger] present(p0, y) && y.id == x.id;
                    lemma_same_id(lob, x, y);
                }
                lemma_drop_all_fails(p0, mine, k);
            } else {
                if drop_all(p0, mine) is Some {
                    lemma_drop_all_unique(p0, mine);
                }
                lemma_trader_orders_cover(dark, tid, x);
                let k = choose|k: int| 0 <= k < mine_dark.len() && mine_dark[k] == x;
                lemma_holds_present(p1, x.id);
                if book_holds(p1, x.id) {
                    let y = choose|y: Order| #[trigger] present(p1, y) && y.id == x.id;
                    lemma_same_id(dark, x, y);
                }
                lemma_drop_all_fails(p1, mine_dark, k);
            }
        } else {
            assert forall|k: int| 0 <= k < mine.len() implies present(p0, #[trigger] mine[k]) by {
                assert(present(lob, mine[k]));
                assert(id_in(mine, mine[k].id) ==> mine[k].trader == tid);
                lemma_id_in(mine, mine[k]);
                assert(mine.contains(mine[k]));
            }
            assert forall|k: int| 0 <= k < mine_dark.len() implies present(p1, #[trigger] mine_dark[k]) by {
                assert(present(dark, mine_dark[k]));
                assert(mine_dark.contains(mine_dark[k]));
                lemma_id_in(mine_dark, mine_dark[k]);
            }
            lemma_drop_all_unique(lob, Seq::<Order>::empty());
            lemma_drop_all_succeeds(p0, mine);
            lemma_drop_all_succeeds(p1, mine_dark);
            lemma_drop_all_unique(p0, mine);
            lemma_drop_all_unique(p1, mine_dark);
            let r0 = drop_all(p0, mine)->0;
            let r1 = drop_all(p1, mine_dark)->0;
            assert forall|o: Order| #[trigger] present(r0, o) <==> present(lob, o) && !unfit(o, tid, st) by {
                assert(present(r0, o) <==> present(p0, o) && !id_in(mine, o.id));
                assert(present(p0, o) ==> present(lob, o));
            }
            assert forall|o: Order| #[trigger] present(r1, o) <==> present(dark, o) && !unfit(o, tid, st) by {
                assert(present(r1, o) <==> present(p1, o) && !id_in(mine_dark, o.id));
                assert(present(p1, o) ==> present(dark, o));
            }
        }
    }
}

/// A trader other than `tid` is blocked the same before and after the
/// orders of `tid` that do not fit are withdrawn.
proof fn lemma_blocked_unchanged(
    lob: BookView,
    dark: BookView,
    l1: BookView,
    d1: BookView,
    tid: i64,
    st: TraderStatus,
    other: i64,
    ost: TraderStatus,
    ms: Seq<Match>,
)
    requires
        tid != other,
        forall|o: Order| #[trigger] present(l1, o) <==> present(lob, o) && !unfit(o, tid, st),
        forall|o: Order| #[trigger] present(d1, o) <==> present(dark, o) && !unfit(o, tid, st),
    ensures
        settle_blocked(l1, d1, other, ost, ms) == settle_blocked(lob, dark, other, ost, ms),
{
    let st2 = recounted(ost, other, ms);
    if withdrawn_twice(lob, dark, other, st2) {
        let x = choose|x: Order| #![trigger present(lob, x)] #![trigger present(dark, x)]
            (present(lob, x) || present(dark, x)) && x.trader == other && x.otype != st2.goal;
        assert(present(l1, x) || present(d1, x));
    }
    if withdrawn_twice(l1, d1, other, st2) {
        let x = choose|x: Order| #![trigger present(l1, x)] #![trigger present(d1, x)]
            (present(l1, x) || present(d1, x)) && x.trader == other && x.otype != st2.goal;
        assert(present(lob, x) || present(dark, x));
    }
}

/// Settling traders with distinct ids on books with unique order ids
/// succeeds exactly when no trader is blocked, and then withdraws exactly
/// the orders that do not fit some trader's recounted status.
proof fn lemma_settle_exact(users: Seq<Trader>, lob: BookView, dark: BookView, ms: Seq<Match>)
    requires
        unique_ids(lob),
        unique_ids(dark),
        distinct_users(users),
    ensures
        settle_from(users, lob, dark, ms) is Some <==> forall|k: int|
            0 <= k < users.len() ==> !settle_blocked(lob, dark, (#[trigger] users[k]).0, users[k].1, ms),
        settle_from(users, lob, dark, ms) is Some ==> ({
            let r = settle_from(users, lob, dark, ms)->0;
            &&& unique_ids(r.1)
            &&& unique_ids(r.2)
            &&& r.1.matches == lob.matches
            &&& r.2.matches == dark.matches
            &&& forall|o: Order| #[trigger] present(r.1, o) <==> present(lob, o) && !unfit_for_some(users, ms, o)
            &&& forall|o: Order| #[trigger] present(r.2, o) <==> present(dark, o) && !unfit_for_some(users, ms, o)
        }),
    decreases users.len(),
{
    if users.len() == 0 {
        return;
    }
    let tid = users[0].0;
    let st = users[0].1;
    let t = users.drop_first();
    assert forall|i: int, j: int| 0 <= i < j < t.len() implies (#[trigger] t[i]).0 != (#[trigger] t[j]).0 by {
        assert(t[i] == users[i + 1] && t[j] == users[j + 1]);
    }
    if recount_overflows(st, tid, ms) {
        assert(settle_blocked(lob, dark, users[0].0, users[0].1, ms));
        return;
    }
    let st2 = recounted(st, tid, ms);
    lemma_enforce_exact(lob, dark, tid, st2);
    if enforce(lob, dark, tid, st2) is None {
        assert(settle_blocked(lob, dark, users[0].0, users[0].1, ms));
        return;
    }
    let p = enforce(lob, dark, tid, st2)->0;
    lemma_settle_exact(t, p.0, p.1, ms);
    assert forall|k: int| 0 <= k < t.len() implies settle_blocked(p.0, p.1, (#[trigger] t[k]).0, t[k].1, ms)
        == settle_blocked(lob, dark, t[k].0, t[k].1, ms) by {
        assert(t[k] == users[k + 1]);
        assert(users[0].0 != users[k + 1].0);
        lemma_blocked_unchanged(lob, dark, p.0, p.1, tid, st2, t[k].0, t[k].1, ms);
    }
    assert((forall|k: int| 0 <= k < users.len() ==> !settle_blocked(lob, dark, (#[trigger] users[k]).0, users[k].1, ms))
        <==> (forall|k: int| 0 <= k < t.len() ==> !settle_blocked(p.0, p.1, (#[trigger] t[k]).0, t[k].1, ms))) by {
        if forall|k: int| 0 <= k < t.len() ==> !settle_blocked(p.0, p.1, (#[trigger] t[k]).0, t[k].1, ms) {
            assert forall|k: int| 0 <= k < users.len() implies !settle_blocked(lob, dark, (#[trigger] users[k]).0, users[k].1, ms) by {
                if k > 0 {
                    assert(users[k] == t[k - 1]);
                }
            }
        }
    }
    assert forall|o: Order| unfit_for_some(users, ms, o) <==> unfit(o, tid, st2) || unfit_for_some(t, ms, o) by {
        if unfit_for_some(users, ms, o) {
            let k = choose|k: int| 0 <= k < users.len() && unfit(o, (#[trigger] users[k]).0, recounted(users[k].1, users[k].0, ms));
            if k > 0 {
                assert(t[k - 1] == users[k]);
            }
        }
        if unfit_for_some(t, ms, o) {
            let k = choose|k: int| 0 <= k < t.len() && unfit(o, (#[trigger] t[k]).0, recounted(t[k].1, t[k].0, ms));
            assert(users[k + 1] == t[k]);
        }
        if unfit(o, tid, st2) {
            assert(unfit(o, users[0].0, recounted(users[0].1, users[0].0, ms)));
        }
    }
}

/// Settling a game whose traders have distinct ids, on books with unique
/// order ids, succeeds exactly when no trader is blocked (no counter
/// overflows, and no trader past its tolerance that reached its goal holds
/// an order against its goal); and then each book keeps exactly its orders
/// that fit the recounted status of every trader: orders that fit are kept,
/// and the others are withdrawn.
pub proof fn law_settle_exact(e: ExchangeView)
    requires
        unique_ids(e.lob),
        unique_ids(e.dark),
        distinct_users(e.users),
    ensures
        settled(e) is Some <==> forall|k: int|
            0 <= k < e.users.len() ==> !settle_blocked(
                e.lob,
                e.dark,
                (#[trigger] e.users[k]).0,
                e.users[k].1,
                e.lob.matches + e.dark.matches,
            ),
        settled(e) is Some ==> ({
            let s = settled(e)->0;
            let ms = e.lob.matches + e.dark.matches;
            &&& forall|o: Order| #[trigger] present(s.lob, o) <==> present(e.lob, o) && !unfit_for_some(e.users, ms, o)
            &&& forall|o: Order| #[trigger] present(s.dark, o) <==> present(e.dark, o) && !unfit_for_some(e.users, ms, o)
        }),
{
    lemma_settle_exact(e.users, e.lob, e.dark, e.lob.matches + e.dark.matches);
}

} // verus!
