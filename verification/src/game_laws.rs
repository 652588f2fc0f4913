//! What the game promises of every state: newcomers' goals alternate, and
//! after the books are settled no trader keeps an order that its status no
//! longer allows.

use vstd::prelude::*;
use crate::types::{Order, OrderType, TraderStatus, opposite};
use crate::book::{BookView, after_drop, book_holds, holds_id, id_index, lemma_id_index};
use crate::book_laws::{well_formed, law_add_keeps_well_formed, law_drop_keeps_well_formed};
use crate::types::Request;
use crate::game::served;
use crate::game::{
    ExchangeView, Trader, registered, lookup, fresh_status, user_index, drop_all, drop_both, enforce,
    settle_from, settled, trader_orders, by_trader, off_goal, recounted, recount_overflows, shown,
    seen_by, response_spec,
};

verus! {

/// All orders of the book: its bids, then its asks.
pub open spec fn all_orders(b: BookView) -> Seq<Order> {
    b.buy + b.sell
}

/// The book holds the order `o`.
pub open spec fn present(b: BookView, o: Order) -> bool {
    all_orders(b).contains(o)
}

/// No two orders of the book have the same id.
pub open spec fn unique_ids(b: BookView) -> bool {
    forall|i: int, j: int|
        0 <= i < j < all_orders(b).len() ==> (#[trigger] all_orders(b)[i]).id != (#[trigger] all_orders(b)[j]).id
}

/// Some order of `os` has the id `id`.
pub open spec fn id_in(os: Seq<Order>, id: i64) -> bool {
    exists|k: int| 0 <= k < os.len() && (#[trigger] os[k]).id == id
}

/// In the books `lob` and `dark`, the trader `tid` keeps no order that the
/// status `st` does not allow: past the tolerance none against the goal,
/// with the goal reached none at all.
pub open spec fn orders_fit(lob: BookView, dark: BookView, tid: i64, st: TraderStatus) -> bool {
    &&& st.opp >= st.tolerance ==> forall|o: Order|
        #![trigger present(lob, o)]
        #![trigger present(dark, o)]
        (present(lob, o) || present(dark, o)) && o.trader == tid ==> o.otype == st.goal
    &&& st.done >= st.amount ==> forall|o: Order|
        #![trigger present(lob, o)]
        #![trigger present(dark, o)]
        (present(lob, o) || present(dark, o)) ==> o.trader != tid
}

pub(crate) proof fn lemma_remove_unique(s: Seq<Order>, pos: int)
    requires
        0 <= pos < s.len(),
        forall|i: int, j: int| 0 <= i < j < s.len() ==> (#[trigger] s[i]).id != (#[trigger] s[j]).id,
    ensures
        forall|i: int, j: int|
            0 <= i < j < s.remove(pos).len() ==> (#[trigger] s.remove(pos)[i]).id != (#[trigger] s.remove(pos)[j]).id,
        forall|o: Order| s.remove(pos).contains(o) <==> s.contains(o) && o.id != s[pos].id,
{
    let r = s.remove(pos);
    assert forall|i: int| 0 <= i < r.len() implies #[trigger] r[i] == s[if i < pos { i } else { i + 1 }] by {}
    assert forall|i: int, j: int| 0 <= i < j < r.len() implies (#[trigger] r[i]).id != (#[trigger] r[j]).id by {
        let ii = if i < pos { i } else { i + 1 };
        let jj = if j < pos { j } else { j + 1 };
        assert(r[i] == s[ii] && r[j] == s[jj]);
    }
    assert forall|o: Order| r.contains(o) <==> s.contains(o) && o.id != s[pos].id by {
        if r.contains(o) {
            let i = choose|i: int| 0 <= i < r.len() && r[i] == o;
            let ii = if i < pos { i } else { i + 1 };
            assert(s[ii] == o);
        }
        if s.contains(o) && o.id != s[pos].id {
            let i = choose|i: int| 0 <= i < s.len() && s[i] == o;
            assert(i != pos);
            let ri = if i < pos { i } else { i - 1 };
            assert(r[ri] == o);
        }
    }
}

/// With unique ids, withdrawing by id removes exactly the order with that id.
pub(crate) proof fn lemma_drop_unique(b: BookView, id: i64)
    requires
        unique_ids(b),
        book_holds(b, id),
    ensures
        unique_ids(after_drop(b, id)),
        forall|o: Order| #[trigger] present(after_drop(b, id), o) <==> present(b, o) && o.id != id,
{
    lemma_id_index(b.buy, id);
    lemma_id_index(b.sell, id);
    let s = all_orders(b);
    let a = after_drop(b, id);
    let pos = if holds_id(b.buy, id) { id_index(b.buy, id) } else { b.buy.len() + id_index(b.sell, id) };
    assert(s[pos].id == id);
    assert(all_orders(a) =~= s.remove(pos));
    lemma_remove_unique(s, pos);
}

/// With unique ids, withdrawing the orders `os` by their ids, when it
/// succeeds, removes exactly the orders whose ids are among theirs.
pub(crate) proof fn lemma_drop_all_unique(b: BookView, os: Seq<Order>)
    requires
        unique_ids(b),
        drop_all(b, os) is Some,
    ensures
        unique_ids(drop_all(b, os)->0),
        forall|o: Order| #[trigger] present(drop_all(b, os)->0, o) <==> present(b, o) && !id_in(os, o.id),
        drop_all(b, os)->0.matches == b.matches,
    decreases os.len(),
{
    if os.len() > 0 {
        let a = after_drop(b, os[0].id);
        lemma_drop_unique(b, os[0].id);
        let t = os.drop_first();
        lemma_drop_all_unique(a, t);
        assert(drop_all(b, os) == drop_all(a, t));
        assert forall|o: Order| present(drop_all(b, os)->0, o) <==> present(b, o) && !id_in(os, o.id) by {
            assert(present(drop_all(a, t)->0, o) <==> present(a, o) && !id_in(t, o.id));
            assert(present(a, o) <==> present(b, o) && o.id != os[0].id);
            if id_in(os, o.id) {
                let k = choose|k: int| 0 <= k < os.len() && (#[trigger] os[k]).id == o.id;
                if k > 0 {
                    assert(t[k - 1] == os[k]);
                }
            }
            if id_in(t, o.id) {
                let k = choose|k: int| 0 <= k < t.len() && (#[trigger] t[k]).id == o.id;
                assert(os[k + 1] == t[k]);
            }
        }
    }
}

/// The orders of the trader `tid` include every order of the book that is
/// the trader's.
pub(crate) proof fn lemma_trader_orders_cover(b: BookView, tid: i64, o: Order)
    requires
        present(b, o),
        o.trader == tid,
    ensures
        trader_orders(b, tid).contains(o),
{
    let s = all_orders(b);
    let i = choose|i: int| 0 <= i < s.len() && s[i] == o;
    if i < b.buy.len() {
        assert(b.buy[i] == o);
        b.buy.lemma_filter_contains(by_trader(tid), i);
        let f = b.buy.filter(by_trader(tid));
        let k = choose|k: int| 0 <= k < f.len() && f[k] == o;
        assert(trader_orders(b, tid)[k] == o);
    } else {
        assert(b.sell[i - b.buy.len()] == o);
        b.sell.lemma_filter_contains(by_trader(tid), i - b.buy.len());
        let f = b.sell.filter(by_trader(tid));
        let k = choose|k: int| 0 <= k < f.len() && f[k] == o;
        assert(trader_orders(b, tid)[b.buy.filter(by_trader(tid)).len() + k] == o);
    }
}

/// An order of `s` is among the orders of `s` that pass `p`, if it passes.
pub(crate) proof fn lemma_in_filter(s: Seq<Order>, p: spec_fn(Order) -> bool, o: Order)
    requires
        s.contains(o),
        p(o),
    ensures
        s.filter(p).contains(o),
{
    let i = choose|i: int| 0 <= i < s.len() && s[i] == o;
    s.lemma_filter_contains(p, i);
}

/// An order with its id among the ids of `os` where `os` contains it.
pub(crate) proof fn lemma_id_in(os: Seq<Order>, o: Order)
    requires
        os.contains(o),
    ensures
        id_in(os, o.id),
{
    let k = choose|k: int| 0 <= k < os.len() && os[k] == o;
    assert(os[k].id == o.id);
}

/// With unique ids, withdrawing a trader's orders that no longer fit, when
/// it succeeds, leaves the trader only orders that fit, keeps ids unique,
/// keeps the trades, and adds no order.
pub proof fn lemma_enforce(lob: BookView, dark: BookView, tid: i64, st: TraderStatus)
    requires
        unique_ids(lob),
        unique_ids(dark),
        enforce(lob, dark, tid, st) is Some,
    ensures
        ({
            let r = enforce(lob, dark, tid, st)->0;
            &&& unique_ids(r.0)
            &&& unique_ids(r.1)
            &&& r.0.matches == lob.matches
            &&& r.1.matches == dark.matches
            &&& forall|o: Order| present(r.0, o) ==> present(lob, o)
            &&& forall|o: Order| present(r.1, o) ==> present(dark, o)
            &&& orders_fit(r.0, r.1, tid, st)
        }),
{
    let mine = trader_orders(lob, tid);
    let mine_dark = trader_orders(dark, tid);
    let off = mine.filter(off_goal(st.goal));
    let off_dark = mine_dark.filter(off_goal(st.goal));
    let r = enforce(lob, dark, tid, st)->0;
    let p0 = if st.opp >= st.tolerance { drop_all(lob, off)->0 } else { lob };
    let p1 = if st.opp >= st.tolerance { drop_all(dark, off_dark)->0 } else { dark };
    if st.opp >= st.tolerance {
        lemma_drop_all_unique(lob, off);
        lemma_drop_all_unique(dark, off_dark);
    }
    let r0 = if st.done >= st.amount { drop_all(p0, mine)->0 } else { p0 };
    let r1 = if st.done >= st.amount { drop_all(p1, mine_dark)->0 } else { p1 };
    if st.done >= st.amount {
        lemma_drop_all_unique(p0, mine);
        lemma_drop_all_unique(p1, mine_dark);
    }
    assert(r == (r0, r1));
    // what is left was there before, through each stage
    assert forall|o: Order| present(r0, o) implies present(p0, o) && present(lob, o) by {
        if st.done >= st.amount {
            assert(present(drop_all(p0, mine)->0, o));
        }
        if st.opp >= st.tolerance {
            assert(present(drop_all(lob, off)->0, o));
        }
    }
    assert forall|o: Order| present(r1, o) implies present(p1, o) && present(dark, o) by {
        if st.done >= st.amount {
            assert(present(drop_all(p1, mine_dark)->0, o));
        }
        if st.opp >= st.tolerance {
            assert(present(drop_all(dark, off_dark)->0, o));
        }
    }
    assert forall|o: Order| (present(r0, o) || present(r1, o)) && o.trader == tid && st.opp >= st.tolerance
        implies o.otype == st.goal by {
        if o.otype != st.goal {
            if present(r0, o) {
                lemma_trader_orders_cover(lob, tid, o);
                lemma_in_filter(mine, off_goal(st.goal), o);
                lemma_id_in(off, o);
                assert(present(drop_all(lob, off)->0, o));
            } else {
                lemma_trader_orders_cover(dark, tid, o);
                lemma_in_filter(mine_dark, off_goal(st.goal), o);
                lemma_id_in(off_dark, o);
                assert(present(drop_all(dark, off_dark)->0, o));
            }
        }
    }
    assert forall|o: Order| (present(r0, o) || present(r1, o)) && st.done >= st.amount implies o.trader != tid by {
        if o.trader == tid {
            if present(r0, o) {
                lemma_trader_orders_cover(lob, tid, o);
                lemma_id_in(mine, o);
                assert(present(drop_all(p0, mine)->0, o));
            } else {
                lemma_trader_orders_cover(dark, tid, o);
                lemma_id_in(mine_dark, o);
                assert(present(drop_all(p1, mine_dark)->0, o));
            }
        }
    }
}

/// After settling, when it succeeds, every trader keeps only the orders its
/// recounted status allows, ids stay unique, and no order is added.
pub(crate) proof fn lemma_settle_from(users: Seq<Trader>, lob: BookView, dark: BookView, ms: Seq<crate::types::Match>)
    requires
        unique_ids(lob),
        unique_ids(dark),
        settle_from(users, lob, dark, ms) is Some,
    ensures
        ({
            let r = settle_from(users, lob, dark, ms)->0;
            &&& unique_ids(r.1)
            &&& unique_ids(r.2)
            &&& forall|o: Order| present(r.1, o) ==> present(lob, o)
            &&& forall|o: Order| present(r.2, o) ==> present(dark, o)
            &&& r.0.len() == users.len()
            &&& r.1.matches == lob.matches
            &&& r.2.matches == dark.matches
            &&& forall|k: int|
                0 <= k < r.0.len() ==> (#[trigger] r.0[k]).0 == users[k].0 && orders_fit(
                    r.1,
                    r.2,
                    r.0[k].0,
                    r.0[k].1,
                ) && r.0[k].1 == recounted(users[k].1, users[k].0, ms) && !recount_overflows(
                    users[k].1,
                    users[k].0,
                    ms,
                )
        }),
    decreases users.len(),
{
    if users.len() > 0 {
        let tid = users[0].0;
        let st2 = recounted(users[0].1, tid, ms);
        lemma_enforce(lob, dark, tid, st2);
        let p = enforce(lob, dark, tid, st2)->0;
        lemma_settle_from(users.drop_first(), p.0, p.1, ms);
        let rest = settle_from(users.drop_first(), p.0, p.1, ms)->0;
        let r = settle_from(users, lob, dark, ms)->0;
        assert forall|k: int| 0 <= k < r.0.len() implies (#[trigger] r.0[k]).0 == users[k].0 && orders_fit(
            r.1,
            r.2,
            r.0[k].0,
            r.0[k].1,
        ) && r.0[k].1 == recounted(users[k].1, users[k].0, ms) && !recount_overflows(
            users[k].1,
            users[k].0,
            ms,
        ) by {
            if k > 0 {
                assert(r.0[k] == rest.0[k - 1]);
                assert(users.drop_first()[k - 1] == users[k]);
            } else {
                assert(r.0[0] == (tid, st2));
                assert forall|o: Order| #[trigger] present(r.1, o) implies present(p.0, o) by {}
                assert forall|o: Order| #[trigger] present(r.2, o) implies present(p.1, o) by {}
                assert(orders_fit(p.0, p.1, tid, st2));
            }
        }
    }
}

/// Settling the books, when it succeeds, leaves every trader only the
/// orders that its new status allows: a trader past its tolerance keeps no
/// order against its goal, and a trader that reached its goal keeps no
/// order at all. (The law takes order ids to be unique in each book; see
/// `id_laws` for what keeps them so.)
pub proof fn law_settle_leaves_fitting_orders(e: ExchangeView)
    requires
        unique_ids(e.lob),
        unique_ids(e.dark),
        settled(e) is Some,
    ensures
        ({
            let s = settled(e)->0;
            &&& unique_ids(s.lob)
            &&& unique_ids(s.dark)
            &&& s.users.len() == e.users.len()
            &&& forall|k: int|
                0 <= k < s.users.len() ==> (#[trigger] s.users[k]).0 == e.users[k].0 && orders_fit(
                    s.lob,
                    s.dark,
                    s.users[k].0,
                    s.users[k].1,
                )
        }),
{
    lemma_settle_from(e.users, e.lob, e.dark, e.lob.matches + e.dark.matches);
}

/// The orders of a trader are orders of the book, and the trader's.
pub(crate) proof fn lemma_trader_orders_sound(b: BookView, tid: i64, x: Order)
    requires
        trader_orders(b, tid).contains(x),
    ensures
        present(b, x),
        x.trader == tid,
{
    let f = b.buy.filter(by_trader(tid));
    let g = b.sell.filter(by_trader(tid));
    let t = trader_orders(b, tid);
    let i = choose|i: int| 0 <= i < t.len() && t[i] == x;
    if i < f.len() {
        assert(f[i] == x);
        b.buy.lemma_filter_pred(by_trader(tid), i);
        assert(f.contains(x));
        b.buy.lemma_filter_contains_rev(by_trader(tid), x);
        let j = choose|j: int| 0 <= j < b.buy.len() && b.buy[j] == x;
        assert(all_orders(b)[j] == x);
    } else {
        assert(g[i - f.len()] == x);
        b.sell.lemma_filter_pred(by_trader(tid), i - f.len());
        assert(g.contains(x));
        b.sell.lemma_filter_contains_rev(by_trader(tid), x);
        let j = choose|j: int| 0 <= j < b.sell.len() && b.sell[j] == x;
        assert(all_orders(b)[b.buy.len() + j] == x);
    }
}

/// When every order of a trader already fits its status, withdrawing the
/// orders that do not fit changes nothing.
proof fn lemma_enforce_fitting(lob: BookView, dark: BookView, tid: i64, st: TraderStatus)
    requires
        orders_fit(lob, dark, tid, st),
    ensures
        enforce(lob, dark, tid, st) == Some((lob, dark)),
{
    let mine = trader_orders(lob, tid);
    let mine_dark = trader_orders(dark, tid);
    if st.opp >= st.tolerance {
        let off = mine.filter(off_goal(st.goal));
        let off_dark = mine_dark.filter(off_goal(st.goal));
        if off.len() > 0 {
            mine.lemma_filter_pred(off_goal(st.goal), 0);
            assert(off.contains(off[0]));
            mine.lemma_filter_contains_rev(off_goal(st.goal), off[0]);
            lemma_trader_orders_sound(lob, tid, off[0]);
        }
        if off_dark.len() > 0 {
            mine_dark.lemma_filter_pred(off_goal(st.goal), 0);
            assert(off_dark.contains(off_dark[0]));
            mine_dark.lemma_filter_contains_rev(off_goal(st.goal), off_dark[0]);
            lemma_trader_orders_sound(dark, tid, off_dark[0]);
        }
    }
    if st.done >= st.amount {
        if mine.len() > 0 {
            assert(mine.contains(mine[0]));
            lemma_trader_orders_sound(lob, tid, mine[0]);
        }
        if mine_dark.len() > 0 {
            assert(mine_dark.contains(mine_dark[0]));
            lemma_trader_orders_sound(dark, tid, mine_dark[0]);
        }
    }
}

/// Settling traders that are already recounted and whose orders all fit
/// changes nothing.
proof fn lemma_settle_fitting(users: Seq<Trader>, lob: BookView, dark: BookView, ms: Seq<crate::types::Match>)
    requires
        forall|k: int|
            0 <= k < users.len() ==> (#[trigger] users[k]).1 == recounted(users[k].1, users[k].0, ms)
                && !recount_overflows(users[k].1, users[k].0, ms) && orders_fit(lob, dark, users[k].0, users[k].1),
    ensures
        settle_from(users, lob, dark, ms) == Some((users, lob, dark)),
    decreases users.len(),
{
    if users.len() > 0 {
        let t = users.drop_first();
        assert forall|k: int| 0 <= k < t.len() implies (#[trigger] t[k]).1 == recounted(t[k].1, t[k].0, ms)
            && !recount_overflows(t[k].1, t[k].0, ms) && orders_fit(lob, dark, t[k].0, t[k].1) by {
            assert(t[k] == users[k + 1]);
        }
        lemma_settle_fitting(t, lob, dark, ms);
        assert(users[0].1 == recounted(users[0].1, users[0].0, ms));
        lemma_enforce_fitting(lob, dark, users[0].0, users[0].1);
        assert(seq![(users[0].0, users[0].1)] + t =~= users);
    }
}

/// Settling is stable: settling a settled game again changes nothing
/// (order ids being unique in each book).
pub proof fn law_settle_is_stable(e: ExchangeView)
    requires
        unique_ids(e.lob),
        unique_ids(e.dark),
        settled(e) is Some,
    ensures
        settled(settled(e)->0) == Some(settled(e)->0),
{
    let ms = e.lob.matches + e.dark.matches;
    lemma_settle_from(e.users, e.lob, e.dark, ms);
    let s = settled(e)->0;
    assert(s.lob.matches + s.dark.matches == ms);
    assert forall|k: int| 0 <= k < s.users.len() implies (#[trigger] s.users[k]).1 == recounted(
        s.users[k].1,
        s.users[k].0,
        ms,
    ) && !recount_overflows(s.users[k].1, s.users[k].0, ms) && orders_fit(s.lob, s.dark, s.users[k].0, s.users[k].1) by {
        assert(s.users[k].1 == recounted(e.users[k].1, e.users[k].0, ms));
    }
    lemma_settle_fitting(s.users, s.lob, s.dark, ms);
}

/// The orders of `s` that are shown in the public book: each is an order
/// of `s` and is not hidden.
proof fn lemma_shown_orders(s: Seq<Order>)
    ensures
        forall|k: int| 0 <= k < s.filter(shown()).len() ==> !(#[trigger] s.filter(shown())[k]).hidden
            && s.contains(s.filter(shown())[k]),
{
    let f = s.filter(shown());
    assert forall|k: int| 0 <= k < f.len() implies !(#[trigger] f[k]).hidden && s.contains(f[k]) by {
        s.lemma_filter_pred(shown(), k);
        assert(f.contains(f[k]));
        s.lemma_filter_contains_rev(shown(), f[k]);
    }
}

/// What a trader is shown keeps other traders' secrets: the public book
/// shows only orders of the book that are not hidden, and the trader's
/// order lists hold only its own orders.
pub proof fn law_response_is_private(lob: BookView, dark: BookView, tid: i64, status: TraderStatus)
    ensures
        ({
            let r = response_spec(lob, dark, tid, status);
            let bids = lob.buy.filter(shown());
            let asks = lob.sell.filter(shown());
            &&& r.0 == bids.map_values(seen_by(tid))
            &&& r.1 == asks.map_values(seen_by(tid))
            &&& forall|k: int| 0 <= k < bids.len() ==> !(#[trigger] bids[k]).hidden && lob.buy.contains(bids[k])
            &&& forall|k: int| 0 <= k < asks.len() ==> !(#[trigger] asks[k]).hidden && lob.sell.contains(asks[k])
            &&& forall|k: int| 0 <= k < r.3.len() ==> (#[trigger] r.3[k]).trader == tid && present(lob, r.3[k])
            &&& forall|k: int| 0 <= k < r.5.len() ==> (#[trigger] r.5[k]).trader == tid && present(dark, r.5[k])
        }),
{
    lemma_shown_orders(lob.buy);
    lemma_shown_orders(lob.sell);
    let r = response_spec(lob, dark, tid, status);
    assert forall|k: int| 0 <= k < r.3.len() implies (#[trigger] r.3[k]).trader == tid && present(lob, r.3[k]) by {
        assert(r.3.contains(r.3[k]));
        lemma_trader_orders_sound(lob, tid, r.3[k]);
    }
    assert forall|k: int| 0 <= k < r.5.len() implies (#[trigger] r.5[k]).trader == tid && present(dark, r.5[k]) by {
        assert(r.5.contains(r.5[k]));
        lemma_trader_orders_sound(dark, tid, r.5[k]);
    }
}

/// Withdrawing orders, when it succeeds, keeps a book well formed.
proof fn lemma_drop_all_well_formed(b: BookView, os: Seq<Order>)
    requires
        well_formed(b),
        drop_all(b, os) is Some,
    ensures
        well_formed(drop_all(b, os)->0),
    decreases os.len(),
{
    if os.len() > 0 {
        law_drop_keeps_well_formed(b, os[0].id);
        lemma_drop_all_well_formed(after_drop(b, os[0].id), os.drop_first());
    }
}

proof fn lemma_enforce_well_formed(lob: BookView, dark: BookView, tid: i64, st: TraderStatus)
    requires
        well_formed(lob),
        well_formed(dark),
        enforce(lob, dark, tid, st) is Some,
    ensures
        well_formed((enforce(lob, dark, tid, st)->0).0),
        well_formed((enforce(lob, dark, tid, st)->0).1),
{
    let mine = trader_orders(lob, tid);
    let mine_dark = trader_orders(dark, tid);
    let off = mine.filter(off_goal(st.goal));
    let off_dark = mine_dark.filter(off_goal(st.goal));
    let p0 = if st.opp >= st.tolerance { drop_all(lob, off)->0 } else { lob };
    let p1 = if st.opp >= st.tolerance { drop_all(dark, off_dark)->0 } else { dark };
    if st.opp >= st.tolerance {
        lemma_drop_all_well_formed(lob, off);
        lemma_drop_all_well_formed(dark, off_dark);
    }
    if st.done >= st.amount {
        lemma_drop_all_well_formed(p0, mine);
        lemma_drop_all_well_formed(p1, mine_dark);
    }
}

proof fn lemma_settle_from_well_formed(users: Seq<Trader>, lob: BookView, dark: BookView, ms: Seq<crate::types::Match>)
    requires
        well_formed(lob),
        well_formed(dark),
        settle_from(users, lob, dark, ms) is Some,
    ensures
        well_formed((settle_from(users, lob, dark, ms)->0).1),
        well_formed((settle_from(users, lob, dark, ms)->0).2),
    decreases users.len(),
{
    if users.len() > 0 {
        let tid = users[0].0;
        let st2 = recounted(users[0].1, tid, ms);
        lemma_enforce_well_formed(lob, dark, tid, st2);
        let p = enforce(lob, dark, tid, st2)->0;
        lemma_settle_from_well_formed(users.drop_first(), p.0, p.1, ms);
    }
}

/// Serving a request keeps both books well formed.
pub proof fn law_serve_keeps_books_well_formed(e: ExchangeView, tid: i64, req: Request, now: u128, id: i64)
    requires
        well_formed(e.lob),
        well_formed(e.dark),
    ensures
        well_formed(served(registered(e, tid), tid, req, now, id).1.lob),
        well_formed(served(registered(e, tid), tid, req, now, id).1.dark),
{
    let e1 = registered(e, tid);
    match req {
        Request::ExchangeOrder(o) => {
            law_add_keeps_well_formed(e1.lob, crate::game::placed(o, tid, now, id));
        },
        Request::DarkpoolOrder(o) => {
            law_add_keeps_well_formed(e1.dark, crate::game::placed(o, tid, now, id));
        },
        Request::Get => {},
        Request::Cancel(cid) => {
            if book_holds(e1.lob, cid) {
                law_drop_keeps_well_formed(e1.lob, cid);
            }
        },
    }
}

/// Settling keeps both books well formed.
pub proof fn law_settle_keeps_books_well_formed(e: ExchangeView)
    requires
        well_formed(e.lob),
        well_formed(e.dark),
        settled(e) is Some,
    ensures
        well_formed(settled(e)->0.lob),
        well_formed(settled(e)->0.dark),
{
    lemma_settle_from_well_formed(e.users, e.lob, e.dark, e.lob.matches + e.dark.matches);
}

/// Orders that the trader `tid` may know of: those shown in the book, and
/// its own.
pub open spec fn known_to(tid: i64) -> spec_fn(Order) -> bool {
    |o: Order| !o.hidden || o.trader == tid
}

/// Filtering by a weaker test first changes nothing.
proof fn lemma_filter_filter(s: Seq<Order>, p: spec_fn(Order) -> bool, q: spec_fn(Order) -> bool)
    requires
        forall|x: Order| #[trigger] q(x) ==> p(x),
    ensures
        s.filter(p).filter(q) == s.filter(q),
    decreases s.len(),
{
    reveal(Seq::filter);
    if s.len() > 0 {
        lemma_filter_filter(s.drop_last(), p, q);
        let a = s.drop_last().filter(p);
        if p(s.last()) {
            assert(a.push(s.last()).drop_last() =~= a);
        }
    }
}

/// What a trader is shown depends on nothing it may not know: two states
/// whose books have the same trades, the same orders shown or owned by the
/// trader on the exchange, and the same orders of the trader in the dark
/// pool, give the trader the same response. Other traders' hidden orders
/// and dark pool orders are never disclosed.
pub proof fn law_response_noninterference(
    lob1: BookView,
    dark1: BookView,
    lob2: BookView,
    dark2: BookView,
    tid: i64,
    status: TraderStatus,
)
    requires
        lob1.matches == lob2.matches,
        dark1.matches == dark2.matches,
        lob1.buy.filter(known_to(tid)) == lob2.buy.filter(known_to(tid)),
        lob1.sell.filter(known_to(tid)) == lob2.sell.filter(known_to(tid)),
        dark1.buy.filter(by_trader(tid)) == dark2.buy.filter(by_trader(tid)),
        dark1.sell.filter(by_trader(tid)) == dark2.sell.filter(by_trader(tid)),
    ensures
        response_spec(lob1, dark1, tid, status) == response_spec(lob2, dark2, tid, status),
{
    assert forall|x: Order| #[trigger] shown()(x) implies known_to(tid)(x) by {}
    assert forall|x: Order| #[trigger] by_trader(tid)(x) implies known_to(tid)(x) by {}
    lemma_filter_filter(lob1.buy, known_to(tid), shown());
    lemma_filter_filter(lob2.buy, known_to(tid), shown());
    lemma_filter_filter(lob1.sell, known_to(tid), shown());
    lemma_filter_filter(lob2.sell, known_to(tid), shown());
    lemma_filter_filter(lob1.buy, known_to(tid), by_trader(tid));
    lemma_filter_filter(lob2.buy, known_to(tid), by_trader(tid));
    lemma_filter_filter(lob1.sell, known_to(tid), by_trader(tid));
    lemma_filter_filter(lob2.sell, known_to(tid), by_trader(tid));
}

/// Two newcomers in a row get opposite goals.
pub proof fn law_goals_alternate(e: ExchangeView, t1: i64, t2: i64)
    requires
        lookup(e.users, t1) is None,
        lookup(e.users, t2) is None,
        t1 != t2,
    ensures
        ({
            let e1 = registered(e, t1);
            let e2 = registered(e1, t2);
            &&& lookup(e1.users, t1) is Some
            &&& lookup(e2.users, t2) is Some
            &&& lookup(e2.users, t2)->0.goal == opposite(lookup(e1.users, t1)->0.goal)
        }),
{
    let e1 = registered(e, t1);
    let e2 = registered(e1, t2);
    lemma_push_lookup(e.users, t1, fresh_status(e.prev));
    lemma_push_other(e.users, t2, t1, fresh_status(e.prev));
    lemma_push_lookup(e1.users, t2, fresh_status(e1.prev));
}

/// Looking up a newcomer just added finds it.
pub(crate) proof fn lemma_push_lookup(users: Seq<Trader>, tid: i64, st: TraderStatus)
    requires
        lookup(users, tid) is None,
    ensures
        lookup(users.push((tid, st)), tid) == Some(st),
{
    crate::game::lemma_user_index(users, tid);
    let u = users.push((tid, st));
    assert forall|k: int| 0 <= k < users.len() implies (#[trigger] u[k]).0 != tid by {
        assert(u[k] == users[k]);
    }
    crate::game::lemma_user_index_at(u, tid, users.len() as int);
}

/// A trader that has not arrived is still absent after another arrives.
proof fn lemma_push_other(users: Seq<Trader>, tid: i64, other: i64, st: TraderStatus)
    requires
        lookup(users, tid) is None,
        other != tid,
    ensures
        lookup(users.push((other, st)), tid) is None,
{
    crate::game::lemma_user_index(users, tid);
    let u = users.push((other, st));
    assert forall|k: int| 0 <= k < u.len() implies (#[trigger] u[k]).0 != tid by {
        if k < users.len() {
            assert(u[k] == users[k]);
        }
    }
    crate::game::lemma_user_index_at(u, tid, u.len() as int);
}

} // verus!
