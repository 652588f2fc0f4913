//! Order ids stay unique: adding an order whose id no book holds, withdrawing
//! an order, and settling never make two resting orders share an id.

use vstd::prelude::*;
use crate::types::{Order, OrderType, Request, opposite, with_qty};
use crate::priority::{insert_ranked, sort_ranked};
use crate::sorting::lemma_insert_pos;
use crate::book::{BookView, after_add, book_holds, holds_id, queue_of, sweep, passes_over, stops_at};
use crate::settle_laws::distinct_ids;
use crate::game::{ExchangeView, registered, served, placed, settled};
use crate::game_laws::{all_orders, unique_ids, lemma_drop_unique, lemma_settle_from};

verus! {

/// The ids of a book are unique exactly when each side's are and no id
/// rests on both sides.
proof fn lemma_unique_split(b: BookView)
    ensures
        unique_ids(b) <==> (distinct_ids(b.buy) && distinct_ids(b.sell) && forall|id: i64|
            !(#[trigger] holds_id(b.buy, id) && holds_id(b.sell, id))),
{
    let s = all_orders(b);
    let n = b.buy.len();
    assert forall|i: int| 0 <= i < s.len() implies #[trigger] s[i] == if i < n { b.buy[i] } else { b.sell[i - n] } by {}
    if unique_ids(b) {
        assert forall|i: int, j: int| 0 <= i < j < b.buy.len() implies (#[trigger] b.buy[i]).id != (#[trigger] b.buy[j]).id by {
            assert(s[i] == b.buy[i] && s[j] == b.buy[j]);
        }
        assert forall|i: int, j: int| 0 <= i < j < b.sell.len() implies (#[trigger] b.sell[i]).id != (#[trigger] b.sell[j]).id by {
            assert(s[n + i] == b.sell[i] && s[n + j] == b.sell[j]);
        }
        assert forall|id: i64| !(#[trigger] holds_id(b.buy, id) && holds_id(b.sell, id)) by {
            if holds_id(b.buy, id) && holds_id(b.sell, id) {
                let i = choose|i: int| 0 <= i < b.buy.len() && (#[trigger] b.buy[i]).id == id;
                let j = choose|j: int| 0 <= j < b.sell.len() && (#[trigger] b.sell[j]).id == id;
                assert(s[i] == b.buy[i] && s[n + j] == b.sell[j]);
            }
        }
    }
    if distinct_ids(b.buy) && distinct_ids(b.sell) && forall|id: i64| !(#[trigger] holds_id(b.buy, id) && holds_id(b.sell, id)) {
        assert forall|i: int, j: int| 0 <= i < j < s.len() implies (#[trigger] s[i]).id != (#[trigger] s[j]).id by {
            if i < n && j >= n {
                assert(holds_id(b.buy, s[i].id));
                assert(b.sell[j - n] == s[j]);
                if s[i].id == s[j].id {
                    assert(holds_id(b.sell, s[i].id));
                }
            } else if i >= n {
                assert(b.sell[i - n] == s[i] && b.sell[j - n] == s[j]);
            }
        }
    }
}

/// Inserting `x` adds its id; with an id not yet there, ids stay distinct.
proof fn lemma_insert_ids(s: Seq<Order>, pos: int, x: Order)
    requires
        0 <= pos <= s.len(),
    ensures
        forall|id: i64| #[trigger] holds_id(s.insert(pos, x), id) <==> holds_id(s, id) || x.id == id,
        distinct_ids(s) && !holds_id(s, x.id) ==> distinct_ids(s.insert(pos, x)),
{
    let r = s.insert(pos, x);
    assert forall|i: int| 0 <= i < r.len() implies #[trigger] r[i] == if i < pos { s[i] } else if i == pos { x } else { s[i - 1] } by {}
    assert forall|id: i64| #[trigger] holds_id(r, id) <==> holds_id(s, id) || x.id == id by {
        if holds_id(s, id) {
            let i = choose|i: int| 0 <= i < s.len() && (#[trigger] s[i]).id == id;
            let ri = if i < pos { i } else { i + 1 };
            assert(r[ri] == s[i]);
        }
        if x.id == id {
            assert(r[pos] == x);
        }
        if holds_id(r, id) {
            let i = choose|i: int| 0 <= i < r.len() && (#[trigger] r[i]).id == id;
            if i < pos {
                assert(s[i] == r[i]);
            } else if i > pos {
                assert(s[i - 1] == r[i]);
            }
        }
    }
    if distinct_ids(s) && !holds_id(s, x.id) {
        assert forall|i: int, j: int| 0 <= i < j < r.len() implies (#[trigger] r[i]).id != (#[trigger] r[j]).id by {
            if i == pos {
                assert(r[j] == s[j - 1]);
            } else if j == pos {
                assert(r[i] == s[i]);
            } else {
                let si = if i < pos { i } else { i - 1 };
                let sj = if j < pos { j } else { j - 1 };
                assert(r[i] == s[si] && r[j] == s[sj]);
            }
        }
    }
}

/// Sorting keeps the ids of a queue, and keeps them distinct.
proof fn lemma_sort_ids(side: OrderType, s: Seq<Order>)
    ensures
        forall|id: i64| #[trigger] holds_id(sort_ranked(side, s), id) <==> holds_id(s, id),
        distinct_ids(s) ==> distinct_ids(sort_ranked(side, s)),
    decreases s.len(),
{
    if s.len() > 0 {
        let t = s.drop_last();
        let x = s.last();
        lemma_sort_ids(side, t);
        let st = sort_ranked(side, t);
        lemma_insert_pos(side, st, x);
        lemma_insert_ids(st, crate::priority::insert_pos(side, st, x), x);
        assert(sort_ranked(side, s) == insert_ranked(side, st, x));
        assert forall|id: i64| holds_id(s, id) <==> holds_id(t, id) || x.id == id by {
            if holds_id(s, id) {
                let i = choose|i: int| 0 <= i < s.len() && (#[trigger] s[i]).id == id;
                if i < s.len() - 1 {
                    assert(t[i] == s[i]);
                }
            }
            if holds_id(t, id) {
                let i = choose|i: int| 0 <= i < t.len() && (#[trigger] t[i]).id == id;
                assert(s[i] == t[i]);
            }
        }
        if distinct_ids(s) {
            assert forall|i: int, j: int| 0 <= i < j < t.len() implies (#[trigger] t[i]).id != (#[trigger] t[j]).id by {
                assert(t[i] == s[i] && t[j] == s[j]);
            }
            if holds_id(t, x.id) {
                let i = choose|i: int| 0 <= i < t.len() && (#[trigger] t[i]).id == x.id;
                assert(t[i] == s[i]);
                assert(s[s.len() - 1] == x);
            }
        }
    }
}

/// Dropping the front keeps ids among those there were, and distinct.
proof fn lemma_drop_first_ids(s: Seq<Order>)
    requires
        s.len() > 0,
    ensures
        forall|id: i64| #[trigger] holds_id(s.drop_first(), id) ==> holds_id(s, id),
        distinct_ids(s) ==> distinct_ids(s.drop_first()) && !holds_id(s.drop_first(), s[0].id),
{
    let t = s.drop_first();
    assert forall|i: int| 0 <= i < t.len() implies #[trigger] t[i] == s[i + 1] by {}
    assert forall|id: i64| #[trigger] holds_id(t, id) implies holds_id(s, id) by {
        let i = choose|i: int| 0 <= i < t.len() && (#[trigger] t[i]).id == id;
        assert(s[i + 1] == t[i]);
    }
    if distinct_ids(s) {
        assert forall|i: int, j: int| 0 <= i < j < t.len() implies (#[trigger] t[i]).id != (#[trigger] t[j]).id by {
            assert(t[i] == s[i + 1] && t[j] == s[j + 1]);
        }
        if holds_id(t, s[0].id) {
            let i = choose|i: int| 0 <= i < t.len() && (#[trigger] t[i]).id == s[0].id;
            assert(t[i] == s[i + 1]);
        }
    }
}

/// Changing the quantity of the front order keeps every id in its place.
proof fn lemma_update_front_ids(s: Seq<Order>, q: u64)
    requires
        s.len() > 0,
    ensures
        forall|id: i64| #[trigger] holds_id(s.update(0, with_qty(s[0], q)), id) <==> holds_id(s, id),
        distinct_ids(s) ==> distinct_ids(s.update(0, with_qty(s[0], q))),
{
    let t = s.update(0, with_qty(s[0], q));
    assert forall|i: int| 0 <= i < t.len() implies (#[trigger] t[i]).id == s[i].id by {}
    assert forall|id: i64| #[trigger] holds_id(t, id) <==> holds_id(s, id) by {
        if holds_id(t, id) {
            let i = choose|i: int| 0 <= i < t.len() && (#[trigger] t[i]).id == id;
            assert(s[i].id == t[i].id);
        }
        if holds_id(s, id) {
            let i = choose|i: int| 0 <= i < s.len() && (#[trigger] s[i]).id == id;
            assert(s[i].id == t[i].id);
        }
    }
    if distinct_ids(s) {
        assert forall|i: int, j: int| 0 <= i < j < t.len() implies (#[trigger] t[i]).id != (#[trigger] t[j]).id by {
            assert(t[i].id == s[i].id && t[j].id == s[j].id);
        }
    }
}

/// Matching leaves in each queue only ids that were there, and keeps them
/// distinct.
proof fn lemma_sweep_ids(order: Order, queue: Seq<Order>, rest: Seq<Order>, fills: Seq<crate::types::Match>)
    requires
        queue.len() > 0,
    ensures
        ({
            let r = sweep(order, queue, rest, fills);
            &&& forall|id: i64| #[trigger] holds_id(r.0, id) ==> holds_id(queue, id)
            &&& forall|id: i64| #[trigger] holds_id(r.1, id) ==> holds_id(rest, id)
            &&& distinct_ids(queue) ==> distinct_ids(r.0)
            &&& distinct_ids(rest) ==> distinct_ids(r.1)
        }),
    decreases rest.len(),
{
    if rest.len() > 0 {
        let o = rest[0];
        let t = rest.drop_first();
        lemma_drop_first_ids(rest);
        if passes_over(order, o) {
            lemma_sweep_ids(order, queue, t, fills);
            let r = sweep(order, queue, t, fills);
            let s1 = seq![o] + r.1;
            assert(sweep(order, queue, rest, fills).1 == s1);
            assert forall|i: int| 0 <= i < s1.len() implies #[trigger] s1[i] == if i == 0 { o } else { r.1[i - 1] } by {}
            assert forall|id: i64| #[trigger] holds_id(s1, id) implies holds_id(rest, id) by {
                let i = choose|i: int| 0 <= i < s1.len() && (#[trigger] s1[i]).id == id;
                if i == 0 {
                    assert(rest[0] == o);
                } else {
                    assert(holds_id(r.1, id));
                }
            }
            if distinct_ids(rest) {
                assert forall|i: int, j: int| 0 <= i < j < s1.len() implies (#[trigger] s1[i]).id != (#[trigger] s1[j]).id by {
                    if i == 0 {
                        assert(s1[j] == r.1[j - 1]);
                        if o.id == s1[j].id {
                            assert(holds_id(r.1, o.id));
                        }
                    } else {
                        assert(s1[i] == r.1[i - 1] && s1[j] == r.1[j - 1]);
                    }
                }
            }
        } else if stops_at(order, o) {
        } else {
            let head = queue[0];
            if o.qty < head.qty {
                let q2 = queue.update(0, with_qty(head, (head.qty - o.qty) as u64));
                lemma_update_front_ids(queue, (head.qty - o.qty) as u64);
                lemma_sweep_ids(order, q2, t, fills.push(crate::book::trade(order, o, o.qty)));
                let r = sweep(order, q2, t, fills.push(crate::book::trade(order, o, o.qty)));
                assert(sweep(order, queue, rest, fills) == r);
                assert forall|id: i64| #[trigger] holds_id(r.0, id) implies holds_id(queue, id) by {
                    assert(holds_id(q2, id));
                }
                assert forall|id: i64| #[trigger] holds_id(r.1, id) implies holds_id(rest, id) by {
                    assert(holds_id(t, id));
                }
            } else if o.qty == head.qty {
                lemma_drop_first_ids(queue);
                assert(sweep(order, queue, rest, fills) == (queue.drop_first(), t, fills.push(crate::book::trade(order, o, o.qty))));
            } else {
                lemma_drop_first_ids(queue);
                lemma_update_front_ids(rest, (o.qty - head.qty) as u64);
                assert(sweep(order, queue, rest, fills) == (
                    queue.drop_first(),
                    rest.update(0, with_qty(o, (o.qty - head.qty) as u64)),
                    fills.push(crate::book::trade(order, o, head.qty)),
                ));
            }
        }
    }
}

/// Adding an order whose id the book does not hold keeps the book's ids
/// unique, and leaves in it only that id and ids it held.
proof fn lemma_add_ids(b: BookView, order: Order)
    requires
        unique_ids(b),
        !book_holds(b, order.id),
    ensures
        unique_ids(after_add(b, order)),
        forall|id: i64| #[trigger] book_holds(after_add(b, order), id) ==> book_holds(b, id) || id == order.id,
{
    lemma_unique_split(b);
    let side = order.otype;
    let q = queue_of(b, side);
    let o = queue_of(b, opposite(side));
    let pq = q.push(order);
    assert(pq == q.insert(q.len() as int, order));
    lemma_insert_ids(q, q.len() as int, order);
    let sq = sort_ranked(side, pq);
    lemma_sort_ids(side, pq);
    assert(holds_id(sq, order.id));
    lemma_sweep_ids(order, sq, o, b.matches);
    let res = sweep(order, sq, o, b.matches);
    let a = after_add(b, order);
    assert(queue_of(a, side) == res.0 && queue_of(a, opposite(side)) == res.1) by {
        match side {
            OrderType::Bid => {},
            OrderType::Ask => {},
        }
    }
    assert forall|id: i64| !(#[trigger] holds_id(a.buy, id) && holds_id(a.sell, id)) by {
        if holds_id(res.0, id) && holds_id(res.1, id) {
            assert(holds_id(o, id));
            if side == OrderType::Bid {
                assert(!(holds_id(b.buy, id) && holds_id(b.sell, id)));
            } else {
                assert(!(holds_id(b.buy, id) && holds_id(b.sell, id)));
            }
        }
    }
    lemma_unique_split(a);
}

/// Serving a request keeps order ids unique in both books, where the id
/// given to a placed order is held by neither book.
pub proof fn law_serve_keeps_ids_unique(e: ExchangeView, tid: i64, req: Request, now: u128, id: i64)
    requires
        unique_ids(e.lob),
        unique_ids(e.dark),
        !book_holds(e.lob, id),
        !book_holds(e.dark, id),
    ensures
        unique_ids(served(registered(e, tid), tid, req, now, id).1.lob),
        unique_ids(served(registered(e, tid), tid, req, now, id).1.dark),
{
    let e1 = registered(e, tid);
    match req {
        Request::ExchangeOrder(o) => {
            lemma_add_ids(e1.lob, placed(o, tid, now, id));
        },
        Request::DarkpoolOrder(o) => {
            lemma_add_ids(e1.dark, placed(o, tid, now, id));
        },
        Request::Get => {},
        Request::Cancel(cid) => {
            if book_holds(e1.lob, cid) {
                lemma_drop_unique(e1.lob, cid);
            }
        },
    }
}

/// Settling, when it succeeds, keeps order ids unique in both books.
pub proof fn law_settle_keeps_ids_unique(e: ExchangeView)
    requires
        unique_ids(e.lob),
        unique_ids(e.dark),
        settled(e) is Some,
    ensures
        unique_ids(settled(e)->0.lob),
        unique_ids(settled(e)->0.dark),
{
    lemma_settle_from(e.users, e.lob, e.dark, e.lob.matches + e.dark.matches);
}

} // verus!
