//! What every book operation keeps: a well-formed book stays well formed,
//! quantity is conserved by trading, and every trade respects the limit
//! prices of both parties.

use vstd::prelude::*;
use crate::types::{Order, OrderType, Match, opposite, with_qty};
use crate::priority::{ranks_behind, is_ranked, insert_pos, insert_ranked, sort_ranked};
use crate::sorting::{lemma_insert_pos, lemma_insert_keeps_ranked, lemma_sort_of_ranked, lemma_sort_push};
use crate::book::{
    BookView, queue_of, sweep, after_add, after_drop, passes_over, stops_at, trade, holds_id,
    id_index, book_holds, lemma_id_index,
};

verus! {

/// Every order of `s` is of side `side`.
pub open spec fn all_of_side(s: Seq<Order>, side: OrderType) -> bool {
    forall|i: int| 0 <= i < s.len() ==> (#[trigger] s[i]).otype == side
}

/// Every bid of the book is priced below every ask.
pub open spec fn uncrossed(b: BookView) -> bool {
    forall|i: int, j: int|
        0 <= i < b.buy.len() && 0 <= j < b.sell.len() ==> (#[trigger] b.buy[i]).price < (#[trigger] b.sell[j]).price
}

/// A well-formed book: each queue is in priority order and holds orders of
/// its side only, and the book is not crossed.
pub open spec fn well_formed(b: BookView) -> bool {
    &&& is_ranked(OrderType::Bid, b.buy)
    &&& is_ranked(OrderType::Ask, b.sell)
    &&& all_of_side(b.buy, OrderType::Bid)
    &&& all_of_side(b.sell, OrderType::Ask)
    &&& uncrossed(b)
}

/// Total quantity of the orders of `s`.
pub open spec fn total_qty(s: Seq<Order>) -> int
    decreases s.len(),
{
    if s.len() == 0 {
        0
    } else {
        total_qty(s.drop_last()) + s.last().qty
    }
}

/// Total quantity of the trades of `m`.
pub open spec fn traded_qty(m: Seq<Match>) -> int
    decreases m.len(),
{
    if m.len() == 0 {
        0
    } else {
        traded_qty(m.drop_last()) + m.last().qty
    }
}

/// The trade `m` of the incoming `order` against the resting order `o`
/// gives the incoming trader its side of the trade, the owner of `o` the
/// other, and a price within both limits: the resting order's price, unless
/// the incoming order is the older one; and at most the resting quantity.
pub open spec fn trade_fits(order: Order, o: Order, m: Match) -> bool {
    &&& m.price == if order.time < o.time { order.price } else { o.price }
    &&& m.qty <= o.qty
    &&& match order.otype {
        OrderType::Ask => m.seller == order.trader && m.buyer == o.trader && order.price <= m.price
            <= o.price,
        OrderType::Bid => m.buyer == order.trader && m.seller == o.trader && o.price <= m.price
            <= order.price,
    }
}

/// The resting order `o` is within reach of the incoming `order`: a bid at
/// or above an ask's price, or an ask at or below a bid's price.
pub open spec fn crosses(order: Order, o: Order) -> bool {
    match order.otype {
        OrderType::Ask => o.price >= order.price,
        OrderType::Bid => o.price <= order.price,
    }
}

/// Total quantity of the orders of `rest` within reach of `order`.
pub open spec fn cross_qty(order: Order, rest: Seq<Order>) -> int
    decreases rest.len(),
{
    if rest.len() == 0 {
        0
    } else {
        (if crosses(order, rest[0]) { rest[0].qty as int } else { 0int }) + cross_qty(order, rest.drop_first())
    }
}

/// The smaller of `a` and `b`.
pub open spec fn smaller(a: int, b: int) -> int {
    if a <= b {
        a
    } else {
        b
    }
}

/// `q` (on the side of the incoming order) and `o` (on the other side) do
/// not cross.
pub open spec fn apart(side: OrderType, q: Order, o: Order) -> bool {
    match side {
        OrderType::Ask => o.price < q.price,
        OrderType::Bid => q.price < o.price,
    }
}

/// `b` is `a` with perhaps another quantity.
pub open spec fn same_but_qty(a: Order, b: Order) -> bool {
    with_qty(a, b.qty) == b
}

proof fn lemma_total_qty_insert(s: Seq<Order>, i: int, x: Order)
    requires
        0 <= i <= s.len(),
    ensures
        total_qty(s.insert(i, x)) == total_qty(s) + x.qty,
    decreases s.len(),
{
    if i == s.len() {
        assert(s.insert(i, x).drop_last() =~= s);
    } else {
        lemma_total_qty_insert(s.drop_last(), i, x);
        assert(s.insert(i, x).drop_last() =~= s.drop_last().insert(i, x));
    }
}

proof fn lemma_total_qty_front(s: Seq<Order>, y: Order)
    requires
        s.len() > 0,
    ensures
        total_qty(s.drop_first()) == total_qty(s) - s[0].qty,
        total_qty(s.update(0, y)) == total_qty(s) - s[0].qty + y.qty,
        total_qty(seq![y] + s) == total_qty(s) + y.qty,
{
    lemma_total_qty_insert(s.drop_first(), 0, s[0]);
    assert(s.drop_first().insert(0, s[0]) =~= s);
    lemma_total_qty_insert(s.drop_first(), 0, y);
    assert(s.drop_first().insert(0, y) =~= s.update(0, y));
    lemma_total_qty_insert(s, 0, y);
    assert(s.insert(0, y) =~= seq![y] + s);
}

proof fn lemma_total_qty_sort(side: OrderType, s: Seq<Order>)
    ensures
        total_qty(sort_ranked(side, s)) == total_qty(s),
    decreases s.len(),
{
    if s.len() > 0 {
        lemma_total_qty_sort(side, s.drop_last());
        lemma_insert_pos(side, sort_ranked(side, s.drop_last()), s.last());
        crate::sorting::lemma_sort_ranked(side, s.drop_last());
        lemma_total_qty_insert(
            sort_ranked(side, s.drop_last()),
            insert_pos(side, sort_ranked(side, s.drop_last()), s.last()),
            s.last(),
        );
    }
}

proof fn lemma_ranked_drop_first(side: OrderType, s: Seq<Order>)
    requires
        s.len() > 0,
        is_ranked(side, s),
    ensures
        is_ranked(side, s.drop_first()),
{
    let t = s.drop_first();
    assert forall|i: int, j: int| 0 <= i < j < t.len() implies !ranks_behind(side, #[trigger] t[i], #[trigger] t[j]) by {
        assert(t[i] == s[i + 1] && t[j] == s[j + 1]);
    }
}

proof fn lemma_ranked_update_front(side: OrderType, s: Seq<Order>, y: Order)
    requires
        s.len() > 0,
        is_ranked(side, s),
        same_but_qty(s[0], y),
    ensures
        is_ranked(side, s.update(0, y)),
{
    let t = s.update(0, y);
    assert forall|i: int, j: int| 0 <= i < j < t.len() implies !ranks_behind(side, #[trigger] t[i], #[trigger] t[j]) by {
        assert(!ranks_behind(side, s[i], s[j]));
    }
}

/// Quantity is conserved by matching: what leaves the two sides is what the
/// new trades carry, once for each side. Earlier trades are kept.
proof fn lemma_sweep_conserves(order: Order, queue: Seq<Order>, rest: Seq<Order>, fills: Seq<Match>)
    requires
        queue.len() > 0,
    ensures
        ({
            let res = sweep(order, queue, rest, fills);
            &&& total_qty(res.0) + total_qty(res.1) + 2 * traded_qty(res.2) == total_qty(queue)
                + total_qty(rest) + 2 * traded_qty(fills)
            &&& res.2.len() >= fills.len()
            &&& res.2.take(fills.len() as int) == fills
        }),
    decreases rest.len(),
{
    if rest.len() > 0 {
        let o = rest[0];
        let head = queue[0];
        lemma_total_qty_front(rest, o);
        lemma_total_qty_front(queue, head);
        if passes_over(order, o) {
            lemma_sweep_conserves(order, queue, rest.drop_first(), fills);
            let r1 = sweep(order, queue, rest.drop_first(), fills).1;
            lemma_total_qty_insert(r1, 0, o);
            assert(r1.insert(0, o) =~= seq![o] + r1);
        } else if stops_at(order, o) {
            assert(fills.take(fills.len() as int) =~= fills);
        } else {
            let t = if o.qty <= head.qty { trade(order, o, o.qty) } else { trade(order, o, head.qty) };
            assert(fills.push(t).drop_last() =~= fills);
            assert(fills.push(t).take(fills.len() as int) =~= fills);
            if o.qty < head.qty {
                let nq = queue.update(0, with_qty(head, (head.qty - o.qty) as u64));
                lemma_total_qty_front(queue, with_qty(head, (head.qty - o.qty) as u64));
                lemma_sweep_conserves(order, nq, rest.drop_first(), fills.push(t));
                let res = sweep(order, nq, rest.drop_first(), fills.push(t));
                assert(res.2.take(fills.len() as int) =~= res.2.take(fills.len() + 1int).take(
                    fills.len() as int,
                ));
            } else if o.qty > head.qty {
                lemma_total_qty_front(rest, with_qty(o, (o.qty - head.qty) as u64));
            }
        }
    }
}

/// Matching only appends trades.
proof fn lemma_sweep_keeps_fills(order: Order, queue: Seq<Order>, rest: Seq<Order>, fills: Seq<Match>)
    ensures
        sweep(order, queue, rest, fills).2.len() >= fills.len(),
        forall|k: int| 0 <= k < fills.len() ==> #[trigger] sweep(order, queue, rest, fills).2[k] == fills[k],
    decreases rest.len(),
{
    if rest.len() > 0 {
        let o = rest[0];
        let head = queue[0];
        if passes_over(order, o) {
            lemma_sweep_keeps_fills(order, queue, rest.drop_first(), fills);
        } else if stops_at(order, o) {
        } else if o.qty < head.qty {
            let m = trade(order, o, o.qty);
            let nq = queue.update(0, with_qty(head, (head.qty - o.qty) as u64));
            lemma_sweep_keeps_fills(order, nq, rest.drop_first(), fills.push(m));
            assert forall|k: int| 0 <= k < fills.len() implies #[trigger] sweep(order, queue, rest, fills).2[k] == fills[k] by {
                assert(sweep(order, nq, rest.drop_first(), fills.push(m)).2[k] == fills.push(m)[k]);
            }
        }
    }
}

/// Both queues ranked and one-sided, with the incoming side not empty.
pub open spec fn sweep_shaped(order: Order, queue: Seq<Order>, rest: Seq<Order>) -> bool {
    let side = order.otype;
    &&& queue.len() > 0
    &&& is_ranked(side, queue)
    &&& all_of_side(queue, side)
    &&& is_ranked(opposite(side), rest)
    &&& all_of_side(rest, opposite(side))
}

/// The conditions under which matching keeps a book well formed: both
/// queues shaped, and no resting order crossing the front of the incoming
/// side except where that front is at the incoming price.
pub open spec fn sweep_ready(order: Order, queue: Seq<Order>, rest: Seq<Order>) -> bool {
    let side = order.otype;
    &&& sweep_shaped(order, queue, rest)
    &&& forall|k: int, i: int|
        0 <= k < queue.len() && 0 <= i < rest.len() ==> apart(side, #[trigger] queue[k], #[trigger] rest[i])
            || (k == 0 && queue[0].price == order.price)
    &&& side == OrderType::Ask ==> queue[0].price <= order.price
    &&& side == OrderType::Bid ==> queue[0].price >= order.price
}

/// What matching leaves of the two queues: both ranked and one-sided; the
/// incoming side is its input with the front order resized or gone; every
/// order left on the other side is an input order, perhaps resized.
pub open spec fn sweep_shape_kept(order: Order, queue: Seq<Order>, rest: Seq<Order>, res: (Seq<Order>, Seq<Order>, Seq<Match>)) -> bool {
    let side = order.otype;
    &&& is_ranked(side, res.0)
    &&& all_of_side(res.0, side)
    &&& is_ranked(opposite(side), res.1)
    &&& all_of_side(res.1, opposite(side))
    &&& res.0.len() == queue.len() ==> forall|k: int|
        0 <= k < queue.len() ==> same_but_qty(#[trigger] queue[k], res.0[k])
    &&& res.0.len() != queue.len() ==> res.0 == queue.drop_first()
    &&& forall|i: int| 0 <= i < res.1.len() ==> exists|j: int|
        0 <= j < rest.len() && same_but_qty(#[trigger] rest[j], #[trigger] res.1[i])
}

/// Matching keeps both queues ranked and one-sided.
proof fn lemma_sweep_shape(order: Order, queue: Seq<Order>, rest: Seq<Order>, fills: Seq<Match>)
    requires
        sweep_shaped(order, queue, rest),
    ensures
        sweep_shape_kept(order, queue, rest, sweep(order, queue, rest, fills)),
    decreases rest.len(),
{
    let side = order.otype;
    let opp = opposite(side);
    let res = sweep(order, queue, rest, fills);
    if rest.len() == 0 {
        return;
    }
    let o = rest[0];
    let head = queue[0];
    let t = rest.drop_first();
    lemma_ranked_drop_first(opp, rest);
    assert forall|j: int| 0 <= j < t.len() implies (#[trigger] t[j]).otype == opp by {
        assert(t[j] == rest[j + 1]);
    }
    if passes_over(order, o) {
        lemma_sweep_shape(order, queue, t, fills);
        let r = sweep(order, queue, t, fills);
        assert(res.0 == r.0);
        assert(res.1 == seq![o] + r.1);
        assert forall|i: int| 0 <= i < res.1.len() implies exists|j: int|
            0 <= j < rest.len() && same_but_qty(#[trigger] rest[j], #[trigger] res.1[i]) by {
            if i == 0 {
                assert(same_but_qty(rest[0], res.1[0]));
            } else {
                assert(res.1[i] == r.1[i - 1]);
                let j = choose|j: int| 0 <= j < t.len() && same_but_qty(#[trigger] t[j], #[trigger] r.1[i - 1]);
                assert(t[j] == rest[j + 1]);
            }
        }
        assert forall|i: int, j: int| 0 <= i < j < res.1.len() implies !ranks_behind(opp, #[trigger] res.1[i], #[trigger] res.1[j]) by {
            if i == 0 {
                let jj = choose|jj: int| 0 <= jj < t.len() && same_but_qty(#[trigger] t[jj], #[trigger] r.1[j - 1]);
                assert(t[jj] == rest[jj + 1]);
                assert(!ranks_behind(opp, rest[0], rest[jj + 1]));
            } else {
                assert(res.1[i] == r.1[i - 1] && res.1[j] == r.1[j - 1]);
            }
        }
        assert forall|i: int| 0 <= i < res.1.len() implies (#[trigger] res.1[i]).otype == opp by {
            if i > 0 {
                assert(res.1[i] == r.1[i - 1]);
            }
        }
    } else if stops_at(order, o) {
        assert(res.0 == queue && res.1 == rest);
        assert forall|i: int| 0 <= i < res.1.len() implies exists|j: int|
            0 <= j < rest.len() && same_but_qty(#[trigger] rest[j], #[trigger] res.1[i]) by {
            assert(same_but_qty(rest[i], res.1[i]));
        }
        assert forall|k: int| 0 <= k < queue.len() implies same_but_qty(#[trigger] queue[k], res.0[k]) by {}
    } else if o.qty < head.qty {
        let nh = with_qty(head, (head.qty - o.qty) as u64);
        let nq = queue.update(0, nh);
        let m = trade(order, o, o.qty);
        lemma_ranked_update_front(side, queue, nh);
        assert forall|k: int| 0 <= k < nq.len() implies (#[trigger] nq[k]).otype == side by {}
        lemma_sweep_shape(order, nq, t, fills.push(m));
        let r = sweep(order, nq, t, fills.push(m));
        assert(res == r);
        if r.0.len() == queue.len() {
            assert forall|k: int| 0 <= k < queue.len() implies same_but_qty(#[trigger] queue[k], res.0[k]) by {
                assert(same_but_qty(nq[k], r.0[k]));
            }
        } else {
            assert(r.0 =~= queue.drop_first());
        }
        assert forall|i: int| 0 <= i < res.1.len() implies exists|j: int|
            0 <= j < rest.len() && same_but_qty(#[trigger] rest[j], #[trigger] res.1[i]) by {
            let j = choose|j: int| 0 <= j < t.len() && same_but_qty(#[trigger] t[j], #[trigger] r.1[i]);
            assert(t[j] == rest[j + 1]);
        }
    } else if o.qty == head.qty {
        lemma_ranked_drop_first(side, queue);
        let q = queue.drop_first();
        assert(res.0 == q && res.1 == t);
        assert forall|k: int| 0 <= k < q.len() implies (#[trigger] q[k]).otype == side by {
            assert(q[k] == queue[k + 1]);
        }
        assert forall|i: int| 0 <= i < t.len() implies exists|j: int|
            0 <= j < rest.len() && same_but_qty(#[trigger] rest[j], #[trigger] t[i]) by {
            assert(t[i] == rest[i + 1]);
            assert(same_but_qty(rest[i + 1], t[i]));
        }
    } else {
        let no = with_qty(o, (o.qty - head.qty) as u64);
        let r1 = rest.update(0, no);
        lemma_ranked_drop_first(side, queue);
        lemma_ranked_update_front(opp, rest, no);
        let q = queue.drop_first();
        assert(res.0 == q && res.1 == r1);
        assert forall|k: int| 0 <= k < q.len() implies (#[trigger] q[k]).otype == side by {
            assert(q[k] == queue[k + 1]);
        }
        assert forall|i: int| 0 <= i < r1.len() implies (#[trigger] r1[i]).otype == opp by {}
        assert forall|i: int| 0 <= i < r1.len() implies exists|j: int|
            0 <= j < rest.len() && same_but_qty(#[trigger] rest[j], #[trigger] r1[i]) by {
            assert(same_but_qty(rest[i], r1[i]));
        }
    }
}

/// Matching from a ready state leaves both sides shaped and apart.
proof fn lemma_sweep_well_formed(order: Order, queue: Seq<Order>, rest: Seq<Order>, fills: Seq<Match>)
    requires
        sweep_ready(order, queue, rest),
    ensures
        sweep_shape_kept(order, queue, rest, sweep(order, queue, rest, fills)),
        forall|k: int, i: int|
            0 <= k < sweep(order, queue, rest, fills).0.len() && 0 <= i < sweep(order, queue, rest, fills).1.len()
                ==> apart(order.otype, #[trigger] sweep(order, queue, rest, fills).0[k], #[trigger] sweep(order, queue, rest, fills).1[i]),
    decreases rest.len(),
{
    let side = order.otype;
    let opp = opposite(side);
    let res = sweep(order, queue, rest, fills);
    lemma_sweep_shape(order, queue, rest, fills);
    if rest.len() == 0 {
        return;
    }
    let o = rest[0];
    let head = queue[0];
    let t = rest.drop_first();
    lemma_ranked_drop_first(opp, rest);
    assert forall|j: int| 0 <= j < t.len() implies (#[trigger] t[j]).otype == opp by {
        assert(t[j] == rest[j + 1]);
    }
    // every resting order is at least as far from the incoming price as the front one
    assert forall|i: int| 0 <= i < rest.len() implies (side == OrderType::Ask ==> (#[trigger] rest[i]).price <= o.price)
        && (side == OrderType::Bid ==> rest[i].price >= o.price) by {
        if i > 0 {
            assert(!ranks_behind(opp, rest[0], rest[i]));
        }
    }
    if passes_over(order, o) {
        assert(sweep_ready(order, queue, t)) by {
            assert forall|k: int, i: int|
                0 <= k < queue.len() && 0 <= i < t.len() implies apart(side, #[trigger] queue[k], #[trigger] t[i])
                    || (k == 0 && queue[0].price == order.price) by {
                assert(t[i] == rest[i + 1]);
            }
        }
        lemma_sweep_well_formed(order, queue, t, fills);
        let r = sweep(order, queue, t, fills);
        assert(res.0 == r.0);
        assert(res.1 == seq![o] + r.1);
        // the skipped order is apart from every order left on the incoming side
        assert forall|k: int| 0 <= k < r.0.len() implies apart(side, #[trigger] r.0[k], o) by {
            if r.0.len() == queue.len() {
                assert(same_but_qty(queue[k], r.0[k]));
                assert(apart(side, queue[k], rest[0]) || (k == 0 && queue[0].price == order.price));
            } else {
                assert(r.0[k] == queue[k + 1]);
                assert(apart(side, queue[k + 1], rest[0]));
            }
        }
        assert forall|k: int, i: int|
            0 <= k < res.0.len() && 0 <= i < res.1.len() implies apart(side, #[trigger] res.0[k], #[trigger] res.1[i]) by {
            if i > 0 {
                assert(res.1[i] == r.1[i - 1]);
            }
        }
    } else if stops_at(order, o) {
        assert(res.0 == queue && res.1 == rest);
    } else {
        // the front of the incoming side is at the incoming price
        assert(apart(side, queue[0], rest[0]) || queue[0].price == order.price);
        assert(head.price == order.price);
        if o.qty < head.qty {
            let nh = with_qty(head, (head.qty - o.qty) as u64);
            let nq = queue.update(0, nh);
            let m = trade(order, o, o.qty);
            lemma_ranked_update_front(side, queue, nh);
            assert(sweep_ready(order, nq, t)) by {
                assert forall|k: int| 0 <= k < nq.len() implies (#[trigger] nq[k]).otype == side by {}
                assert forall|k: int, i: int|
                    0 <= k < nq.len() && 0 <= i < t.len() implies apart(side, #[trigger] nq[k], #[trigger] t[i])
                        || (k == 0 && nq[0].price == order.price) by {
                    assert(t[i] == rest[i + 1]);
                    assert(apart(side, queue[k], rest[i + 1]) || (k == 0 && queue[0].price == order.price));
                }
            }
            lemma_sweep_well_formed(order, nq, t, fills.push(m));
            assert(res == sweep(order, nq, t, fills.push(m)));
        } else if o.qty == head.qty {
            let q = queue.drop_first();
            assert(res.0 == q && res.1 == t);
            assert forall|k: int, i: int|
                0 <= k < q.len() && 0 <= i < t.len() implies apart(side, #[trigger] q[k], #[trigger] t[i]) by {
                assert(q[k] == queue[k + 1] && t[i] == rest[i + 1]);
            }
        } else {
            let no = with_qty(o, (o.qty - head.qty) as u64);
            let r1 = rest.update(0, no);
            let q = queue.drop_first();
            assert(res.0 == q && res.1 == r1);
            assert forall|k: int, i: int|
                0 <= k < q.len() && 0 <= i < r1.len() implies apart(side, #[trigger] q[k], #[trigger] r1[i]) by {
                assert(q[k] == queue[k + 1]);
                assert(apart(side, queue[k + 1], rest[i]));
            }
        }
    }
}

/// Both queues of the book in priority order and one-sided.
pub open spec fn shaped(b: BookView) -> bool {
    &&& is_ranked(OrderType::Bid, b.buy)
    &&& is_ranked(OrderType::Ask, b.sell)
    &&& all_of_side(b.buy, OrderType::Bid)
    &&& all_of_side(b.sell, OrderType::Ask)
}

/// Every order of `s` has a positive quantity.
pub open spec fn positive(s: Seq<Order>) -> bool {
    forall|i: int| 0 <= i < s.len() ==> (#[trigger] s[i]).qty > 0
}

/// Matching keeps quantities positive.
proof fn lemma_sweep_positive(order: Order, queue: Seq<Order>, rest: Seq<Order>, fills: Seq<Match>)
    requires
        queue.len() > 0,
        positive(queue),
        positive(rest),
    ensures
        positive(sweep(order, queue, rest, fills).0),
        positive(sweep(order, queue, rest, fills).1),
    decreases rest.len(),
{
    if rest.len() > 0 {
        let o = rest[0];
        let head = queue[0];
        let t = rest.drop_first();
        assert forall|i: int| 0 <= i < t.len() implies (#[trigger] t[i]).qty > 0 by {
            assert(t[i] == rest[i + 1]);
        }
        assert forall|i: int| 0 <= i < queue.drop_first().len() implies (#[trigger] queue.drop_first()[i]).qty > 0 by {
            assert(queue.drop_first()[i] == queue[i + 1]);
        }
        if passes_over(order, o) {
            lemma_sweep_positive(order, queue, t, fills);
            let r = sweep(order, queue, t, fills);
            assert forall|i: int| 0 <= i < (seq![o] + r.1).len() implies (#[trigger] (seq![o] + r.1)[i]).qty > 0 by {
                if i > 0 {
                    assert((seq![o] + r.1)[i] == r.1[i - 1]);
                }
            }
        } else if stops_at(order, o) {
        } else if o.qty < head.qty {
            let nq = queue.update(0, with_qty(head, (head.qty - o.qty) as u64));
            lemma_sweep_positive(order, nq, t, fills.push(trade(order, o, o.qty)));
        }
    }
}

/// The queue that an incoming order trades from, when its book is shaped,
/// is the order inserted at its place, and matching from it is shaped.
proof fn lemma_add_shaped(b: BookView, order: Order)
    requires
        shaped(b),
    ensures
        sort_ranked(order.otype, queue_of(b, order.otype).push(order)) == insert_ranked(
            order.otype,
            queue_of(b, order.otype),
            order,
        ),
        sweep_shaped(
            order,
            sort_ranked(order.otype, queue_of(b, order.otype).push(order)),
            queue_of(b, opposite(order.otype)),
        ),
{
    let side = order.otype;
    let q = queue_of(b, side);
    lemma_sort_push(side, q, order);
    lemma_sort_of_ranked(side, q);
    lemma_insert_keeps_ranked(side, q, order);
    lemma_insert_pos(side, q, order);
    let p = insert_pos(side, q, order);
    let queue = insert_ranked(side, q, order);
    assert forall|k: int| 0 <= k < queue.len() implies (#[trigger] queue[k]).otype == side by {
        if k < p {
            assert(queue[k] == q[k]);
        } else if k > p {
            assert(queue[k] == q[k - 1]);
        }
    }
}

/// Adding an order to a book whose queues are in priority order and
/// one-sided keeps them so, whether or not the book is crossed; the order
/// rests, if at all, in the queue of its own side. With positive resting
/// quantities and a positive incoming quantity, every resting quantity
/// stays positive.
pub proof fn law_add_keeps_queues_shaped(b: BookView, order: Order)
    requires
        shaped(b),
    ensures
        shaped(after_add(b, order)),
        positive(b.buy) && positive(b.sell) && order.qty > 0 ==> positive(after_add(b, order).buy) && positive(
            after_add(b, order).sell,
        ),
{
    let side = order.otype;
    lemma_add_shaped(b, order);
    let q = queue_of(b, side);
    let queue = sort_ranked(side, q.push(order));
    lemma_sweep_shape(order, queue, queue_of(b, opposite(side)), b.matches);
    if positive(b.buy) && positive(b.sell) && order.qty > 0 {
        lemma_insert_pos(side, q, order);
        let p = insert_pos(side, q, order);
        assert forall|k: int| 0 <= k < queue.len() implies (#[trigger] queue[k]).qty > 0 by {
            if k < p {
                assert(queue[k] == q[k]);
            } else if k > p {
                assert(queue[k] == q[k - 1]);
            }
        }
        lemma_sweep_positive(order, queue, queue_of(b, opposite(side)), b.matches);
    }
}

/// The queue that an incoming order trades from, when its book is well
/// formed, is ready for matching.
proof fn lemma_add_ready(b: BookView, order: Order)
    requires
        well_formed(b),
    ensures
        sort_ranked(order.otype, queue_of(b, order.otype).push(order)) == insert_ranked(
            order.otype,
            queue_of(b, order.otype),
            order,
        ),
        sweep_ready(
            order,
            sort_ranked(order.otype, queue_of(b, order.otype).push(order)),
            queue_of(b, opposite(order.otype)),
        ),
{
    let side = order.otype;
    let opp = opposite(side);
    let q = queue_of(b, side);
    let o = queue_of(b, opp);
    lemma_sort_push(side, q, order);
    lemma_sort_of_ranked(side, q);
    lemma_insert_keeps_ranked(side, q, order);
    lemma_insert_pos(side, q, order);
    let p = insert_pos(side, q, order);
    let queue = insert_ranked(side, q, order);
    assert forall|k: int| 0 <= k < queue.len() implies (#[trigger] queue[k]).otype == side by {
        if k < p {
            assert(queue[k] == q[k]);
        } else if k > p {
            assert(queue[k] == q[k - 1]);
        }
    }
    // every resting order of the other side is apart from every order of `q`
    assert forall|j: int, i: int| 0 <= j < q.len() && 0 <= i < o.len() implies apart(side, #[trigger] q[j], #[trigger] o[i]) by {
        match side {
            OrderType::Bid => {
                assert(b.buy[j].price < b.sell[i].price);
            },
            OrderType::Ask => {
                assert(b.buy[i].price < b.sell[j].price);
            },
        }
    }
    if p > 0 {
        assert(!ranks_behind(side, q[0], order));
        assert(queue[0] == q[0]);
    }
    assert forall|k: int, i: int|
        0 <= k < queue.len() && 0 <= i < o.len() implies apart(side, #[trigger] queue[k], #[trigger] o[i])
            || (k == 0 && queue[0].price == order.price) by {
        if k < p {
            assert(queue[k] == q[k]);
        } else if k > p {
            assert(queue[k] == q[k - 1]);
        } else if p > 0 {
            assert(queue[k] == order);
            assert(apart(side, q[0], o[i]));
        }
    }
}

/// Adding an order to a well-formed book leaves it well formed: both queues
/// stay in priority order and one-sided, and the book is not crossed.
pub proof fn law_add_keeps_well_formed(b: BookView, order: Order)
    requires
        well_formed(b),
    ensures
        well_formed(after_add(b, order)),
{
    let side = order.otype;
    lemma_add_ready(b, order);
    let queue = sort_ranked(side, queue_of(b, side).push(order));
    lemma_sweep_well_formed(order, queue, queue_of(b, opposite(side)), b.matches);
    let a = after_add(b, order);
    let res = sweep(order, queue, queue_of(b, opposite(side)), b.matches);
    assert forall|i: int, j: int| 0 <= i < a.buy.len() && 0 <= j < a.sell.len() implies (#[trigger] a.buy[i]).price
        < (#[trigger] a.sell[j]).price by {
        match side {
            OrderType::Bid => {
                assert(apart(side, res.0[i], res.1[j]));
            },
            OrderType::Ask => {
                assert(apart(side, res.0[j], res.1[i]));
            },
        }
    }
}

/// Adding an order conserves quantity: the quantity that leaves the two
/// queues is twice the quantity of the new trades (once per side), and the
/// earlier trades are kept in front of the new ones.
pub proof fn law_add_conserves_quantity(b: BookView, order: Order)
    ensures
        ({
            let a = after_add(b, order);
            &&& total_qty(a.buy) + total_qty(a.sell) + 2 * traded_qty(a.matches) == total_qty(b.buy)
                + total_qty(b.sell) + order.qty + 2 * traded_qty(b.matches)
            &&& a.matches.len() >= b.matches.len()
            &&& a.matches.take(b.matches.len() as int) == b.matches
        }),
{
    let side = order.otype;
    let q = queue_of(b, side);
    let queue = sort_ranked(side, q.push(order));
    lemma_total_qty_sort(side, q.push(order));
    lemma_total_qty_insert(q, q.len() as int, order);
    assert(q.insert(q.len() as int, order) =~= q.push(order));
    crate::sorting::lemma_sort_ranked(side, q.push(order));
    lemma_sweep_conserves(order, queue, queue_of(b, opposite(side)), b.matches);
}

/// Withdrawing an order keeps a well-formed book well formed, and removes
/// exactly one order, one that has the given id.
pub proof fn law_drop_keeps_well_formed(b: BookView, id: i64)
    requires
        well_formed(b),
        book_holds(b, id),
    ensures
        well_formed(after_drop(b, id)),
        after_drop(b, id).buy.len() + after_drop(b, id).sell.len() + 1 == b.buy.len() + b.sell.len(),
        after_drop(b, id).matches == b.matches,
{
    lemma_id_index(b.buy, id);
    lemma_id_index(b.sell, id);
    let a = after_drop(b, id);
    if holds_id(b.buy, id) {
        let x = id_index(b.buy, id);
        assert forall|i: int, j: int| 0 <= i < j < a.buy.len() implies !ranks_behind(OrderType::Bid, #[trigger] a.buy[i], #[trigger] a.buy[j]) by {
            let ii = if i < x { i } else { i + 1 };
            let jj = if j < x { j } else { j + 1 };
            assert(a.buy[i] == b.buy[ii] && a.buy[j] == b.buy[jj]);
        }
        assert forall|i: int| 0 <= i < a.buy.len() implies (#[trigger] a.buy[i]).otype == OrderType::Bid by {
            if i >= x {
                assert(a.buy[i] == b.buy[i + 1]);
            }
        }
        assert forall|i: int, j: int| 0 <= i < a.buy.len() && 0 <= j < a.sell.len() implies (#[trigger] a.buy[i]).price
            < (#[trigger] a.sell[j]).price by {
            if i >= x {
                assert(a.buy[i] == b.buy[i + 1]);
            }
        }
    } else {
        let x = id_index(b.sell, id);
        assert forall|i: int, j: int| 0 <= i < j < a.sell.len() implies !ranks_behind(OrderType::Ask, #[trigger] a.sell[i], #[trigger] a.sell[j]) by {
            let ii = if i < x { i } else { i + 1 };
            let jj = if j < x { j } else { j + 1 };
            assert(a.sell[i] == b.sell[ii] && a.sell[j] == b.sell[jj]);
        }
        assert forall|i: int| 0 <= i < a.sell.len() implies (#[trigger] a.sell[i]).otype == OrderType::Ask by {
            if i >= x {
                assert(a.sell[i] == b.sell[i + 1]);
            }
        }
        assert forall|i: int, j: int| 0 <= i < a.buy.len() && 0 <= j < a.sell.len() implies (#[trigger] a.buy[i]).price
            < (#[trigger] a.sell[j]).price by {
            if j >= x {
                assert(a.sell[j] == b.sell[j + 1]);
            }
        }
    }
}

/// `order` does not reach any resting order of the other side: an ask is
/// priced above every bid, a bid below every ask.
pub open spec fn rests_apart(b: BookView, order: Order) -> bool {
    match order.otype {
        OrderType::Ask => forall|i: int| 0 <= i < b.buy.len() ==> (#[trigger] b.buy[i]).price < order.price,
        OrderType::Bid => forall|i: int| 0 <= i < b.sell.len() ==> (#[trigger] b.sell[i]).price > order.price,
    }
}

/// Matching an order that reaches no resting order changes nothing.
proof fn lemma_sweep_apart(order: Order, queue: Seq<Order>, rest: Seq<Order>, fills: Seq<Match>)
    requires
        order.otype == OrderType::Ask ==> forall|i: int| 0 <= i < rest.len() ==> (#[trigger] rest[i]).price < order.price,
        order.otype == OrderType::Bid ==> forall|i: int| 0 <= i < rest.len() ==> (#[trigger] rest[i]).price > order.price,
    ensures
        sweep(order, queue, rest, fills) == (queue, rest, fills),
    decreases rest.len(),
{
    if rest.len() > 0 && order.otype == OrderType::Ask {
        let t = rest.drop_first();
        assert forall|i: int| 0 <= i < t.len() implies (#[trigger] t[i]).price < order.price by {
            assert(t[i] == rest[i + 1]);
        }
        lemma_sweep_apart(order, queue, t, fills);
        assert(seq![rest[0]] + t =~= rest);
    }
}

/// Withdrawing an order that was just added, and that traded with nothing,
/// gives back the book as it was (when no other order has its id).
pub proof fn law_cancel_undoes_resting_add(b: BookView, order: Order)
    requires
        is_ranked(OrderType::Bid, b.buy),
        is_ranked(OrderType::Ask, b.sell),
        !book_holds(b, order.id),
        rests_apart(b, order),
    ensures
        book_holds(after_add(b, order), order.id),
        after_drop(after_add(b, order), order.id) == b,
{
    let side = order.otype;
    let q = queue_of(b, side);
    lemma_sort_push(side, q, order);
    lemma_sort_of_ranked(side, q);
    lemma_insert_pos(side, q, order);
    let p = insert_pos(side, q, order);
    let queue = insert_ranked(side, q, order);
    lemma_sweep_apart(order, queue, queue_of(b, opposite(side)), b.matches);
    let a = after_add(b, order);
    assert(queue[p] == order);
    lemma_id_index(queue, order.id);
    let x = id_index(queue, order.id);
    assert(holds_id(queue, order.id));
    if x < p {
        assert(queue[x] == q[x]);
    }
    assert(x == p);
    assert(queue.remove(p) =~= q);
    match side {
        OrderType::Bid => {
            assert(a.buy == queue);
        },
        OrderType::Ask => {
            assert(a.sell == queue && a.buy == b.buy);
            assert(!holds_id(a.buy, order.id));
        },
    }
}

/// Asks priced above a bid, in priority order, are all out of its reach
/// once the first one is.
proof fn lemma_cross_qty_none(order: Order, rest: Seq<Order>)
    requires
        order.otype == OrderType::Bid,
        is_ranked(OrderType::Ask, rest),
        rest.len() > 0,
        rest[0].price > order.price,
    ensures
        cross_qty(order, rest) == 0,
    decreases rest.len(),
{
    if rest.len() > 1 {
        lemma_ranked_drop_first(OrderType::Ask, rest);
        assert(!ranks_behind(OrderType::Ask, rest[0], rest[1]));
        assert(rest.drop_first()[0] == rest[1]);
        lemma_cross_qty_none(order, rest.drop_first());
    } else {
        assert(rest.drop_first().len() == 0);
        assert(cross_qty(order, rest.drop_first()) == 0);
    }
}

/// Some order within reach, if the reachable quantity is positive.
proof fn lemma_cross_qty_witness(order: Order, rest: Seq<Order>)
    requires
        cross_qty(order, rest) > 0,
    ensures
        exists|i: int| 0 <= i < rest.len() && crosses(order, #[trigger] rest[i]),
    decreases rest.len(),
{
    if !crosses(order, rest[0]) {
        lemma_cross_qty_witness(order, rest.drop_first());
        let i = choose|i: int| 0 <= i < rest.drop_first().len() && crosses(order, #[trigger] rest.drop_first()[i]);
        assert(rest.drop_first()[i] == rest[i + 1]);
    } else {
        assert(crosses(order, rest[0]));
    }
}

proof fn lemma_cross_qty_nonneg(order: Order, rest: Seq<Order>)
    ensures
        cross_qty(order, rest) >= 0,
    decreases rest.len(),
{
    if rest.len() > 0 {
        lemma_cross_qty_nonneg(order, rest.drop_first());
    }
}

/// Matching fills the front of the incoming side by the smaller of its
/// quantity and the quantity within reach: with nothing within reach it is
/// left as it is; otherwise what is left of it stays at the front, or it
/// is gone.
proof fn lemma_sweep_fill(order: Order, queue: Seq<Order>, rest: Seq<Order>, fills: Seq<Match>)
    requires
        queue.len() > 0,
        is_ranked(opposite(order.otype), rest),
        positive(rest),
    ensures
        ({
            let res = sweep(order, queue, rest, fills);
            let c = cross_qty(order, rest);
            let h = queue[0].qty as int;
            &&& traded_qty(res.2) == traded_qty(fills) + smaller(h, c)
            &&& c == 0 ==> res.0 == queue
            &&& c > 0 && h > c ==> res.0 == queue.update(0, with_qty(queue[0], (h - c) as u64))
            &&& c > 0 && h <= c ==> res.0 == queue.drop_first()
        }),
    decreases rest.len(),
{
    lemma_cross_qty_nonneg(order, rest);
    if rest.len() == 0 {
        return;
    }
    let o = rest[0];
    let head = queue[0];
    let t = rest.drop_first();
    lemma_cross_qty_nonneg(order, t);
    lemma_ranked_drop_first(opposite(order.otype), rest);
    assert forall|i: int| 0 <= i < t.len() implies (#[trigger] t[i]).qty > 0 by {
        assert(t[i] == rest[i + 1]);
    }
    assert(o.qty > 0);
    if passes_over(order, o) {
        lemma_sweep_fill(order, queue, t, fills);
    } else if stops_at(order, o) {
        lemma_cross_qty_none(order, rest);
    } else {
        let m = if o.qty <= head.qty { trade(order, o, o.qty) } else { trade(order, o, head.qty) };
        assert(fills.push(m).drop_last() =~= fills);
        if o.qty < head.qty {
            let nh = with_qty(head, (head.qty - o.qty) as u64);
            let nq = queue.update(0, nh);
            lemma_sweep_fill(order, nq, t, fills.push(m));
            assert(nq.drop_first() =~= queue.drop_first());
            assert(nq.update(0, with_qty(nq[0], (head.qty - cross_qty(order, rest)) as u64)) =~= queue.update(
                0,
                with_qty(head, (head.qty - cross_qty(order, rest)) as u64),
            ));
        }
    }
}

/// In a well-formed book with positive quantities, an incoming order trades
/// the smaller of its quantity and the quantity within its reach on the
/// other side. With nothing within reach it rests at its place; otherwise
/// what remains of it, if anything, rests at the front of its queue, and
/// its queue is otherwise as it was.
pub proof fn law_add_fills(b: BookView, order: Order)
    requires
        well_formed(b),
        positive(b.buy),
        positive(b.sell),
    ensures
        ({
            let side = order.otype;
            let a = after_add(b, order);
            let q = queue_of(b, side);
            let c = cross_qty(order, queue_of(b, opposite(side)));
            &&& traded_qty(a.matches) == traded_qty(b.matches) + smaller(order.qty as int, c)
            &&& c == 0 ==> queue_of(a, side) == insert_ranked(side, q, order)
            &&& c > 0 && order.qty > c ==> queue_of(a, side) == seq![with_qty(order, (order.qty - c) as u64)] + q
            &&& c > 0 && order.qty <= c ==> queue_of(a, side) == q
        }),
{
    let side = order.otype;
    let opp = opposite(side);
    let q = queue_of(b, side);
    let rest = queue_of(b, opp);
    lemma_add_ready(b, order);
    lemma_insert_pos(side, q, order);
    let p = insert_pos(side, q, order);
    let queue = insert_ranked(side, q, order);
    let c = cross_qty(order, rest);
    assert(positive(rest));
    lemma_sweep_fill(order, queue, rest, b.matches);
    if c > 0 {
        lemma_cross_qty_witness(order, rest);
        let i = choose|i: int| 0 <= i < rest.len() && crosses(order, #[trigger] rest[i]);
        if p > 0 {
            assert(queue[0] == q[0]);
            assert(!ranks_behind(side, q[0], order));
            match side {
                OrderType::Bid => {
                    assert(b.buy[0].price < b.sell[i].price);
                },
                OrderType::Ask => {
                    assert(b.buy[i].price < b.sell[0].price);
                },
            }
        }
        assert(p == 0);
        assert(queue[0] == order);
        assert(queue.drop_first() =~= q);
        assert(queue.update(0, with_qty(order, (order.qty - c) as u64)) =~= seq![with_qty(order, (order.qty - c) as u64)] + q);
    }
}

/// The new trades pair, in order, with resting orders taken front to back:
/// the positions `js` of their resting orders increase.
pub open spec fn trades_in_order(order: Order, rest: Seq<Order>, fills: Seq<Match>, ms: Seq<Match>, js: Seq<int>) -> bool {
    &&& ms.len() >= fills.len()
    &&& js.len() == ms.len() - fills.len()
    &&& forall|k: int| 0 <= k < js.len() ==> 0 <= #[trigger] js[k] < rest.len()
    &&& forall|k1: int, k2: int| 0 <= k1 < k2 < js.len() ==> #[trigger] js[k1] < #[trigger] js[k2]
    &&& forall|k: int| 0 <= k < js.len() ==> trade_fits(order, rest[js[k]], #[trigger] ms[fills.len() + k])
}

/// Matching trades against resting orders front to back.
proof fn lemma_sweep_in_order(order: Order, queue: Seq<Order>, rest: Seq<Order>, fills: Seq<Match>) -> (js: Seq<int>)
    requires
        all_of_side(rest, opposite(order.otype)),
    ensures
        trades_in_order(order, rest, fills, sweep(order, queue, rest, fills).2, js),
    decreases rest.len(),
{
    lemma_sweep_keeps_fills(order, queue, rest, fills);
    let res = sweep(order, queue, rest, fills);
    if rest.len() == 0 {
        return Seq::empty();
    }
    let o = rest[0];
    let head = queue[0];
    let t = rest.drop_first();
    assert forall|j: int| 0 <= j < t.len() implies (#[trigger] t[j]).otype == opposite(order.otype) by {
        assert(t[j] == rest[j + 1]);
    }
    if passes_over(order, o) {
        let js1 = lemma_sweep_in_order(order, queue, t, fills);
        let js = Seq::new(js1.len(), |k: int| js1[k] + 1);
        assert forall|k: int| 0 <= k < js.len() implies trade_fits(order, rest[js[k]], #[trigger] res.2[fills.len() + k]) by {
            assert(rest[js[k]] == t[js1[k]]);
        }
        assert forall|k1: int, k2: int| 0 <= k1 < k2 < js.len() implies #[trigger] js[k1] < #[trigger] js[k2] by {
            assert(js1[k1] < js1[k2]);
        }
        js
    } else if stops_at(order, o) {
        Seq::empty()
    } else {
        let m = if o.qty <= head.qty { trade(order, o, o.qty) } else { trade(order, o, head.qty) };
        lemma_sweep_keeps_fills(order, queue, rest, fills);
        if o.qty < head.qty {
            let nq = queue.update(0, with_qty(head, (head.qty - o.qty) as u64));
            let js1 = lemma_sweep_in_order(order, nq, t, fills.push(m));
            lemma_sweep_keeps_fills(order, nq, t, fills.push(m));
            let js = seq![0int] + Seq::new(js1.len(), |k: int| js1[k] + 1);
            assert(res.2[fills.len() as int] == fills.push(m)[fills.len() as int]);
            assert forall|k: int| 0 <= k < js.len() implies trade_fits(order, rest[js[k]], #[trigger] res.2[fills.len() + k]) by {
                if k > 0 {
                    assert(js[k] == js1[k - 1] + 1);
                    assert(rest[js[k]] == t[js1[k - 1]]);
                    assert(fills.push(m).len() + (k - 1) == fills.len() + k);
                }
            }
            assert forall|k: int| 0 <= k < js.len() implies 0 <= #[trigger] js[k] < rest.len() by {
                if k > 0 {
                    assert(js[k] == js1[k - 1] + 1);
                }
            }
            assert forall|k1: int, k2: int| 0 <= k1 < k2 < js.len() implies #[trigger] js[k1] < #[trigger] js[k2] by {
                assert(js[k2] == js1[k2 - 1] + 1);
                if k1 > 0 {
                    assert(js[k1] == js1[k1 - 1] + 1);
                    assert(js1[k1 - 1] < js1[k2 - 1]);
                } else {
                    assert(0 <= js1[k2 - 1]);
                }
            }
            js
        } else {
            assert(res.2 == fills.push(m));
            seq![0int]
        }
    }
}

/// In a book whose queues are one-sided, the new trades of an added order
/// pair, in order, with resting orders of the other side taken front to
/// back, each within both limit prices, at the resting order's price unless
/// the incoming order is older, and for at most the resting quantity.
pub proof fn law_add_trades_in_book_order(b: BookView, order: Order)
    requires
        all_of_side(b.buy, OrderType::Bid),
        all_of_side(b.sell, OrderType::Ask),
    ensures
        exists|js: Seq<int>| trades_in_order(order, queue_of(b, opposite(order.otype)), b.matches, after_add(b, order).matches, js),
{
    let side = order.otype;
    let js = lemma_sweep_in_order(
        order,
        sort_ranked(side, queue_of(b, side).push(order)),
        queue_of(b, opposite(side)),
        b.matches,
    );
    assert(trades_in_order(order, queue_of(b, opposite(side)), b.matches, after_add(b, order).matches, js));
}

} // verus!
