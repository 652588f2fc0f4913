//! The limit order book: a queue of bids, a queue of asks, and the trades
//! made so far.

use vstd::prelude::*;
use crate::types::{Order, OrderType, Match, opposite, with_qty};
use crate::priority::sort_ranked;
use crate::sorting::sort_orders;

verus! {

/// An order book: resting bids, resting asks and the trades made so far.
#[derive(Debug)]
pub struct Book {
    pub buy: Vec<Order>,
    pub sell: Vec<Order>,
    pub matches: Vec<Match>,
}

/// The contents of a book.
pub struct BookView {
    pub buy: Seq<Order>,
    pub sell: Seq<Order>,
    pub matches: Seq<Match>,
}

impl Clone for Book {
    fn clone(&self) -> (r: Self)
        ensures
            r@ == self@,
    {
        Book { buy: self.buy.clone(), sell: self.sell.clone(), matches: self.matches.clone() }
    }
}

impl View for Book {
    type V = BookView;

    open spec fn view(&self) -> BookView {
        BookView { buy: self.buy@, sell: self.sell@, matches: self.matches@ }
    }
}

/// The queue of a book that holds orders of side `side`.
pub open spec fn queue_of(b: BookView, side: OrderType) -> Seq<Order> {
    match side {
        OrderType::Bid => b.buy,
        OrderType::Ask => b.sell,
    }
}

/// The trade between an incoming `order` and the resting order `resting`,
/// for `qty` shares. The price is that of the order that came first.
pub open spec fn trade(order: Order, resting: Order, qty: u64) -> Match {
    Match {
        buyer: if resting.otype == OrderType::Bid { resting.trader } else { order.trader },
        seller: if resting.otype == OrderType::Ask { resting.trader } else { order.trader },
        price: if order.time < resting.time { order.price } else { resting.price },
        qty: qty,
    }
}

/// The incoming `order` passes over the resting order `o` without trading:
/// an ask skips the bids priced below it.
pub open spec fn passes_over(order: Order, o: Order) -> bool {
    o.price < order.price && order.otype == OrderType::Ask
}

/// The incoming `order` stops at the resting order `o`: a bid stops at the
/// first ask priced above it.
pub open spec fn stops_at(order: Order, o: Order) -> bool {
    o.price > order.price && order.otype == OrderType::Bid
}

/// Matching of the incoming `order`, whose queue is `queue`, against the
/// resting orders `rest` of the other side, front to back. Each trade is set
/// against the front of `queue` and appended to `fills`. Returns the queue,
/// the other side and the trades that result.
pub open spec fn sweep(order: Order, queue: Seq<Order>, rest: Seq<Order>, fills: Seq<Match>) -> (
    Seq<Order>,
    Seq<Order>,
    Seq<Match>,
)
    decreases rest.len(),
{
    if rest.len() == 0 {
        (queue, rest, fills)
    } else {
        let o = rest[0];
        if passes_over(order, o) {
            let r = sweep(order, queue, rest.drop_first(), fills);
            (r.0, seq![o] + r.1, r.2)
        } else if stops_at(order, o) {
            (queue, rest, fills)
        } else {
            let head = queue[0];
            if o.qty < head.qty {
                sweep(
                    order,
                    queue.update(0, with_qty(head, (head.qty - o.qty) as u64)),
                    rest.drop_first(),
                    fills.push(trade(order, o, o.qty)),
                )
            } else if o.qty == head.qty {
                (queue.drop_first(), rest.drop_first(), fills.push(trade(order, o, o.qty)))
            } else {
                (
                    queue.drop_first(),
                    rest.update(0, with_qty(o, (o.qty - head.qty) as u64)),
                    fills.push(trade(order, o, head.qty)),
                )
            }
        }
    }
}

/// The book after `order` is added: the order joins its queue, which is
/// stably sorted by priority, then trades against the other side.
pub open spec fn after_add(b: BookView, order: Order) -> BookView {
    let side = order.otype;
    let res = sweep(
        order,
        sort_ranked(side, queue_of(b, side).push(order)),
        queue_of(b, opposite(side)),
        b.matches,
    );
    match side {
        OrderType::Bid => BookView { buy: res.0, sell: res.1, matches: res.2 },
        OrderType::Ask => BookView { buy: res.1, sell: res.0, matches: res.2 },
    }
}

/// Whether some order of `s` has the id `id`.
pub open spec fn holds_id(s: Seq<Order>, id: i64) -> bool {
    exists|i: int| 0 <= i < s.len() && (#[trigger] s[i]).id == id
}

/// The position of the first order of `s` with the id `id` (`s.len()` if
/// there is none).
pub open spec fn id_index(s: Seq<Order>, id: i64) -> int
    decreases s.len(),
{
    if s.len() == 0 {
        0
    } else if s[0].id == id {
        0
    } else {
        1 + id_index(s.drop_first(), id)
    }
}

/// Whether the book holds a resting order with the id `id`.
pub open spec fn book_holds(b: BookView, id: i64) -> bool {
    holds_id(b.buy, id) || holds_id(b.sell, id)
}

/// The book after the order with id `id` is withdrawn: the first bid with
/// that id if there is one, else the first ask with it.
pub open spec fn after_drop(b: BookView, id: i64) -> BookView {
    if holds_id(b.buy, id) {
        BookView { buy: b.buy.remove(id_index(b.buy, id)), ..b }
    } else {
        BookView { sell: b.sell.remove(id_index(b.sell, id)), ..b }
    }
}

/// `id_index` finds the first order with the id, if there is one.
pub proof fn lemma_id_index(s: Seq<Order>, id: i64)
    ensures
        0 <= id_index(s, id) <= s.len(),
        forall|k: int| 0 <= k < id_index(s, id) ==> (#[trigger] s[k]).id != id,
        id_index(s, id) < s.len() <==> holds_id(s, id),
        id_index(s, id) < s.len() ==> s[id_index(s, id)].id == id,
    decreases s.len(),
{
    if s.len() > 0 && s[0].id != id {
        let t = s.drop_first();
        lemma_id_index(t, id);
        assert forall|k: int| 0 <= k < id_index(s, id) implies (#[trigger] s[k]).id != id by {
            if k > 0 {
                assert(s[k] == t[k - 1]);
            }
        }
        if holds_id(s, id) {
            let i = choose|i: int| 0 <= i < s.len() && (#[trigger] s[i]).id == id;
            assert(t[i - 1] == s[i]);
        }
        if holds_id(t, id) {
            let i = choose|i: int| 0 <= i < t.len() && (#[trigger] t[i]).id == id;
            assert(t[i] == s[i + 1]);
        }
    }
}

/// The trade between `order` and `resting` for `qty` shares.
fn make_trade(order: &Order, resting: &Order, qty: u64) -> (m: Match)
    ensures
        m == trade(*order, *resting, qty),
{
    Match {
        buyer: if resting.otype == OrderType::Bid { resting.trader } else { order.trader },
        seller: if resting.otype == OrderType::Ask { resting.trader } else { order.trader },
        price: if order.time < resting.time { order.price } else { resting.price },
        qty: qty,
    }
}

/// Matches `order`, whose queue is `queue`, against `other`.
fn run_sweep(order: &Order, queue: &mut Vec<Order>, other: &mut Vec<Order>, fills: &mut Vec<Match>)
    requires
        old(queue).len() > 0,
    ensures
        (final(queue)@, final(other)@, final(fills)@) == sweep(*order, old(queue)@, old(other)@, old(fills)@),
{
    let ghost target = sweep(*order, queue@, other@, fills@);
    let mut j: usize = 0;
    assert(other@.skip(0) =~= other@);
    loop
        invariant_except_break
            queue.len() > 0,
            0 <= j <= other.len(),
            sweep(*order, queue@, other@.skip(j as int), fills@).0 == target.0,
            other@.take(j as int) + sweep(*order, queue@, other@.skip(j as int), fills@).1 == target.1,
            sweep(*order, queue@, other@.skip(j as int), fills@).2 == target.2,
        ensures
            (queue@, other@, fills@) == target,
        decreases other.len() - j,
    {
        let ghost rest = other@.skip(j as int);
        if j >= other.len() {
            assert(other@.take(j as int) + rest =~= other@);
            break;
        }
        let o = other[j];
        assert(rest[0] == o);
        if o.price < order.price && order.otype == OrderType::Ask {
            assert(rest.drop_first() =~= other@.skip(j + 1));
            assert(other@.take(j + 1) =~= other@.take(j as int) + seq![o]);
            j = j + 1;
        } else if o.price > order.price && order.otype == OrderType::Bid {
            assert(other@.take(j as int) + rest =~= other@);
            break;
        } else {
            let head = queue[0];
            if o.qty < head.qty {
                let t = make_trade(order, &o, o.qty);
                fills.push(t);
                let reduced = Order { qty: head.qty - o.qty, ..head };
                queue.set(0, reduced);
                let ghost before = other@;
                other.remove(j);
                assert(other@.skip(j as int) =~= rest.drop_first());
                assert(other@.take(j as int) =~= before.take(j as int));
            } else if o.qty == head.qty {
                let t = make_trade(order, &o, o.qty);
                fills.push(t);
                let ghost before = other@;
                other.remove(j);
                queue.remove(0);
                assert(queue@ =~= target.0);
                assert(other@ =~= before.take(j as int) + rest.drop_first());
                break;
            } else {
                let t = make_trade(order, &o, head.qty);
                fills.push(t);
                let ghost before = other@;
                let reduced = Order { qty: o.qty - head.qty, ..o };
                other.set(j, reduced);
                queue.remove(0);
                assert(queue@ =~= target.0);
                assert(other@ =~= before.take(j as int) + rest.update(0, reduced));
                break;
            }
        }
    }
}

/// Index of the first order of `v` with the id `id`, if there is one.
fn find_id(v: &Vec<Order>, id: i64) -> (r: Option<usize>)
    ensures
        match r {
            Some(i) => holds_id(v@, id) && i == id_index(v@, id) && i < v@.len(),
            None => !holds_id(v@, id),
        },
{
    proof {
        lemma_id_index(v@, id);
    }
    let mut i: usize = 0;
    while i < v.len()
        invariant
            0 <= i <= v.len(),
            forall|k: int| 0 <= k < i ==> (#[trigger] v@[k]).id != id,
            0 <= id_index(v@, id) <= v.len(),
            forall|k: int| 0 <= k < id_index(v@, id) ==> (#[trigger] v@[k]).id != id,
            id_index(v@, id) < v.len() <==> holds_id(v@, id),
            id_index(v@, id) < v.len() ==> v@[id_index(v@, id)].id == id,
        decreases v.len() - i,
    {
        if v[i].id == id {
            return Some(i);
        }
        i = i + 1;
    }
    None
}

impl Book {
    /// An empty book.
    pub fn new() -> (b: Self)
        ensures
            b@.buy == Seq::<Order>::empty(),
            b@.sell == Seq::<Order>::empty(),
            b@.matches == Seq::<Match>::empty(),
            crate::book_laws::well_formed(b@),
    {
        Book { buy: Vec::new(), sell: Vec::new(), matches: Vec::new() }
    }

    /// Adds `order` to its queue, keeps that queue in priority order, and
    /// trades it against the other side as far as prices allow.
    pub fn add_order(&mut self, order: Order)
        ensures
            final(self)@ == after_add(old(self)@, order),
    {
        if order.otype == OrderType::Ask {
            self.sell.push(order);
            let sorted = sort_orders(OrderType::Ask, &self.sell);
            self.sell = sorted;
            run_sweep(&order, &mut self.sell, &mut self.buy, &mut self.matches);
        } else {
            self.buy.push(order);
            let sorted = sort_orders(OrderType::Bid, &self.buy);
            self.buy = sorted;
            run_sweep(&order, &mut self.buy, &mut self.sell, &mut self.matches);
        }
    }

    /// Whether the book holds a resting order with the id `id`.
    pub fn has_order(&self, id: i64) -> (r: bool)
        ensures
            r == book_holds(self@, id),
    {
        find_id(&self.buy, id).is_some() || find_id(&self.sell, id).is_some()
    }

    /// Withdraws the resting order with the id `id`: the first bid with that
    /// id if there is one, else the first ask with it.
    pub fn drop_order(&mut self, id: i64)
        requires
            book_holds(old(self)@, id),
        ensures
            final(self)@ == after_drop(old(self)@, id),
    {
        proof {
            lemma_id_index(self.buy@, id);
            lemma_id_index(self.sell@, id);
        }
        match find_id(&self.buy, id) {
            Some(i) => {
                self.buy.remove(i);
            },
            None => {
                match find_id(&self.sell, id) {
                    Some(i) => {
                        self.sell.remove(i);
                    },
                    None => {},
                }
            },
        }
    }
}

} // verus!
