//! Price-visibility-time priority of the orders in a queue, and the stable
//! sort that puts a queue in that order.

use vstd::prelude::*;
use std::cmp::Ordering;
use crate::types::{Order, OrderType};

verus! {

/// At equal prices: `a` ranks behind `b` if `a` is hidden and `b` is not,
/// or both are equally visible and `a` came later.
pub open spec fn tie_behind(a: Order, b: Order) -> bool {
    (a.hidden && !b.hidden) || (a.hidden == b.hidden && a.time > b.time)
}

/// `a` ranks strictly behind `b` among asks: asks are served cheapest first.
pub open spec fn ask_behind(a: Order, b: Order) -> bool {
    a.price > b.price || (a.price == b.price && tie_behind(a, b))
}

/// `a` ranks strictly behind `b` among bids: bids are served dearest first.
pub open spec fn bid_behind(a: Order, b: Order) -> bool {
    a.price < b.price || (a.price == b.price && tie_behind(a, b))
}

/// `a` ranks strictly behind `b` in the queue of the given side.
pub open spec fn ranks_behind(side: OrderType, a: Order, b: Order) -> bool {
    match side {
        OrderType::Bid => bid_behind(a, b),
        OrderType::Ask => ask_behind(a, b),
    }
}

/// No order of `s` ranks behind an order that comes after it.
pub open spec fn is_ranked(side: OrderType, s: Seq<Order>) -> bool {
    forall|i: int, j: int| 0 <= i < j < s.len() ==> !ranks_behind(side, #[trigger] s[i], #[trigger] s[j])
}

/// Where `x` goes when it joins the ranked queue `s`: in front of the first
/// order that ranks behind it, so after every order it ties with.
pub open spec fn insert_pos(side: OrderType, s: Seq<Order>, x: Order) -> int
    decreases s.len(),
{
    if s.len() == 0 {
        0
    } else if ranks_behind(side, s[0], x) {
        0
    } else {
        1 + insert_pos(side, s.drop_first(), x)
    }
}

/// `s` with `x` inserted at its place.
pub open spec fn insert_ranked(side: OrderType, s: Seq<Order>, x: Order) -> Seq<Order> {
    s.insert(insert_pos(side, s, x), x)
}

/// The stable sort of `s` by the priority of `side`: orders are inserted one
/// after another, each behind the orders it ties with.
pub open spec fn sort_ranked(side: OrderType, s: Seq<Order>) -> Seq<Order>
    decreases s.len(),
{
    if s.len() == 0 {
        s
    } else {
        insert_ranked(side, sort_ranked(side, s.drop_last()), s.last())
    }
}

/// Priority of two asks: `Less` if `a` is served before `b`, `Greater` if
/// after, `Equal` if they have the same price, visibility and time.
pub fn compare_ask_orders(a: &Order, b: &Order) -> (r: Ordering)
    ensures
        (r == Ordering::Greater) == ask_behind(*a, *b),
        (r == Ordering::Less) == ask_behind(*b, *a),
{
    if a.price > b.price {
        Ordering::Greater
    } else if a.price < b.price {
        Ordering::Less
    } else {
        match (a.hidden, b.hidden) {
            (true, false) => Ordering::Greater,
            (false, true) => Ordering::Less,
            _ => {
                if a.time > b.time {
                    Ordering::Greater
                } else if a.time < b.time {
                    Ordering::Less
                } else {
                    Ordering::Equal
                }
            },
        }
    }
}

/// Priority of two bids: `Less` if `a` is served before `b`, `Greater` if
/// after, `Equal` if they have the same price, visibility and time.
pub fn compare_bid_orders(a: &Order, b: &Order) -> (r: Ordering)
    ensures
        (r == Ordering::Greater) == bid_behind(*a, *b),
        (r == Ordering::Less) == bid_behind(*b, *a),
{
    if a.price > b.price {
        Ordering::Less
    } else if a.price < b.price {
        Ordering::Greater
    } else {
        match (a.hidden, b.hidden) {
            (true, false) => Ordering::Greater,
            (false, true) => Ordering::Less,
            _ => {
                if a.time > b.time {
                    Ordering::Greater
                } else if a.time < b.time {
                    Ordering::Less
                } else {
                    Ordering::Equal
                }
            },
        }
    }
}

/// Whether `a` ranks strictly behind `b` in the queue of `side`.
pub(crate) fn behind(side: OrderType, a: &Order, b: &Order) -> (r: bool)
    ensures
        r == ranks_behind(side, *a, *b),
{
    let c = match side {
        OrderType::Bid => compare_bid_orders(a, b),
        OrderType::Ask => compare_ask_orders(a, b),
    };
    match c {
        Ordering::Greater => true,
        _ => false,
    }
}

} // verus!
