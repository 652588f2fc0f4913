//! Facts about the priority order, and the stable insertion sort of a queue.

use vstd::prelude::*;
use crate::types::{Order, OrderType};
use crate::priority::{
    ranks_behind, is_ranked, insert_pos, insert_ranked, sort_ranked, behind,
};

verus! {

/// Ranking behind is a strict order: no order ranks behind itself, two
/// orders never rank behind each other, and it is transitive.
pub proof fn lemma_behind_strict(side: OrderType, a: Order, b: Order, c: Order)
    ensures
        !ranks_behind(side, a, a),
        ranks_behind(side, a, b) ==> !ranks_behind(side, b, a),
        ranks_behind(side, a, b) && ranks_behind(side, b, c) ==> ranks_behind(side, a, c),
{
}

/// `insert_pos` is the first position whose order ranks behind `x`.
pub proof fn lemma_insert_pos(side: OrderType, s: Seq<Order>, x: Order)
    ensures
        0 <= insert_pos(side, s, x) <= s.len(),
        forall|k: int| 0 <= k < insert_pos(side, s, x) ==> !ranks_behind(side, #[trigger] s[k], x),
        insert_pos(side, s, x) < s.len() ==> ranks_behind(side, s[insert_pos(side, s, x)], x),
    decreases s.len(),
{
    if s.len() > 0 && !ranks_behind(side, s[0], x) {
        lemma_insert_pos(side, s.drop_first(), x);
        assert forall|k: int| 0 <= k < insert_pos(side, s, x) implies !ranks_behind(side, #[trigger] s[k], x) by {
            if k > 0 {
                assert(s[k] == s.drop_first()[k - 1]);
            }
        }
    }
}

/// A position before which no order ranks behind `x`, and at which an order
/// ranks behind `x` (or the queue ends), is `insert_pos`.
pub proof fn lemma_insert_pos_at(side: OrderType, s: Seq<Order>, x: Order, i: int)
    requires
        0 <= i <= s.len(),
        forall|k: int| 0 <= k < i ==> !ranks_behind(side, #[trigger] s[k], x),
        i < s.len() ==> ranks_behind(side, s[i], x),
    ensures
        insert_pos(side, s, x) == i,
    decreases s.len(),
{
    if s.len() > 0 && i > 0 {
        assert(!ranks_behind(side, s[0], x));
        assert forall|k: int| 0 <= k < i - 1 implies !ranks_behind(side, #[trigger] s.drop_first()[k], x) by {
            assert(s.drop_first()[k] == s[k + 1]);
        }
        lemma_insert_pos_at(side, s.drop_first(), x, i - 1);
    }
}

/// Inserting at its place keeps a ranked queue ranked.
pub proof fn lemma_insert_keeps_ranked(side: OrderType, s: Seq<Order>, x: Order)
    requires
        is_ranked(side, s),
    ensures
        is_ranked(side, insert_ranked(side, s, x)),
        insert_ranked(side, s, x).to_multiset() =~= s.to_multiset().insert(x),
        insert_ranked(side, s, x).len() == s.len() + 1,
{
    lemma_insert_pos(side, s, x);
    let p = insert_pos(side, s, x);
    let r = insert_ranked(side, s, x);
    assert forall|i: int, j: int| 0 <= i < j < r.len() implies !ranks_behind(side, #[trigger] r[i], #[trigger] r[j]) by {
        if j < p {
            assert(r[i] == s[i] && r[j] == s[j]);
        } else if j == p {
            assert(r[i] == s[i] && r[j] == x);
        } else if i == p {
            assert(r[i] == x && r[j] == s[j - 1]);
            assert(ranks_behind(side, s[p], x));
            lemma_behind_strict(side, s[p], x, s[j - 1]);
            if p < j - 1 {
                assert(!ranks_behind(side, s[p], s[j - 1]));
            }
        } else if i < p {
            assert(r[i] == s[i] && r[j] == s[j - 1]);
        } else {
            assert(r[i] == s[i - 1] && r[j] == s[j - 1]);
        }
    }
    broadcast use vstd::seq_lib::group_seq_properties;
    vstd::seq_lib::lemma_multiset_commutative(s.take(p), s.skip(p));
    vstd::seq_lib::lemma_multiset_commutative(s.take(p).push(x), s.skip(p));
    assert(s =~= s.take(p) + s.skip(p));
    assert(r =~= s.take(p).push(x) + s.skip(p));
}

/// The stable sort yields a ranked permutation of its input.
pub proof fn lemma_sort_ranked(side: OrderType, s: Seq<Order>)
    ensures
        is_ranked(side, sort_ranked(side, s)),
        sort_ranked(side, s).to_multiset() =~= s.to_multiset(),
        sort_ranked(side, s).len() == s.len(),
    decreases s.len(),
{
    if s.len() > 0 {
        lemma_sort_ranked(side, s.drop_last());
        lemma_insert_keeps_ranked(side, sort_ranked(side, s.drop_last()), s.last());
        broadcast use vstd::seq_lib::group_seq_properties;
        assert(s =~= s.drop_last().push(s.last()));
    }
}

/// A queue that is already ranked is left as it is by the sort.
pub proof fn lemma_sort_of_ranked(side: OrderType, s: Seq<Order>)
    requires
        is_ranked(side, s),
    ensures
        sort_ranked(side, s) == s,
    decreases s.len(),
{
    if s.len() > 0 {
        let d = s.drop_last();
        assert(is_ranked(side, d)) by {
            assert forall|i: int, j: int| 0 <= i < j < d.len() implies !ranks_behind(side, #[trigger] d[i], #[trigger] d[j]) by {
                assert(d[i] == s[i] && d[j] == s[j]);
            }
        }
        lemma_sort_of_ranked(side, d);
        assert forall|k: int| 0 <= k < d.len() implies !ranks_behind(side, #[trigger] d[k], s.last()) by {
            assert(d[k] == s[k]);
        }
        lemma_insert_pos_at(side, d, s.last(), d.len() as int);
        assert(d.insert(d.len() as int, s.last()) =~= s);
    }
}

/// Sorting a queue with one order added at its end puts that order at its
/// place in the sorted queue.
pub proof fn lemma_sort_push(side: OrderType, s: Seq<Order>, x: Order)
    ensures
        sort_ranked(side, s.push(x)) == insert_ranked(side, sort_ranked(side, s), x),
{
    assert(s.push(x).drop_last() =~= s);
}

/// Inserts `x` into `v` at its place.
fn insert_at_rank(side: OrderType, v: &mut Vec<Order>, x: Order)
    ensures
        final(v)@ == insert_ranked(side, old(v)@, x),
{
    let mut i: usize = 0;
    while i < v.len() && !behind(side, &v[i], &x)
        invariant
            0 <= i <= v.len(),
            forall|k: int| 0 <= k < i ==> !ranks_behind(side, #[trigger] v@[k], x),
        decreases v.len() - i,
    {
        i = i + 1;
    }
    proof {
        lemma_insert_pos_at(side, v@, x, i as int);
    }
    v.insert(i, x);
}

/// The orders of `v`, stably sorted by the priority of `side`.
pub fn sort_orders(side: OrderType, v: &Vec<Order>) -> (res: Vec<Order>)
    ensures
        res@ == sort_ranked(side, v@),
{
    let mut res: Vec<Order> = Vec::new();
    let mut k: usize = 0;
    while k < v.len()
        invariant
            0 <= k <= v.len(),
            res@ == sort_ranked(side, v@.take(k as int)),
        decreases v.len() - k,
    {
        proof {
            assert(v@.take(k + 1).drop_last() =~= v@.take(k as int));
        }
        insert_at_rank(side, &mut res, v[k]);
        k = k + 1;
    }
    proof {
        assert(v@.take(v.len() as int) =~= v@);
    }
    res
}

} // verus!
