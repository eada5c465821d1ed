//! The order in which resting orders are served: by price, and among equal
//! prices in the order in which they rest.

use vstd::prelude::*;
use crate::state::{lacks_id, order_ok, side_ok, Order, Side};

verus! {

/// Whether a resting order at price `a` is served no later than one at price
/// `b` that was placed after it, for a taker of `side`: a buyer is served the
/// cheapest offer first, a seller the highest bid.
pub open spec fn serves_first(side: Side, a: u64, b: u64) -> bool {
    match side {
        Side::Buy => a <= b,
        Side::Sell => a >= b,
    }
}

/// Where `o` goes in `sorted`: behind the last order that is served no later
/// than it.
pub open spec fn landing(sorted: Seq<Order>, o: Order, side: Side) -> int
    decreases sorted.len(),
{
    if sorted.len() == 0 {
        0
    } else if serves_first(side, sorted.last().price, o.price) {
        sorted.len() as int
    } else {
        landing(sorted.drop_last(), o, side)
    }
}

/// The resting orders `s` in the order in which a taker of `side` is served:
/// by price, and among equal prices in the order that they have in `s`.
pub open spec fn by_price(s: Seq<Order>, side: Side) -> Seq<Order>
    decreases s.len(),
{
    if s.len() == 0 {
        s
    } else {
        let front = by_price(s.drop_last(), side);
        front.insert(landing(front, s.last(), side), s.last())
    }
}

/// Every order of `s` is served no later than each one behind it.
pub open spec fn in_serving_order(s: Seq<Order>, side: Side) -> bool {
    forall|i: int, j: int| 0 <= i < j < s.len() ==> serves_first(side, (#[trigger] s[i]).price, (#[trigger] s[j]).price)
}

/// `landing` is in range; the order just before it is served no later than
/// `o`, and every order from it on is served only after `o`.
pub proof fn lemma_landing_range(sorted: Seq<Order>, o: Order, side: Side)
    ensures
        0 <= landing(sorted, o, side) <= sorted.len(),
        landing(sorted, o, side) > 0 ==> serves_first(side, sorted[landing(sorted, o, side) - 1].price, o.price),
        forall|j: int|
            landing(sorted, o, side) <= j < sorted.len() ==> !serves_first(side, (#[trigger] sorted[j]).price, o.price),
    decreases sorted.len(),
{
    if sorted.len() > 0 && !serves_first(side, sorted.last().price, o.price) {
        let init = sorted.drop_last();
        lemma_landing_range(init, o, side);
        assert forall|j: int| landing(sorted, o, side) <= j < sorted.len() implies !serves_first(
            side,
            (#[trigger] sorted[j]).price,
            o.price,
        ) by {
            if j < init.len() {
                assert(sorted[j] == init[j]);
            }
        }
    }
}

/// What stands where after an insertion.
pub proof fn lemma_insert_at(s: Seq<Order>, k: int, o: Order)
    requires
        0 <= k <= s.len(),
    ensures
        s.insert(k, o).len() == s.len() + 1,
        s.insert(k, o)[k] == o,
        forall|i: int| 0 <= i < k ==> (#[trigger] s.insert(k, o)[i]) == s[i],
        forall|i: int| k < i <= s.len() ==> (#[trigger] s.insert(k, o)[i]) == s[i - 1],
{
}

/// Sorting brings the orders into serving order.
pub proof fn law_by_price_sorted(s: Seq<Order>, side: Side)
    ensures
        in_serving_order(by_price(s, side), side),
    decreases s.len(),
{
    if s.len() > 0 {
        let front = by_price(s.drop_last(), side);
        let o = s.last();
        let k = landing(front, o, side);
        law_by_price_sorted(s.drop_last(), side);
        lemma_landing_range(front, o, side);
        lemma_insert_at(front, k, o);
        let r = front.insert(k, o);
        assert forall|i: int, j: int| 0 <= i < j < r.len() implies serves_first(
            side,
            (#[trigger] r[i]).price,
            (#[trigger] r[j]).price,
        ) by {
            if j < k {
                assert(r[i] == front[i] && r[j] == front[j]);
            } else if j == k {
                assert(r[i] == front[i]);
                if i < k - 1 {
                    assert(serves_first(side, front[i].price, front[k - 1].price));
                }
            } else if i < k {
                assert(r[i] == front[i] && r[j] == front[j - 1]);
            } else if i == k {
                assert(r[j] == front[j - 1]);
                assert(!serves_first(side, front[j - 1].price, o.price));
            } else {
                assert(r[i] == front[i - 1] && r[j] == front[j - 1]);
            }
        }
    }
}

/// Sorting neither adds nor drops an order.
pub proof fn law_by_price_permutes(s: Seq<Order>, side: Side)
    ensures
        by_price(s, side).to_multiset() == s.to_multiset(),
    decreases s.len(),
{
    broadcast use {vstd::seq_lib::to_multiset_insert, vstd::seq_lib::to_multiset_build};

    if s.len() > 0 {
        let front = by_price(s.drop_last(), side);
        law_by_price_permutes(s.drop_last(), side);
        lemma_landing_range(front, s.last(), side);
        assert(s =~= s.drop_last().push(s.last()));
    }
}

/// Sorting brings in no id.
pub proof fn lemma_by_price_lacks(s: Seq<Order>, side: Side, id: u64)
    requires
        lacks_id(s, id),
    ensures
        lacks_id(by_price(s, side), id),
    decreases s.len(),
{
    if s.len() > 0 {
        let front = by_price(s.drop_last(), side);
        let k = landing(front, s.last(), side);
        assert forall|i: int| 0 <= i < s.drop_last().len() implies (#[trigger] s.drop_last()[i]).id != id by {
            assert(s.drop_last()[i] == s[i]);
        }
        lemma_by_price_lacks(s.drop_last(), side, id);
        lemma_landing_range(front, s.last(), side);
        lemma_insert_at(front, k, s.last());
    }
}

/// Sorting keeps a side in order: the same orders, each id once.
pub proof fn lemma_by_price_side_ok(s: Seq<Order>, side: Side, own: Side, counter: u64)
    requires
        side_ok(s, own, counter),
    ensures
        side_ok(by_price(s, side), own, counter),
    decreases s.len(),
{
    if s.len() > 0 {
        let init = s.drop_last();
        let front = by_price(init, side);
        let o = s.last();
        let k = landing(front, o, side);
        assert forall|i: int| 0 <= i < init.len() implies (#[trigger] init[i]).id != o.id by {
            assert(init[i] == s[i]);
        }
        assert(side_ok(init, own, counter)) by {
            assert forall|i: int| 0 <= i < init.len() implies order_ok(
                #[trigger] init[i],
                own,
                counter,
            ) by {
                assert(init[i] == s[i]);
            }
            assert forall|i: int, j: int| 0 <= i < j < init.len() implies (#[trigger] init[i]).id != (
            #[trigger] init[j]).id by {
                assert(init[i] == s[i] && init[j] == s[j]);
            }
        }
        lemma_by_price_side_ok(init, side, own, counter);
        lemma_by_price_lacks(init, side, o.id);
        lemma_landing_range(front, o, side);
        lemma_insert_at(front, k, o);
        let r = front.insert(k, o);
        assert forall|i: int| 0 <= i < r.len() implies order_ok(#[trigger] r[i], own, counter) by {
            if i < k {
                assert(r[i] == front[i]);
            } else if i > k {
                assert(r[i] == front[i - 1]);
            }
        }
        assert forall|i: int, j: int| 0 <= i < j < r.len() implies (#[trigger] r[i]).id != (#[trigger] r[j]).id by {
            if i < k {
                assert(r[i] == front[i]);
            } else if i > k {
                assert(r[i] == front[i - 1]);
            }
            if j < k {
                assert(r[j] == front[j]);
            } else if j > k {
                assert(r[j] == front[j - 1]);
            }
        }
    }
}

/// Sorting keeps the number of orders.
pub proof fn lemma_by_price_len(s: Seq<Order>, side: Side)
    ensures
        by_price(s, side).len() == s.len(),
    decreases s.len(),
{
    if s.len() > 0 {
        lemma_by_price_len(s.drop_last(), side);
        lemma_landing_range(by_price(s.drop_last(), side), s.last(), side);
    }
}

/// The orders of `s` that rest at `price`, in the order that they have in `s`.
pub open spec fn at_price(s: Seq<Order>, price: u64) -> Seq<Order>
    decreases s.len(),
{
    if s.len() == 0 {
        s
    } else if s.last().price == price {
        at_price(s.drop_last(), price).push(s.last())
    } else {
        at_price(s.drop_last(), price)
    }
}

/// An order put in front of orders at other prices only joins the orders at
/// its own price as their last.
pub proof fn lemma_at_price_insert(t: Seq<Order>, k: int, o: Order, price: u64)
    requires
        0 <= k <= t.len(),
        forall|j: int| k <= j < t.len() ==> (#[trigger] t[j]).price != o.price,
    ensures
        at_price(t.insert(k, o), price) == if o.price == price {
            at_price(t, price).push(o)
        } else {
            at_price(t, price)
        },
    decreases t.len(),
{
    if k == t.len() {
        assert(t.insert(k, o) =~= t.push(o));
        assert(t.push(o).drop_last() =~= t);
    } else {
        let init = t.drop_last();
        assert(t.insert(k, o).drop_last() =~= init.insert(k, o));
        assert(t.insert(k, o).last() == t.last());
        assert(t[t.len() - 1].price != o.price);
        assert forall|j: int| k <= j < init.len() implies (#[trigger] init[j]).price != o.price by {
            assert(init[j] == t[j]);
        }
        lemma_at_price_insert(init, k, o, price);
    }
}

/// Sorting is stable: the orders at one price keep the order that they had.
pub proof fn law_by_price_stable(s: Seq<Order>, side: Side, price: u64)
    ensures
        at_price(by_price(s, side), price) == at_price(s, price),
    decreases s.len(),
{
    if s.len() > 0 {
        let front = by_price(s.drop_last(), side);
        let o = s.last();
        law_by_price_stable(s.drop_last(), side, price);
        lemma_landing_range(front, o, side);
        lemma_at_price_insert(front, landing(front, o, side), o, price);
    }
}

/// Whether a resting order at price `a` is served no later than one at `b`
/// behind it; see [`serves_first`].
pub fn price_serves_first(side: Side, a: u64, b: u64) -> (r: bool)
    ensures
        r == serves_first(side, a, b),
{
    match side {
        Side::Buy => a <= b,
        Side::Sell => a >= b,
    }
}

/// A copy of `orders` in the order in which a taker of `side` is served.
pub fn sort_by_price(orders: &Vec<Order>, side: Side) -> (out: Vec<Order>)
    ensures
        out@ == by_price(orders@, side),
{
    let mut out: Vec<Order> = Vec::new();
    let mut k: usize = 0;
    while k < orders.len()
        invariant
            k <= orders.len(),
            out@ == by_price(orders@.take(k as int), side),
        decreases orders.len() - k,
    {
        let o = orders[k];
        let mut j: usize = out.len();
        proof {
            assert(out@.take(out.len() as int) =~= out@);
        }
        while j > 0 && !price_serves_first(side, out[j - 1].price, o.price)
            invariant
                j <= out.len(),
                landing(out@, o, side) == landing(out@.take(j as int), o, side),
            decreases j,
        {
            proof {
                assert(out@.take(j as int).drop_last() =~= out@.take(j - 1));
            }
            j -= 1;
        }
        proof {
            assert(landing(out@.take(j as int), o, side) == j);
            assert(orders@.take(k + 1).drop_last() =~= orders@.take(k as int));
            assert(orders@.take(k + 1).last() == o);
        }
        out.insert(j, o);
        k += 1;
    }
    proof {
        assert(orders@.take(orders.len() as int) =~= orders@);
    }
    out
}

} // verus!
