//! What holds of every walk of a taker over the resting orders, and of
//! every match.

use vstd::prelude::*;
use crate::error::ErrorCode;
use crate::ledger::{balance_of, credit, debit, lemma_credit, lemma_debit};
use crate::match_order::{
    cross, crosses, lemma_order_slot, matched, order_slot, put_back, settle, trade_amount, MatchingResult,
    Reinsertion,
};
use crate::sorting::{
    by_price, lemma_by_price_lacks, lemma_by_price_len, lemma_by_price_side_ok, lemma_insert_at,
};
use crate::state::{
    lacks_id, ledger_ok, order_ok, side_ok, BookState, Order, Principal, Side, UserBalance, MAX_ORDERS,
};

verus! {

/// A walk never leaves the taker with more than it came with.
pub proof fn lemma_cross_remaining(
    side: Side,
    price: u64,
    taker: Principal,
    makers: Seq<Order>,
    ledger: Seq<UserBalance>,
    remaining: u64,
)
    ensures
        cross(side, price, taker, makers, ledger, remaining) matches Ok(fill) ==> fill.remaining <= remaining,
    decreases makers.len(),
{
    if makers.len() == 0 || remaining == 0 || !crosses(side, price, makers[0].price) {
    } else {
        let maker = makers[0];
        let amount = trade_amount(remaining, maker);
        if amount == 0 {
            lemma_cross_remaining(side, price, taker, makers.drop_first(), ledger, remaining);
        } else if amount * maker.price > u64::MAX {
        } else {
            match settle(ledger, side, taker, maker.owner, amount, (amount * maker.price) as u64) {
                Err(e) => {},
                Ok(paid) => {
                    lemma_cross_remaining(side, price, taker, makers.drop_first(), paid, (remaining - amount) as u64);
                },
            }
        }
    }
}

/// The errors of the ledger: what a credit or a debit may be refused with.
pub open spec fn ledger_error(e: ErrorCode) -> bool {
    e == ErrorCode::CalculationFailure || e == ErrorCode::TooManyUsers || e == ErrorCode::UserNotFound || e
        == ErrorCode::InsufficientBalance
}

/// A walk is refused only with an error of the ledger.
pub proof fn lemma_cross_errors(
    side: Side,
    price: u64,
    taker: Principal,
    makers: Seq<Order>,
    ledger: Seq<UserBalance>,
    remaining: u64,
)
    ensures
        cross(side, price, taker, makers, ledger, remaining) matches Err(e) ==> ledger_error(e),
    decreases makers.len(),
{
    if makers.len() == 0 || remaining == 0 || !crosses(side, price, makers[0].price) {
    } else {
        let maker = makers[0];
        let amount = trade_amount(remaining, maker);
        if amount == 0 {
            lemma_cross_errors(side, price, taker, makers.drop_first(), ledger, remaining);
        } else if amount * maker.price > u64::MAX {
        } else {
            match settle(ledger, side, taker, maker.owner, amount, (amount * maker.price) as u64) {
                Err(e) => {},
                Ok(paid) => {
                    lemma_cross_errors(side, price, taker, makers.drop_first(), paid, (remaining - amount) as u64);
                },
            }
        }
    }
}

/// A trade keeps the ledger in order.
pub proof fn lemma_settle_ledger_ok(
    ledger: Seq<UserBalance>,
    side: Side,
    taker: Principal,
    maker: Principal,
    amount: u64,
    quote: u64,
)
    requires
        ledger_ok(ledger),
        settle(ledger, side, taker, maker, amount, quote) is Ok,
    ensures
        ledger_ok(settle(ledger, side, taker, maker, amount, quote)->Ok_0),
{
    let (base_in, quote_in): (u64, u64) = if side == Side::Buy {
        (amount, 0)
    } else {
        (0, quote)
    };
    let (base_out, quote_out): (u64, u64) = if side == Side::Buy {
        (0, quote)
    } else {
        (amount, 0)
    };
    let a = credit(ledger, taker, base_in, quote_in)->Ok_0;
    lemma_credit(ledger, taker, base_in, quote_in, taker);
    let b = debit(a, taker, base_out, quote_out)->Ok_0;
    lemma_debit(a, taker, base_out, quote_out, taker);
    let c = credit(b, maker, base_out, quote_out)->Ok_0;
    lemma_credit(b, maker, base_out, quote_out, maker);
    lemma_debit(c, maker, base_in, quote_in, maker);
}

/// A walk brings no id in among the resting orders.
pub proof fn lemma_cross_lacks(
    side: Side,
    price: u64,
    taker: Principal,
    makers: Seq<Order>,
    ledger: Seq<UserBalance>,
    remaining: u64,
    id: u64,
)
    requires
        lacks_id(makers, id),
        cross(side, price, taker, makers, ledger, remaining) is Ok,
    ensures
        lacks_id(cross(side, price, taker, makers, ledger, remaining)->Ok_0.makers, id),
    decreases makers.len(),
{
    if makers.len() == 0 || remaining == 0 || !crosses(side, price, makers[0].price) {
    } else {
        let maker = makers[0];
        let tail = makers.drop_first();
        let amount = trade_amount(remaining, maker);
        assert forall|i: int| 0 <= i < tail.len() implies (#[trigger] tail[i]).id != id by {
            assert(tail[i] == makers[i + 1]);
        }
        assert(maker.id != id);
        if amount == 0 {
            lemma_cross_lacks(side, price, taker, tail, ledger, remaining, id);
        } else {
            let paid = settle(ledger, side, taker, maker.owner, amount, (amount * maker.price) as u64)->Ok_0;
            lemma_cross_lacks(side, price, taker, tail, paid, (remaining - amount) as u64, id);
        }
    }
}

/// A walk keeps the resting side and the ledger in order, and takes none of
/// the resting orders' number up.
pub proof fn lemma_cross_keeps(
    side: Side,
    price: u64,
    taker: Principal,
    makers: Seq<Order>,
    ledger: Seq<UserBalance>,
    remaining: u64,
    own: Side,
    counter: u64,
)
    requires
        side_ok(makers, own, counter),
        ledger_ok(ledger),
        cross(side, price, taker, makers, ledger, remaining) is Ok,
    ensures
        side_ok(cross(side, price, taker, makers, ledger, remaining)->Ok_0.makers, own, counter),
        ledger_ok(cross(side, price, taker, makers, ledger, remaining)->Ok_0.ledger),
        cross(side, price, taker, makers, ledger, remaining)->Ok_0.makers.len() <= makers.len(),
    decreases makers.len(),
{
    if makers.len() == 0 || remaining == 0 || !crosses(side, price, makers[0].price) {
    } else {
        let maker = makers[0];
        let tail = makers.drop_first();
        let amount = trade_amount(remaining, maker);
        assert(side_ok(tail, own, counter)) by {
            assert forall|i: int| 0 <= i < tail.len() implies order_ok(#[trigger] tail[i], own, counter) by {
                assert(tail[i] == makers[i + 1]);
            }
            assert forall|i: int, j: int| 0 <= i < j < tail.len() implies (#[trigger] tail[i]).id != (
            #[trigger] tail[j]).id by {
                assert(tail[i] == makers[i + 1] && tail[j] == makers[j + 1]);
            }
        }
        assert(lacks_id(tail, maker.id)) by {
            assert forall|i: int| 0 <= i < tail.len() implies (#[trigger] tail[i]).id != maker.id by {
                assert(tail[i] == makers[i + 1]);
            }
        }
        assert(order_ok(maker, own, counter));
        if amount == 0 {
        } else {
            let paid = settle(ledger, side, taker, maker.owner, amount, (amount * maker.price) as u64)->Ok_0;
            let left = (remaining - amount) as u64;
            lemma_settle_ledger_ok(ledger, side, taker, maker.owner, amount, (amount * maker.price) as u64);
            lemma_cross_keeps(side, price, taker, tail, paid, left, own, counter);
            if amount != maker.remaining_amount {
                lemma_cross_lacks(side, price, taker, tail, paid, left, maker.id);
                let rest = cross(side, price, taker, tail, paid, left)->Ok_0.makers;
                let head = Order { remaining_amount: (maker.remaining_amount - amount) as u64, ..maker };
                let kept = seq![head] + rest;
                assert forall|i: int| 0 <= i < kept.len() implies order_ok(#[trigger] kept[i], own, counter) by {
                    if i > 0 {
                        assert(kept[i] == rest[i - 1]);
                    }
                }
                assert forall|i: int, j: int| 0 <= i < j < kept.len() implies (#[trigger] kept[i]).id != (
                #[trigger] kept[j]).id by {
                    assert(kept[j] == rest[j - 1]);
                    if i > 0 {
                        assert(kept[i] == rest[i - 1]);
                    }
                }
            }
        }
    }
}

/// The order with `id` that a match takes up: the first such bid, or else
/// the first such offer.
pub open spec fn resting_order(st: BookState, id: u64) -> Order {
    if order_slot(st.buys, id) < st.buys.len() {
        st.buys[order_slot(st.buys, id)]
    } else {
        st.sells[order_slot(st.sells, id)]
    }
}

/// The side across, sorted and walked, is in order as it was, and so is the
/// ledger. The walk brings no id in, and leaves the taker no more than it had.
pub proof fn lemma_walked_side(
    side: Side,
    price: u64,
    taker: Principal,
    across: Seq<Order>,
    ledger: Seq<UserBalance>,
    remaining: u64,
    own: Side,
    counter: u64,
)
    requires
        side_ok(across, own, counter),
        ledger_ok(ledger),
        cross(side, price, taker, by_price(across, side), ledger, remaining) is Ok,
    ensures
        ({
            let fill = cross(side, price, taker, by_price(across, side), ledger, remaining)->Ok_0;
            &&& side_ok(fill.makers, own, counter)
            &&& ledger_ok(fill.ledger)
            &&& fill.makers.len() <= across.len()
            &&& fill.remaining <= remaining
            &&& forall|id: u64| #[trigger] lacks_id(across, id) ==> lacks_id(fill.makers, id)
        }),
{
    let makers = by_price(across, side);
    let fill = cross(side, price, taker, makers, ledger, remaining)->Ok_0;
    lemma_by_price_len(across, side);
    lemma_by_price_side_ok(across, side, own, counter);
    lemma_cross_keeps(side, price, taker, makers, ledger, remaining, own, counter);
    lemma_cross_remaining(side, price, taker, makers, ledger, remaining);
    assert forall|id: u64| #[trigger] lacks_id(across, id) implies lacks_id(fill.makers, id) by {
        lemma_by_price_lacks(across, side, id);
        lemma_cross_lacks(side, price, taker, makers, ledger, remaining, id);
    }
}

/// A side of which one order is taken out is in order as it was, and lacks
/// that order's id.
pub proof fn lemma_taken_out(own: Seq<Order>, index: int, side: Side, counter: u64)
    requires
        side_ok(own, side, counter),
        0 <= index < own.len(),
    ensures
        side_ok(own.remove(index), side, counter),
        lacks_id(own.remove(index), own[index].id),
        own.remove(index).len() == own.len() - 1,
        forall|id: u64| #[trigger] lacks_id(own, id) ==> lacks_id(own.remove(index), id),
{
    let rest = own.remove(index);
    assert forall|i: int| 0 <= i < rest.len() implies (#[trigger] rest[i]) == own[if i < index {
        i
    } else {
        i + 1
    }] by {}
    assert forall|i: int| 0 <= i < rest.len() implies order_ok(#[trigger] rest[i], side, counter) && rest[i].id
        != own[index].id by {
        assert(rest[i] == own[if i < index { i } else { i + 1 }]);
    }
    assert forall|i: int, j: int| 0 <= i < j < rest.len() implies (#[trigger] rest[i]).id != (#[trigger] rest[j]).id by {
        assert(rest[i] == own[if i < index { i } else { i + 1 }]);
        assert(rest[j] == own[if j < index { j } else { j + 1 }]);
    }
    assert forall|id: u64| #[trigger] lacks_id(own, id) implies lacks_id(rest, id) by {
        assert forall|i: int| 0 <= i < rest.len() implies (#[trigger] rest[i]).id != id by {
            assert(rest[i] == own[if i < index { i } else { i + 1 }]);
        }
    }
}

/// A side to which an order with a new id is put back is in order as it
/// was. The order is its last, or stands at `index`, as `policy` says.
pub proof fn lemma_put_back(rest: Seq<Order>, left: Order, index: int, policy: Reinsertion, side: Side, counter: u64)
    requires
        side_ok(rest, side, counter),
        order_ok(left, side, counter),
        lacks_id(rest, left.id),
        0 <= index <= rest.len(),
    ensures
        side_ok(put_back(rest, left, index, policy), side, counter),
        put_back(rest, left, index, policy).len() == rest.len() + 1,
        policy == Reinsertion::AtEnd ==> put_back(rest, left, index, policy).last() == left,
        policy == Reinsertion::InPlace ==> put_back(rest, left, index, policy)[index] == left,
        forall|id: u64| #[trigger] lacks_id(rest, id) && left.id != id ==> lacks_id(put_back(rest, left, index, policy), id),
{
    let at = if policy == Reinsertion::AtEnd {
        rest.len() as int
    } else {
        index
    };
    let back = put_back(rest, left, index, policy);
    assert(back =~= rest.insert(at, left));
    lemma_insert_at(rest, at, left);
    assert forall|i: int| 0 <= i < back.len() implies order_ok(#[trigger] back[i], side, counter) by {
        if i < at {
            assert(back[i] == rest[i]);
        } else if i > at {
            assert(back[i] == rest[i - 1]);
        }
    }
    assert forall|i: int, j: int| 0 <= i < j < back.len() implies (#[trigger] back[i]).id != (#[trigger] back[j]).id by {
        if i < at {
            assert(back[i] == rest[i]);
        } else if i > at {
            assert(back[i] == rest[i - 1]);
        }
        if j < at {
            assert(back[j] == rest[j]);
        } else if j > at {
            assert(back[j] == rest[j - 1]);
        }
    }
    assert forall|id: u64| #[trigger] lacks_id(rest, id) && left.id != id implies lacks_id(back, id) by {
        assert forall|i: int| 0 <= i < back.len() implies (#[trigger] back[i]).id != id by {
            if i < at {
                assert(back[i] == rest[i]);
            } else if i > at {
                assert(back[i] == rest[i - 1]);
            }
        }
    }
}

/// A match keeps the book's invariant, and does not move the id counter.
/// What it fills and what it leaves make up what the order had open. An
/// order filled in full is gone from the book; one with a remainder is back
/// on its side with that remainder: as the last order, or where it was.
pub proof fn lemma_matched_keeps_wf(st: BookState, user: Principal, order_id: u64, policy: Reinsertion)
    requires
        st.wf(),
        matched(st, user, order_id, policy) is Ok,
    ensures
        matched(st, user, order_id, policy)->Ok_0.0.wf(),
        matched(st, user, order_id, policy)->Ok_0.0.order_counter == st.order_counter,
        resting_order(st, order_id).id == order_id,
        resting_order(st, order_id).owner == user,
        matched(st, user, order_id, policy)->Ok_0.1.filled_amount + matched(
            st,
            user,
            order_id,
            policy,
        )->Ok_0.1.remaining_amount == resting_order(st, order_id).remaining_amount,
        matched(st, user, order_id, policy)->Ok_0.1.remaining_amount == 0 ==> {
            &&& lacks_id(matched(st, user, order_id, policy)->Ok_0.0.buys, order_id)
            &&& lacks_id(matched(st, user, order_id, policy)->Ok_0.0.sells, order_id)
        },
        matched(st, user, order_id, policy)->Ok_0.1.remaining_amount > 0 ==> {
            let after = matched(st, user, order_id, policy)->Ok_0.0;
            let own = if resting_order(st, order_id).side == Side::Buy {
                after.buys
            } else {
                after.sells
            };
            let left = Order {
                remaining_amount: matched(st, user, order_id, policy)->Ok_0.1.remaining_amount,
                ..resting_order(st, order_id)
            };
            let index = if resting_order(st, order_id).side == Side::Buy {
                order_slot(st.buys, order_id)
            } else {
                order_slot(st.sells, order_id)
            };
            &&& own.len() > index
            &&& policy == Reinsertion::AtEnd ==> own.last() == left
            &&& policy == Reinsertion::InPlace ==> own[index] == left
        },
{
    let b = order_slot(st.buys, order_id);
    let s = order_slot(st.sells, order_id);
    lemma_order_slot(st.buys, order_id);
    lemma_order_slot(st.sells, order_id);
    let found = if b < st.buys.len() {
        Side::Buy
    } else {
        Side::Sell
    };
    let index = if found == Side::Buy {
        b
    } else {
        s
    };
    let own = if found == Side::Buy {
        st.buys
    } else {
        st.sells
    };
    let other = if found == Side::Buy {
        st.sells
    } else {
        st.buys
    };
    let other_side = if found == Side::Buy {
        Side::Sell
    } else {
        Side::Buy
    };
    let order = own[index];
    assert(order_ok(order, found, st.order_counter));
    assert(order == resting_order(st, order_id));
    let rest = own.remove(index);
    let after = matched(st, user, order_id, policy)->Ok_0.0;
    let fill = cross(found, order.price, user, by_price(other, found), st.balances, order.remaining_amount)->Ok_0;
    let left = Order { remaining_amount: fill.remaining, ..order };
    let back = if fill.remaining == 0 {
        rest
    } else {
        put_back(rest, left, index, policy)
    };
    lemma_walked_side(
        found,
        order.price,
        user,
        other,
        st.balances,
        order.remaining_amount,
        other_side,
        st.order_counter,
    );
    lemma_taken_out(own, index, found, st.order_counter);
    if fill.remaining > 0 {
        lemma_put_back(rest, left, index, policy, found, st.order_counter);
    }
    if found == Side::Buy {
        assert(after.buys == back && after.sells == fill.makers);
    } else {
        assert(after.sells == back && after.buys == fill.makers);
    }
    // the order's own id is on neither side but where it was put back
    assert(lacks_id(other, order.id)) by {
        assert forall|m: int| 0 <= m < other.len() implies (#[trigger] other[m]).id != order.id by {
            if found == Side::Buy {
                assert(lacks_id(st.buys, st.sells[m].id));
            } else {
                assert(lacks_id(st.buys, st.sells[index].id));
            }
        }
    }
    assert(lacks_id(fill.makers, order.id));
    // no id rests on both sides
    assert forall|j: int| 0 <= j < after.sells.len() implies lacks_id(after.buys, (#[trigger] after.sells[j]).id) by {
        let id = after.sells[j].id;
        if lacks_id(st.sells, id) {
            // then the id is the order's own, or it would be missing here too
            assert(!lacks_id(after.sells, id));
            assert(found == Side::Sell && id == order.id);
        } else {
            let m = choose|m: int| 0 <= m < st.sells.len() && st.sells[m].id == id;
            assert(lacks_id(st.buys, st.sells[m].id));
        }
    }
}

/// In a book that is in order a match is never refused for want of room:
/// the order goes back to the side that it left.
pub proof fn law_match_finds_room(st: BookState, user: Principal, order_id: u64, policy: Reinsertion)
    requires
        st.wf(),
    ensures
        matched(st, user, order_id, policy) != Err::<(BookState, MatchingResult), ErrorCode>(
            ErrorCode::OrderbookFull,
        ),
{
    lemma_order_slot(st.buys, order_id);
    lemma_order_slot(st.sells, order_id);
    let b = order_slot(st.buys, order_id);
    let s = order_slot(st.sells, order_id);
    if b < st.buys.len() {
        let order = st.buys[b];
        assert(order_ok(order, Side::Buy, st.order_counter));
        assert(st.buys.remove(b).len() < MAX_ORDERS);
        lemma_cross_errors(
            Side::Buy,
            order.price,
            user,
            by_price(st.sells, Side::Buy),
            st.balances,
            order.remaining_amount,
        );
    } else if s < st.sells.len() {
        let order = st.sells[s];
        assert(order_ok(order, Side::Sell, st.order_counter));
        assert(st.sells.remove(s).len() < MAX_ORDERS);
        lemma_cross_errors(
            Side::Sell,
            order.price,
            user,
            by_price(st.buys, Side::Sell),
            st.balances,
            order.remaining_amount,
        );
    }
}

/// A trade is at the resting order's price, not at the taker's. Where a
/// taker meets one resting order that its price reaches, the buyer pays and
/// the seller gets the traded amount times the resting order's price, and
/// the traded amount of base goes from the seller to the buyer. A principal
/// that trades with itself holds afterwards what it held before.
pub proof fn law_trade_at_resting_price(
    side: Side,
    price: u64,
    taker: Principal,
    maker: Order,
    ledger: Seq<UserBalance>,
    remaining: u64,
)
    requires
        ledger_ok(ledger),
        crosses(side, price, maker.price),
        remaining > 0,
        maker.remaining_amount > 0,
        cross(side, price, taker, seq![maker], ledger, remaining) is Ok,
    ensures
        ({
            let after = cross(side, price, taker, seq![maker], ledger, remaining)->Ok_0;
            let amount = trade_amount(remaining, maker);
            let buyer = if side == Side::Buy {
                taker
            } else {
                maker.owner
            };
            let seller = if side == Side::Buy {
                maker.owner
            } else {
                taker
            };
            &&& after.remaining == remaining - amount
            &&& buyer != seller ==> {
                &&& balance_of(after.ledger, buyer).0 == balance_of(ledger, buyer).0 + amount
                &&& balance_of(after.ledger, buyer).1 == balance_of(ledger, buyer).1 - amount * maker.price
                &&& balance_of(after.ledger, seller).0 == balance_of(ledger, seller).0 - amount
                &&& balance_of(after.ledger, seller).1 == balance_of(ledger, seller).1 + amount * maker.price
            }
            &&& buyer == seller ==> balance_of(after.ledger, taker) == balance_of(ledger, taker)
        }),
{
    let amount = trade_amount(remaining, maker);
    let quote = (amount * maker.price) as u64;
    let makers = seq![maker];
    assert(makers[0] == maker);
    assert(makers.drop_first().len() == 0);
    let (base_in, quote_in): (u64, u64) = if side == Side::Buy {
        (amount, 0)
    } else {
        (0, quote)
    };
    let (base_out, quote_out): (u64, u64) = if side == Side::Buy {
        (0, quote)
    } else {
        (amount, 0)
    };
    assert(settle(ledger, side, taker, maker.owner, amount, quote) is Ok);
    let a = credit(ledger, taker, base_in, quote_in)->Ok_0;
    lemma_credit(ledger, taker, base_in, quote_in, maker.owner);
    let b = debit(a, taker, base_out, quote_out)->Ok_0;
    lemma_debit(a, taker, base_out, quote_out, maker.owner);
    let c = credit(b, maker.owner, base_out, quote_out)->Ok_0;
    lemma_credit(b, maker.owner, base_out, quote_out, taker);
    let d = debit(c, maker.owner, base_in, quote_in)->Ok_0;
    lemma_debit(c, maker.owner, base_in, quote_in, taker);
    assert(settle(ledger, side, taker, maker.owner, amount, quote) == Ok::<Seq<UserBalance>, ErrorCode>(d));
    let after = cross(side, price, taker, makers, ledger, remaining)->Ok_0;
    assert(amount * maker.price <= u64::MAX);
    assert(cross(side, price, taker, makers.drop_first(), d, (remaining - amount) as u64)->Ok_0.ledger == d);
    assert(after.ledger == d);
}

/// `now` is `before` with an open amount that is above zero and no larger
/// than it was.
pub open spec fn reduced(now: Order, before: Order) -> bool {
    &&& 0 < now.remaining_amount <= before.remaining_amount
    &&& now == Order { remaining_amount: now.remaining_amount, ..before }
}

/// `stay` is the back of `makers`, unchanged but for its first order, which
/// may be reduced.
pub open spec fn stays_behind(stay: Seq<Order>, makers: Seq<Order>) -> bool {
    let gone = makers.len() - stay.len();
    &&& 0 <= gone
    &&& stay.len() > 0 ==> reduced(stay[0], makers[gone])
    &&& forall|i: int| 0 < i < stay.len() ==> (#[trigger] stay[i]) == makers[gone + i]
}

/// A resting order that a walk fills in full leaves, and one that it fills in
/// part stays with what is left of it. Among resting orders that all have
/// something open, a walk takes a number of orders off the front; the orders
/// that stay are those behind them, unchanged but for the first, whose open
/// amount may be smaller than it was and is still above zero.
pub proof fn law_filled_makers_leave(
    side: Side,
    price: u64,
    taker: Principal,
    makers: Seq<Order>,
    ledger: Seq<UserBalance>,
    remaining: u64,
)
    requires
        forall|i: int| 0 <= i < makers.len() ==> (#[trigger] makers[i]).remaining_amount > 0,
        cross(side, price, taker, makers, ledger, remaining) is Ok,
    ensures
        stays_behind(cross(side, price, taker, makers, ledger, remaining)->Ok_0.makers, makers),
    decreases makers.len(),
{
    let stay = cross(side, price, taker, makers, ledger, remaining)->Ok_0.makers;
    if makers.len() == 0 || remaining == 0 || !crosses(side, price, makers[0].price) {
        assert(stay == makers);
    } else {
        let maker = makers[0];
        let tail = makers.drop_first();
        let amount = trade_amount(remaining, maker);
        assert(amount > 0);
        let paid = settle(ledger, side, taker, maker.owner, amount, (amount * maker.price) as u64)->Ok_0;
        let left = (remaining - amount) as u64;
        if amount == maker.remaining_amount {
            assert forall|i: int| 0 <= i < tail.len() implies (#[trigger] tail[i]).remaining_amount > 0 by {
                assert(tail[i] == makers[i + 1]);
            }
            law_filled_makers_leave(side, price, taker, tail, paid, left);
            assert(stay == cross(side, price, taker, tail, paid, left)->Ok_0.makers);
            let gone = tail.len() - stay.len();
            if stay.len() > 0 {
                assert(tail[gone] == makers[gone + 1]);
            }
            assert forall|i: int| 0 < i < stay.len() implies (#[trigger] stay[i]) == makers[gone + 1 + i] by {
                assert(tail[gone + i] == makers[gone + 1 + i]);
            }
        } else {
            let head = Order { remaining_amount: (maker.remaining_amount - amount) as u64, ..maker };
            assert(stay =~= seq![head] + tail);
            assert(stay[0] == head);
            assert forall|i: int| 0 < i < stay.len() implies (#[trigger] stay[i]) == makers[i] by {
                assert(stay[i] == tail[i - 1]);
            }
        }
    }
}

} // verus!
