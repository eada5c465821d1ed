//! What the book holds of each asset: the ledger's balances together with
//! what the open orders keep reserved, and how each operation moves it.

use vstd::prelude::*;
use crate::create_order::{fresh_order, placed, reservation, side_of};
use crate::ledger::{credit, debit, lemma_slot, slot};
use crate::match_laws::lemma_cross_remaining;
use crate::match_order::{
    cross, crosses, lemma_order_slot, matched, order_slot, put_back, settle, trade_amount, Reinsertion,
};
use crate::settlement::{deposited, withdrawn};
use crate::sorting::{by_price, landing, lemma_landing_range};
use crate::state::{order_ok, BookState, Order, Principal, Side, UserBalance};

verus! {

/// The sum of the numbers of `s`.
pub open spec fn total(s: Seq<int>) -> int
    decreases s.len(),
{
    if s.len() == 0 {
        0
    } else {
        total(s.drop_last()) + s.last()
    }
}

/// The base amounts of the ledger's entries, in their order.
pub open spec fn base_amounts(l: Seq<UserBalance>) -> Seq<int> {
    l.map_values(|e: UserBalance| e.base_amount as int)
}

/// The quote amounts of the ledger's entries, in their order.
pub open spec fn quote_amounts(l: Seq<UserBalance>) -> Seq<int> {
    l.map_values(|e: UserBalance| e.quote_amount as int)
}

/// The open amounts of the orders, in their order.
pub open spec fn open_amounts(s: Seq<Order>) -> Seq<int> {
    s.map_values(|o: Order| o.remaining_amount as int)
}

/// Price times open amount of each order, in their order.
pub open spec fn open_values(s: Seq<Order>) -> Seq<int> {
    s.map_values(|o: Order| o.price * o.remaining_amount)
}

/// The base that the ledger holds, over all principals.
pub open spec fn ledger_base(l: Seq<UserBalance>) -> int {
    total(base_amounts(l))
}

/// The quote that the ledger holds, over all principals.
pub open spec fn ledger_quote(l: Seq<UserBalance>) -> int {
    total(quote_amounts(l))
}

/// The base that the offers `sells` keep reserved: their open amounts.
pub open spec fn reserved_base(sells: Seq<Order>) -> int {
    total(open_amounts(sells))
}

/// The quote that the bids `buys` keep reserved: price times open amount.
pub open spec fn reserved_quote(buys: Seq<Order>) -> int {
    total(open_values(buys))
}

/// The base in the book: in the ledger and reserved by offers.
pub open spec fn base_held(st: BookState) -> int {
    ledger_base(st.balances) + reserved_base(st.sells)
}

/// The quote in the book: in the ledger and reserved by bids.
pub open spec fn quote_held(st: BookState) -> int {
    ledger_quote(st.balances) + reserved_quote(st.buys)
}

/// One more number adds itself to the sum.
pub proof fn lemma_total_push(s: Seq<int>, x: int)
    ensures
        total(s.push(x)) == total(s) + x,
{
    assert(s.push(x).drop_last() =~= s);
}

/// A number put in anywhere adds itself to the sum.
pub proof fn lemma_total_insert(s: Seq<int>, k: int, x: int)
    requires
        0 <= k <= s.len(),
    ensures
        total(s.insert(k, x)) == total(s) + x,
    decreases s.len(),
{
    if k == s.len() {
        assert(s.insert(k, x) =~= s.push(x));
        lemma_total_push(s, x);
    } else {
        assert(s.insert(k, x).drop_last() =~= s.drop_last().insert(k, x));
        assert(s.insert(k, x).last() == s.last());
        lemma_total_insert(s.drop_last(), k, x);
    }
}

/// A number taken out takes itself off the sum.
pub proof fn lemma_total_remove(s: Seq<int>, k: int)
    requires
        0 <= k < s.len(),
    ensures
        total(s.remove(k)) == total(s) - s[k],
    decreases s.len(),
{
    if k == s.len() - 1 {
        assert(s.remove(k) =~= s.drop_last());
    } else {
        assert(s.remove(k).drop_last() =~= s.drop_last().remove(k));
        assert(s.remove(k).last() == s.last());
        lemma_total_remove(s.drop_last(), k);
    }
}

/// A number replaced changes the sum by the difference.
pub proof fn lemma_total_update(s: Seq<int>, k: int, x: int)
    requires
        0 <= k < s.len(),
    ensures
        total(s.update(k, x)) == total(s) - s[k] + x,
    decreases s.len(),
{
    if k == s.len() - 1 {
        assert(s.update(k, x).drop_last() =~= s.drop_last());
    } else {
        assert(s.update(k, x).drop_last() =~= s.drop_last().update(k, x));
        lemma_total_update(s.drop_last(), k, x);
    }
}

/// A credit adds what it credits to the ledger's totals.
pub proof fn lemma_credit_totals(l: Seq<UserBalance>, owner: Principal, base: u64, quote: u64)
    requires
        credit(l, owner, base, quote) is Ok,
    ensures
        ledger_base(credit(l, owner, base, quote)->Ok_0) == ledger_base(l) + base,
        ledger_quote(credit(l, owner, base, quote)->Ok_0) == ledger_quote(l) + quote,
{
    let after = credit(l, owner, base, quote)->Ok_0;
    let i = slot(l, owner);
    lemma_slot(l, owner);
    if i < l.len() {
        assert(base_amounts(after) =~= base_amounts(l).update(i, l[i].base_amount + base));
        assert(quote_amounts(after) =~= quote_amounts(l).update(i, l[i].quote_amount + quote));
        lemma_total_update(base_amounts(l), i, l[i].base_amount + base);
        lemma_total_update(quote_amounts(l), i, l[i].quote_amount + quote);
    } else if base == 0 && quote == 0 {
    } else {
        assert(base_amounts(after) =~= base_amounts(l).push(base as int));
        assert(quote_amounts(after) =~= quote_amounts(l).push(quote as int));
        lemma_total_push(base_amounts(l), base as int);
        lemma_total_push(quote_amounts(l), quote as int);
    }
}

/// A debit takes what it debits off the ledger's totals.
pub proof fn lemma_debit_totals(l: Seq<UserBalance>, owner: Principal, base: u64, quote: u64)
    requires
        debit(l, owner, base, quote) is Ok,
    ensures
        ledger_base(debit(l, owner, base, quote)->Ok_0) == ledger_base(l) - base,
        ledger_quote(debit(l, owner, base, quote)->Ok_0) == ledger_quote(l) - quote,
{
    let after = debit(l, owner, base, quote)->Ok_0;
    let i = slot(l, owner);
    lemma_slot(l, owner);
    if i >= l.len() {
    } else if l[i].base_amount == base && l[i].quote_amount == quote {
        assert(base_amounts(after) =~= base_amounts(l).remove(i));
        assert(quote_amounts(after) =~= quote_amounts(l).remove(i));
        lemma_total_remove(base_amounts(l), i);
        lemma_total_remove(quote_amounts(l), i);
    } else {
        assert(base_amounts(after) =~= base_amounts(l).update(i, l[i].base_amount - base));
        assert(quote_amounts(after) =~= quote_amounts(l).update(i, l[i].quote_amount - quote));
        lemma_total_update(base_amounts(l), i, l[i].base_amount - base);
        lemma_total_update(quote_amounts(l), i, l[i].quote_amount - quote);
    }
}

/// A trade moves balances between two principals: the ledger's totals stay.
pub proof fn lemma_settle_totals(
    ledger: Seq<UserBalance>,
    side: Side,
    taker: Principal,
    maker: Principal,
    amount: u64,
    quote: u64,
)
    requires
        settle(ledger, side, taker, maker, amount, quote) is Ok,
    ensures
        ledger_base(settle(ledger, side, taker, maker, amount, quote)->Ok_0) == ledger_base(ledger),
        ledger_quote(settle(ledger, side, taker, maker, amount, quote)->Ok_0) == ledger_quote(ledger),
{
    let (base_in, quote_in): (u64, u64) = if side == Side::Buy {
        (amount, 0)
    } else {
        (0, quote)
    };
    let (base_out, quote_out): (u64, u64) = if side == Side::Buy {
        (0, quote)
    } else {
        (amount, 0)
    };
    let a = credit(ledger, taker, base_in, quote_in)->Ok_0;
    lemma_credit_totals(ledger, taker, base_in, quote_in);
    let b = debit(a, taker, base_out, quote_out)->Ok_0;
    lemma_debit_totals(a, taker, base_out, quote_out);
    let c = credit(b, maker, base_out, quote_out)->Ok_0;
    lemma_credit_totals(b, maker, base_out, quote_out);
    lemma_debit_totals(c, maker, base_in, quote_in);
}

/// Sorting changes neither the open amounts' sum nor the open values' sum.
pub proof fn lemma_by_price_totals(s: Seq<Order>, side: Side)
    ensures
        reserved_base(by_price(s, side)) == reserved_base(s),
        reserved_quote(by_price(s, side)) == reserved_quote(s),
    decreases s.len(),
{
    if s.len() > 0 {
        let init = s.drop_last();
        let front = by_price(init, side);
        let o = s.last();
        let k = landing(front, o, side);
        lemma_by_price_totals(init, side);
        lemma_landing_range(front, o, side);
        assert(open_amounts(front.insert(k, o)) =~= open_amounts(front).insert(k, o.remaining_amount as int));
        assert(open_values(front.insert(k, o)) =~= open_values(front).insert(k, o.price * o.remaining_amount));
        lemma_total_insert(open_amounts(front), k, o.remaining_amount as int);
        lemma_total_insert(open_values(front), k, o.price * o.remaining_amount);
        assert(open_amounts(s).drop_last() =~= open_amounts(init));
        assert(open_values(s).drop_last() =~= open_values(init));
    } else {
        assert(by_price(s, side) =~= s);
    }
}

/// A walk leaves the ledger's totals, and takes off the resting orders' open
/// amounts exactly what it fills of the taker.
pub proof fn lemma_cross_totals(
    side: Side,
    price: u64,
    taker: Principal,
    makers: Seq<Order>,
    ledger: Seq<UserBalance>,
    remaining: u64,
)
    requires
        cross(side, price, taker, makers, ledger, remaining) is Ok,
    ensures
        ledger_base(cross(side, price, taker, makers, ledger, remaining)->Ok_0.ledger) == ledger_base(ledger),
        ledger_quote(cross(side, price, taker, makers, ledger, remaining)->Ok_0.ledger) == ledger_quote(ledger),
        reserved_base(cross(side, price, taker, makers, ledger, remaining)->Ok_0.makers) + remaining
            == reserved_base(makers) + cross(side, price, taker, makers, ledger, remaining)->Ok_0.remaining,
    decreases makers.len(),
{
    if makers.len() == 0 || remaining == 0 || !crosses(side, price, makers[0].price) {
    } else {
        let maker = makers[0];
        let tail = makers.drop_first();
        let amount = trade_amount(remaining, maker);
        assert(makers =~= tail.insert(0, maker));
        assert(open_amounts(tail.insert(0, maker)) =~= open_amounts(tail).insert(0, maker.remaining_amount as int));
        lemma_total_insert(open_amounts(tail), 0, maker.remaining_amount as int);
        if amount == 0 {
            lemma_cross_totals(side, price, taker, tail, ledger, remaining);
            let rest = cross(side, price, taker, tail, ledger, remaining)->Ok_0.makers;
            assert(seq![maker] + rest =~= rest.insert(0, maker));
            assert(open_amounts(rest.insert(0, maker)) =~= open_amounts(rest).insert(0, maker.remaining_amount as int));
            lemma_total_insert(open_amounts(rest), 0, maker.remaining_amount as int);
        } else {
            let paid = settle(ledger, side, taker, maker.owner, amount, (amount * maker.price) as u64)->Ok_0;
            let left = (remaining - amount) as u64;
            lemma_settle_totals(ledger, side, taker, maker.owner, amount, (amount * maker.price) as u64);
            lemma_cross_totals(side, price, taker, tail, paid, left);
            if amount != maker.remaining_amount {
                let rest = cross(side, price, taker, tail, paid, left)->Ok_0.makers;
                let head = Order { remaining_amount: (maker.remaining_amount - amount) as u64, ..maker };
                assert(seq![head] + rest =~= rest.insert(0, head));
                assert(open_amounts(rest.insert(0, head)) =~= open_amounts(rest).insert(
                    0,
                    head.remaining_amount as int,
                ));
                lemma_total_insert(open_amounts(rest), 0, head.remaining_amount as int);
            }
        }
    }
}

/// A walk that fills nothing changes nothing.
pub proof fn lemma_cross_without_fill(
    side: Side,
    price: u64,
    taker: Principal,
    makers: Seq<Order>,
    ledger: Seq<UserBalance>,
    remaining: u64,
)
    requires
        cross(side, price, taker, makers, ledger, remaining) is Ok,
        cross(side, price, taker, makers, ledger, remaining)->Ok_0.remaining == remaining,
    ensures
        cross(side, price, taker, makers, ledger, remaining)->Ok_0.makers == makers,
        cross(side, price, taker, makers, ledger, remaining)->Ok_0.ledger == ledger,
    decreases makers.len(),
{
    if makers.len() == 0 || remaining == 0 || !crosses(side, price, makers[0].price) {
    } else {
        let maker = makers[0];
        let tail = makers.drop_first();
        let amount = trade_amount(remaining, maker);
        if amount == 0 {
            lemma_cross_without_fill(side, price, taker, tail, ledger, remaining);
            assert(seq![maker] + tail =~= makers);
        } else {
            let paid = settle(ledger, side, taker, maker.owner, amount, (amount * maker.price) as u64)->Ok_0;
            lemma_cross_remaining(side, price, taker, tail, paid, (remaining - amount) as u64);
        }
    }
}

/// A deposit adds exactly what is deposited to what the book holds.
pub proof fn law_deposit_adds(st: BookState, user: Principal, quote: u64, base: u64)
    requires
        deposited(st, user, quote, base) is Ok,
    ensures
        base_held(deposited(st, user, quote, base)->Ok_0) == base_held(st) + base,
        quote_held(deposited(st, user, quote, base)->Ok_0) == quote_held(st) + quote,
{
    lemma_credit_totals(st.balances, user, base, quote);
}

/// A withdrawal takes exactly what is withdrawn off what the book holds.
pub proof fn law_withdrawal_takes(st: BookState, user: Principal, base: u64, quote: u64)
    requires
        withdrawn(st, user, base, quote) is Ok,
    ensures
        base_held(withdrawn(st, user, base, quote)->Ok_0) == base_held(st) - base,
        quote_held(withdrawn(st, user, base, quote)->Ok_0) == quote_held(st) - quote,
{
    lemma_debit_totals(st.balances, user, base, quote);
}

/// Placing an order moves its reservation from the ledger into the order:
/// what the book holds of each asset stays.
pub proof fn law_order_conserves(st: BookState, user: Principal, side: u8, price: u64, amount: u64, now: i64)
    requires
        placed(st, user, side, price, amount, now) is Ok,
    ensures
        base_held(placed(st, user, side, price, amount, now)->Ok_0) == base_held(st),
        quote_held(placed(st, user, side, price, amount, now)->Ok_0) == quote_held(st),
{
    let s = side_of(side)->Some_0;
    let (base, quote) = reservation(s, price, amount);
    let after = placed(st, user, side, price, amount, now)->Ok_0;
    lemma_debit_totals(st.balances, user, base as u64, quote as u64);
    let order = fresh_order(st, user, s, price, amount, now);
    if s == Side::Buy {
        assert(open_values(st.buys.push(order)) =~= open_values(st.buys).push(price * amount));
        lemma_total_push(open_values(st.buys), price * amount);
    } else {
        assert(open_amounts(st.sells.push(order)) =~= open_amounts(st.sells).push(amount as int));
        lemma_total_push(open_amounts(st.sells), amount as int);
    }
}

/// A match moves balances between principals: the ledger's total of each
/// asset stays.
pub proof fn law_match_keeps_ledger_totals(st: BookState, user: Principal, order_id: u64, policy: Reinsertion)
    requires
        matched(st, user, order_id, policy) is Ok,
    ensures
        ledger_base(matched(st, user, order_id, policy)->Ok_0.0.balances) == ledger_base(st.balances),
        ledger_quote(matched(st, user, order_id, policy)->Ok_0.0.balances) == ledger_quote(st.balances),
{
    let b = order_slot(st.buys, order_id);
    let s = order_slot(st.sells, order_id);
    let found = if b < st.buys.len() {
        Side::Buy
    } else {
        Side::Sell
    };
    let index = if found == Side::Buy {
        b
    } else {
        s
    };
    let order = if found == Side::Buy {
        st.buys[index]
    } else {
        st.sells[index]
    };
    let buys = if found == Side::Buy {
        st.buys.remove(index)
    } else {
        st.buys
    };
    let sells = if found == Side::Sell {
        st.sells.remove(index)
    } else {
        st.sells
    };
    let across = if order.side == Side::Buy {
        sells
    } else {
        buys
    };
    lemma_cross_totals(
        order.side,
        order.price,
        user,
        by_price(across, order.side),
        st.balances,
        order.remaining_amount,
    );
}

/// In a book that is in order, a match takes what it fills out of the base
/// that the book holds, and a match that fills nothing leaves what the book
/// holds of each asset.
pub proof fn law_match_holdings(st: BookState, user: Principal, order_id: u64, policy: Reinsertion)
    requires
        st.wf(),
        matched(st, user, order_id, policy) is Ok,
    ensures
        base_held(matched(st, user, order_id, policy)->Ok_0.0) + matched(st, user, order_id, policy)->Ok_0.1.filled_amount
            == base_held(st),
        matched(st, user, order_id, policy)->Ok_0.1.filled_amount == 0 ==> quote_held(matched(st, user, order_id, policy)->Ok_0.0)
            == quote_held(st),
{
    let b = order_slot(st.buys, order_id);
    let s = order_slot(st.sells, order_id);
    lemma_order_slot(st.buys, order_id);
    lemma_order_slot(st.sells, order_id);
    let found = if b < st.buys.len() {
        Side::Buy
    } else {
        Side::Sell
    };
    let index = if found == Side::Buy {
        b
    } else {
        s
    };
    let own = if found == Side::Buy {
        st.buys
    } else {
        st.sells
    };
    let other = if found == Side::Buy {
        st.sells
    } else {
        st.buys
    };
    let order = own[index];
    assert(order_ok(order, found, st.order_counter));
    let rest = own.remove(index);
    let makers = by_price(other, found);
    let after = matched(st, user, order_id, policy)->Ok_0.0;
    let result = matched(st, user, order_id, policy)->Ok_0.1;
    let fill = cross(found, order.price, user, makers, st.balances, order.remaining_amount)->Ok_0;
    let left = Order { remaining_amount: fill.remaining, ..order };
    let back = if fill.remaining == 0 {
        rest
    } else {
        put_back(rest, left, index, policy)
    };
    if found == Side::Buy {
        assert(after.buys == back && after.sells == fill.makers);
    } else {
        assert(after.sells == back && after.buys == fill.makers);
    }
    lemma_cross_totals(found, order.price, user, makers, st.balances, order.remaining_amount);
    lemma_cross_remaining(found, order.price, user, makers, st.balances, order.remaining_amount);
    lemma_by_price_totals(other, found);
    // the side that the order came from
    assert(open_amounts(rest) =~= open_amounts(own).remove(index));
    assert(open_values(rest) =~= open_values(own).remove(index));
    lemma_total_remove(open_amounts(own), index);
    lemma_total_remove(open_values(own), index);
    if fill.remaining > 0 {
        match policy {
            Reinsertion::AtEnd => {
                assert(open_amounts(rest.push(left)) =~= open_amounts(rest).push(fill.remaining as int));
                assert(open_values(rest.push(left)) =~= open_values(rest).push(order.price * fill.remaining));
                lemma_total_push(open_amounts(rest), fill.remaining as int);
                lemma_total_push(open_values(rest), order.price * fill.remaining);
            },
            Reinsertion::InPlace => {
                assert(open_amounts(rest.insert(index, left)) =~= open_amounts(rest).insert(
                    index,
                    fill.remaining as int,
                ));
                assert(open_values(rest.insert(index, left)) =~= open_values(rest).insert(
                    index,
                    order.price * fill.remaining,
                ));
                lemma_total_insert(open_amounts(rest), index, fill.remaining as int);
                lemma_total_insert(open_values(rest), index, order.price * fill.remaining);
            },
        }
    }
    if result.filled_amount == 0 {
        lemma_cross_without_fill(found, order.price, user, makers, st.balances, order.remaining_amount);
    }
}

} // verus!
