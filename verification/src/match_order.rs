//! The matching engine: one order of the book, the taker, is crossed against
//! the resting orders of the other side, best price first.

use vstd::prelude::*;
use crate::error::ErrorCode;
use crate::ledger::{credit, credit_balance, debit, debit_balance};
use crate::match_laws::{lemma_cross_remaining, lemma_matched_keeps_wf};
use crate::sorting::{by_price, sort_by_price};
use crate::state::{BookState, Order, Orderbook, Principal, Side, UserBalance, MAX_ORDERS};

verus! {

/// What one call of the matching engine did to the order it was called for.
#[derive(Clone, Copy, Debug, PartialEq, Eq, Structural)]
pub struct MatchingResult {
    pub filled_amount: u64,
    pub remaining_amount: u64,
}

/// Where what is left of a matched order goes on its side.
#[derive(Clone, Copy, Debug, PartialEq, Eq, Structural)]
pub enum Reinsertion {
    /// To the end of its side, behind every order that rests there.
    AtEnd,
    /// To the place that the order had before the match.
    InPlace,
}

/// Where a walk over the resting orders ends: the resting orders that stay,
/// the ledger, and what is left of the taker.
pub struct Fill {
    pub makers: Seq<Order>,
    pub ledger: Seq<UserBalance>,
    pub remaining: u64,
}

/// Whether a taker of `side` at `price` trades with an order resting at
/// `resting`.
pub open spec fn crosses(side: Side, price: u64, resting: u64) -> bool {
    match side {
        Side::Buy => price >= resting,
        Side::Sell => price <= resting,
    }
}

/// What a taker with `remaining` to fill trades with `maker`: the smaller of
/// the two open amounts.
pub open spec fn trade_amount(remaining: u64, maker: Order) -> u64 {
    if remaining < maker.remaining_amount {
        remaining
    } else {
        maker.remaining_amount
    }
}

/// The index of the first order with `id` in `s`, or `s.len()` if there is none.
pub open spec fn order_slot(s: Seq<Order>, id: u64) -> int
    decreases s.len(),
{
    if s.len() == 0 {
        0
    } else if s[0].id == id {
        0
    } else {
        1 + order_slot(s.drop_first(), id)
    }
}

/// One principal's half of a trade: credited with what it gets, then debited
/// by what it gives.
pub open spec fn exchange(
    ledger: Seq<UserBalance>,
    who: Principal,
    gets_base: u64,
    gets_quote: u64,
    gives_base: u64,
    gives_quote: u64,
) -> Result<Seq<UserBalance>, ErrorCode> {
    match credit(ledger, who, gets_base, gets_quote) {
        Err(e) => Err(e),
        Ok(credited) => debit(credited, who, gives_base, gives_quote),
    }
}

/// The ledger after `amount` of base changes hands for `quote` of quote
/// between a taker of `side` and a maker: the buyer gets the base and gives
/// the quote, the seller the reverse. The taker's half is booked first.
pub open spec fn settle(
    ledger: Seq<UserBalance>,
    side: Side,
    taker: Principal,
    maker: Principal,
    amount: u64,
    quote: u64,
) -> Result<Seq<UserBalance>, ErrorCode> {
    let (base_in, quote_in): (u64, u64) = if side == Side::Buy {
        (amount, 0)
    } else {
        (0, quote)
    };
    let (base_out, quote_out): (u64, u64) = if side == Side::Buy {
        (0, quote)
    } else {
        (amount, 0)
    };
    match exchange(ledger, taker, base_in, quote_in, base_out, quote_out) {
        Err(e) => Err(e),
        Ok(half) => exchange(half, maker, base_out, quote_out, base_in, quote_in),
    }
}

/// `r` with `prefix` put back in front of the resting orders.
pub open spec fn keep(prefix: Seq<Order>, r: Result<Fill, ErrorCode>) -> Result<Fill, ErrorCode> {
    match r {
        Err(e) => Err(e),
        Ok(fill) => Ok(Fill { makers: prefix + fill.makers, ..fill }),
    }
}

/// The walk of a taker over the resting orders `makers`, front first, with
/// `remaining` still to fill. It ends at the first maker that the taker's
/// price does not reach, or when nothing remains. Each trade is for the
/// smaller of the two open amounts, at the maker's price. A maker filled in
/// full leaves; one filled in part stays with what is left of it.
pub open spec fn cross(
    side: Side,
    price: u64,
    taker: Principal,
    makers: Seq<Order>,
    ledger: Seq<UserBalance>,
    remaining: u64,
) -> Result<Fill, ErrorCode>
    decreases makers.len(),
{
    if makers.len() == 0 || remaining == 0 || !crosses(side, price, makers[0].price) {
        Ok(Fill { makers, ledger, remaining })
    } else {
        let maker = makers[0];
        let amount = trade_amount(remaining, maker);
        if amount == 0 {
            keep(seq![maker], cross(side, price, taker, makers.drop_first(), ledger, remaining))
        } else if amount * maker.price > u64::MAX {
            Err(ErrorCode::CalculationFailure)
        } else {
            match settle(ledger, side, taker, maker.owner, amount, (amount * maker.price) as u64) {
                Err(e) => Err(e),
                Ok(paid) => {
                    let rest = cross(side, price, taker, makers.drop_first(), paid, (remaining - amount) as u64);
                    if amount == maker.remaining_amount {
                        rest
                    } else {
                        keep(
                            seq![Order { remaining_amount: (maker.remaining_amount - amount) as u64, ..maker }],
                            rest,
                        )
                    }
                },
            }
        }
    }
}

/// The side `own` with the remainder `left` of an order put back, which was
/// taken out at `index`.
pub open spec fn put_back(own: Seq<Order>, left: Order, index: int, policy: Reinsertion) -> Seq<Order> {
    match policy {
        Reinsertion::AtEnd => own.push(left),
        Reinsertion::InPlace => own.insert(
            if index <= own.len() {
                index
            } else {
                own.len() as int
            },
            left,
        ),
    }
}

/// The match of the order at `index` of the side `found`, which is taken out
/// of the book for the walk. It walks the side across from the one that the
/// order names as its own, and goes back to the side where it was found, to
/// the place that `policy` gives it, if anything of it remains.
pub open spec fn run(st: BookState, taker: Principal, found: Side, index: int, policy: Reinsertion) -> Result<
    (BookState, MatchingResult),
    ErrorCode,
> {
    let order = if found == Side::Buy {
        st.buys[index]
    } else {
        st.sells[index]
    };
    let buys = if found == Side::Buy {
        st.buys.remove(index)
    } else {
        st.buys
    };
    let sells = if found == Side::Sell {
        st.sells.remove(index)
    } else {
        st.sells
    };
    let across = if order.side == Side::Buy {
        sells
    } else {
        buys
    };
    match cross(order.side, order.price, taker, by_price(across, order.side), st.balances, order.remaining_amount) {
        Err(e) => Err(e),
        Ok(fill) => {
            let buys = if order.side == Side::Sell {
                fill.makers
            } else {
                buys
            };
            let sells = if order.side == Side::Buy {
                fill.makers
            } else {
                sells
            };
            let own = if found == Side::Buy {
                buys
            } else {
                sells
            };
            let result = MatchingResult {
                filled_amount: (order.remaining_amount - fill.remaining) as u64,
                remaining_amount: fill.remaining,
            };
            let left = Order { remaining_amount: fill.remaining, ..order };
            if fill.remaining == 0 {
                Ok((BookState { buys, sells, balances: fill.ledger, ..st }, result))
            } else if own.len() >= MAX_ORDERS {
                Err(ErrorCode::OrderbookFull)
            } else if found == Side::Buy {
                Ok(
                    (
                        BookState { buys: put_back(buys, left, index, policy), sells, balances: fill.ledger, ..st },
                        result,
                    ),
                )
            } else {
                Ok(
                    (
                        BookState { buys, sells: put_back(sells, left, index, policy), balances: fill.ledger, ..st },
                        result,
                    ),
                )
            }
        },
    }
}

/// The book after `user` has the order `order_id` matched, with what was
/// filled, or the reason why the match is refused. The bids are searched
/// first, then the offers.
pub open spec fn matched(st: BookState, user: Principal, order_id: u64, policy: Reinsertion) -> Result<
    (BookState, MatchingResult),
    ErrorCode,
> {
    let b = order_slot(st.buys, order_id);
    let s = order_slot(st.sells, order_id);
    if b < st.buys.len() {
        if st.buys[b].owner != user {
            Err(ErrorCode::NotOrderOwner)
        } else {
            run(st, user, Side::Buy, b, policy)
        }
    } else if s < st.sells.len() {
        if st.sells[s].owner != user {
            Err(ErrorCode::NotOrderOwner)
        } else {
            run(st, user, Side::Sell, s, policy)
        }
    } else {
        Err(ErrorCode::OrderNotFound)
    }
}

/// `order_slot` is in range, names an order with `id` when it names one at
/// all, and no order before it has `id`.
pub proof fn lemma_order_slot(s: Seq<Order>, id: u64)
    ensures
        0 <= order_slot(s, id) <= s.len(),
        order_slot(s, id) < s.len() ==> s[order_slot(s, id)].id == id,
        forall|j: int| 0 <= j < order_slot(s, id) ==> (#[trigger] s[j]).id != id,
    decreases s.len(),
{
    if s.len() > 0 && s[0].id != id {
        let t = s.drop_first();
        lemma_order_slot(t, id);
        assert forall|j: int| 0 <= j < order_slot(s, id) implies (#[trigger] s[j]).id != id by {
            if j > 0 {
                assert(s[j] == t[j - 1]);
            }
        }
    }
}

/// An index before which no order has `id`, and which is the end or holds
/// an order with `id`, is `order_slot`.
pub proof fn lemma_order_slot_is(s: Seq<Order>, id: u64, i: int)
    requires
        0 <= i <= s.len(),
        i < s.len() ==> s[i].id == id,
        forall|j: int| 0 <= j < i ==> (#[trigger] s[j]).id != id,
    ensures
        order_slot(s, id) == i,
{
    lemma_order_slot(s, id);
    let k = order_slot(s, id);
    if k < i {
        assert(s[k].id == id);
    } else if i < k {
        assert(s[i].id == id);
    }
}

/// Putting back one order and then a prefix is putting back the prefix with
/// the order behind it.
proof fn lemma_keep_twice(prefix: Seq<Order>, o: Order, r: Result<Fill, ErrorCode>)
    ensures
        keep(prefix, keep(seq![o], r)) == keep(prefix.push(o), r),
{
    if let Ok(fill) = r {
        assert(prefix + (seq![o] + fill.makers) =~= prefix.push(o) + fill.makers);
    }
}

/// The index of the first order with `id` in `orders`, or its length.
pub fn find_order(orders: &Vec<Order>, id: u64) -> (i: usize)
    ensures
        i == order_slot(orders@, id),
{
    let mut i: usize = 0;
    while i < orders.len()
        invariant
            i <= orders.len(),
            forall|j: int| 0 <= j < i ==> (#[trigger] orders@[j]).id != id,
        decreases orders.len() - i,
    {
        if orders[i].id == id {
            proof {
                lemma_order_slot_is(orders@, id, i as int);
            }
            return i;
        }
        i += 1;
    }
    proof {
        lemma_order_slot_is(orders@, id, i as int);
    }
    i
}

/// Whether a taker of `side` at `price` trades with an order resting at
/// `resting`.
pub fn price_crosses(side: Side, price: u64, resting: u64) -> (r: bool)
    ensures
        r == crosses(side, price, resting),
{
    match side {
        Side::Buy => price >= resting,
        Side::Sell => price <= resting,
    }
}

/// Books one trade in the ledger; see [`settle`]. After an error the ledger
/// may hold a part of the trade: the caller works on a copy.
fn settle_trade(
    ledger: &mut Vec<UserBalance>,
    side: Side,
    taker: &Principal,
    maker: &Principal,
    amount: u64,
    quote: u64,
) -> (r: Result<(), ErrorCode>)
    ensures
        match settle(old(ledger)@, side, *taker, *maker, amount, quote) {
            Ok(s) => r is Ok && final(ledger)@ == s,
            Err(e) => r == Err::<(), ErrorCode>(e),
        },
{
    let (base_in, quote_in): (u64, u64) = match side {
        Side::Buy => (amount, 0),
        Side::Sell => (0, quote),
    };
    let (base_out, quote_out): (u64, u64) = match side {
        Side::Buy => (0, quote),
        Side::Sell => (amount, 0),
    };
    if let Err(e) = credit_balance(ledger, taker, base_in, quote_in) {
        return Err(e);
    }
    if let Err(e) = debit_balance(ledger, taker, base_out, quote_out) {
        return Err(e);
    }
    if let Err(e) = credit_balance(ledger, maker, base_out, quote_out) {
        return Err(e);
    }
    debit_balance(ledger, maker, base_in, quote_in)
}

/// Walks the taker over `makers`; see [`cross`]. Returns what remains of the
/// taker. After an error `makers` and `ledger` may hold a part of the walk:
/// the caller works on copies.
fn cross_orders(
    side: Side,
    price: u64,
    taker: &Principal,
    makers: &mut Vec<Order>,
    ledger: &mut Vec<UserBalance>,
    amount: u64,
) -> (r: Result<u64, ErrorCode>)
    ensures
        match cross(side, price, *taker, old(makers)@, old(ledger)@, amount) {
            Ok(fill) => {
                &&& r == Ok::<u64, ErrorCode>(fill.remaining)
                &&& final(makers)@ == fill.makers
                &&& final(ledger)@ == fill.ledger
            },
            Err(e) => r == Err::<u64, ErrorCode>(e),
        },
{
    let mut remaining: u64 = amount;
    let mut i: usize = 0;
    proof {
        assert(makers@.skip(0) =~= makers@);
        assert(makers@.take(0) + makers@ =~= makers@);
    }
    loop
        invariant_except_break
            i <= makers.len(),
            cross(side, price, *taker, old(makers)@, old(ledger)@, amount) == keep(
                makers@.take(i as int),
                cross(side, price, *taker, makers@.skip(i as int), ledger@, remaining),
            ),
        ensures
            cross(side, price, *taker, old(makers)@, old(ledger)@, amount) == Ok::<Fill, ErrorCode>(
                Fill { makers: makers@, ledger: ledger@, remaining },
            ),
        decreases makers.len() - i,
    {
        let ghost before = makers@;
        proof {
            assert(before.take(i as int) + before.skip(i as int) =~= before);
        }
        if i >= makers.len() || remaining == 0 {
            break;
        }
        let maker = makers[i];
        proof {
            assert(before.skip(i as int)[0] == maker);
            assert(before.skip(i as int).drop_first() =~= before.skip(i + 1));
        }
        if !price_crosses(side, price, maker.price) {
            break;
        }
        let matched: u64 = if remaining < maker.remaining_amount {
            remaining
        } else {
            maker.remaining_amount
        };
        if matched > 0 {
            let quote: u64 = match matched.checked_mul(maker.price) {
                Some(q) => q,
                None => {
                    return Err(ErrorCode::CalculationFailure);
                },
            };
            if let Err(e) = settle_trade(ledger, side, taker, &maker.owner, matched, quote) {
                return Err(e);
            }
            remaining = remaining - matched;
            if maker.remaining_amount == matched {
                let _ = makers.remove(i);
                proof {
                    assert(makers@.take(i as int) =~= before.take(i as int));
                    assert(makers@.skip(i as int) =~= before.skip(i + 1));
                }
            } else {
                let left = Order { remaining_amount: maker.remaining_amount - matched, ..maker };
                makers[i] = left;
                proof {
                    assert(makers@.take(i + 1) =~= before.take(i as int).push(left));
                    assert(makers@.skip(i + 1) =~= before.skip(i + 1));
                    lemma_keep_twice(
                        before.take(i as int),
                        left,
                        cross(side, price, *taker, before.skip(i + 1), ledger@, remaining),
                    );
                }
                i += 1;
            }
        } else {
            proof {
                assert(makers@.take(i + 1) =~= before.take(i as int).push(maker));
                lemma_keep_twice(
                    before.take(i as int),
                    maker,
                    cross(side, price, *taker, before.skip(i + 1), ledger@, remaining),
                );
            }
            i += 1;
        }
    }
    Ok(remaining)
}

/// A vector with the items of `v`.
fn copy_of<T: Copy>(v: &Vec<T>) -> (out: Vec<T>)
    ensures
        out@ == v@,
{
    let mut out: Vec<T> = Vec::new();
    let mut i: usize = 0;
    while i < v.len()
        invariant
            i <= v.len(),
            out@ == v@.take(i as int),
        decreases v.len() - i,
    {
        out.push(v[i]);
        proof {
            assert(v@.take(i + 1) =~= v@.take(i as int).push(v@[i as int]));
        }
        i += 1;
    }
    proof {
        assert(v@.take(v.len() as int) =~= v@);
    }
    out
}

/// Puts the remainder `left` of an order back on its side; see [`put_back`].
fn put_order_back(own: &mut Vec<Order>, left: Order, index: usize, policy: Reinsertion)
    ensures
        final(own)@ == put_back(old(own)@, left, index as int, policy),
{
    match policy {
        Reinsertion::AtEnd => {
            own.push(left);
        },
        Reinsertion::InPlace => {
            let at: usize = if index <= own.len() {
                index
            } else {
                own.len()
            };
            own.insert(at, left);
        },
    }
}

/// Matches the order `order_id` of `user` against the other side of the book,
/// best price first and, among equal prices, in the order in which the
/// resting orders stand. What is left of the order goes back to the end of
/// its side. On an error the book is as it was.
pub fn handle_match_order(book: &mut Orderbook, user: &Principal, order_id: u64) -> (r: Result<
    MatchingResult,
    ErrorCode,
>)
    ensures
        match matched(old(book)@, *user, order_id, Reinsertion::AtEnd) {
            Ok((st, result)) => r == Ok::<MatchingResult, ErrorCode>(result) && final(book)@ == st,
            Err(e) => r == Err::<MatchingResult, ErrorCode>(e) && final(book)@ == old(book)@,
        },
        old(book)@.wf() ==> final(book)@.wf(),
{
    handle_match_order_with(book, user, order_id, Reinsertion::AtEnd)
}

/// Matches the order `order_id` of `user` as [`handle_match_order`] does, and
/// puts what is left of it where `policy` says. On an error the book is as it
/// was.
pub fn handle_match_order_with(book: &mut Orderbook, user: &Principal, order_id: u64, policy: Reinsertion) -> (r:
    Result<MatchingResult, ErrorCode>)
    ensures
        match matched(old(book)@, *user, order_id, policy) {
            Ok((st, result)) => r == Ok::<MatchingResult, ErrorCode>(result) && final(book)@ == st,
            Err(e) => r == Err::<MatchingResult, ErrorCode>(e) && final(book)@ == old(book)@,
        },
        old(book)@.wf() ==> final(book)@.wf(),
{
    proof {
        if old(book)@.wf() && matched(old(book)@, *user, order_id, policy) is Ok {
            lemma_matched_keeps_wf(old(book)@, *user, order_id, policy);
        }
    }
    let b: usize = find_order(&book.buys, order_id);
    let s: usize = find_order(&book.sells, order_id);
    let mut buys = copy_of(&book.buys);
    let mut sells = copy_of(&book.sells);
    let found: Side;
    let index: usize;
    let order: Order;
    if b < book.buys.len() {
        found = Side::Buy;
        index = b;
        order = buys.remove(b);
    } else if s < book.sells.len() {
        found = Side::Sell;
        index = s;
        order = sells.remove(s);
    } else {
        return Err(ErrorCode::OrderNotFound);
    }
    if !(order.owner == *user) {
        return Err(ErrorCode::NotOrderOwner);
    }
    let mut ledger = copy_of(&book.user_balances);
    let mut makers = match order.side {
        Side::Buy => sort_by_price(&sells, Side::Buy),
        Side::Sell => sort_by_price(&buys, Side::Sell),
    };
    let remaining: u64 = match cross_orders(order.side, order.price, user, &mut makers, &mut ledger, order.remaining_amount) {
        Ok(left) => left,
        Err(e) => {
            return Err(e);
        },
    };
    proof {
        lemma_cross_remaining(
            order.side,
            order.price,
            *user,
            by_price(if order.side == Side::Buy { sells@ } else { buys@ }, order.side),
            book.user_balances@,
            order.remaining_amount,
        );
    }
    match order.side {
        Side::Buy => {
            sells = makers;
        },
        Side::Sell => {
            buys = makers;
        },
    }
    if remaining > 0 {
        let left = Order { remaining_amount: remaining, ..order };
        match found {
            Side::Buy => {
                if buys.len() >= MAX_ORDERS {
                    return Err(ErrorCode::OrderbookFull);
                }
                put_order_back(&mut buys, left, index, policy);
            },
            Side::Sell => {
                if sells.len() >= MAX_ORDERS {
                    return Err(ErrorCode::OrderbookFull);
                }
                put_order_back(&mut sells, left, index, policy);
            },
        }
    }
    book.buys = buys;
    book.sells = sells;
    book.user_balances = ledger;
    Ok(MatchingResult { filled_amount: order.remaining_amount - remaining, remaining_amount: remaining })
}

} // verus!
