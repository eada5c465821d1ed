//! Order admission: a new order is checked, its cost is reserved in the
//! ledger, and it is recorded on its side of the book.

use vstd::prelude::*;
use crate::error::ErrorCode;
use crate::ledger::{debit, debit_balance, lemma_debit};
use crate::state::{lacks_id, BookState, Order, Orderbook, Principal, Side, MAX_ORDERS};

verus! {

/// The side that a code names: 0 buys, 1 sells, nothing else is a side.
pub open spec fn side_of(code: u8) -> Option<Side> {
    if code == 0 {
        Some(Side::Buy)
    } else if code == 1 {
        Some(Side::Sell)
    } else {
        None
    }
}

/// What an order takes out of its owner's balance when it is admitted, base
/// first: a buy reserves its full cost in quote, a sell its amount in base.
pub open spec fn reservation(side: Side, price: u64, amount: u64) -> (int, int) {
    match side {
        Side::Buy => (0, price * amount),
        Side::Sell => (amount as int, 0),
    }
}

/// The order that an admission records.
pub open spec fn fresh_order(st: BookState, user: Principal, side: Side, price: u64, amount: u64, now: i64) -> Order {
    Order {
        id: st.order_counter,
        owner: user,
        side,
        price,
        original_amount: amount,
        remaining_amount: amount,
        created_at: now,
    }
}

/// The book after `user` places an order, or the reason why the order is
/// refused. The checks come in this order: amount, price, side, a spent id
/// counter, a full side, a reservation too large for 64 bits, the ledger.
pub open spec fn placed(st: BookState, user: Principal, side: u8, price: u64, amount: u64, now: i64) -> Result<
    BookState,
    ErrorCode,
> {
    if amount == 0 {
        Err(ErrorCode::InvalidOrderAmount)
    } else if price == 0 {
        Err(ErrorCode::InvalidOrderPrice)
    } else if side_of(side) is None {
        Err(ErrorCode::InvalidOrderSide)
    } else if st.order_counter == u64::MAX {
        Err(ErrorCode::CalculationFailure)
    } else {
        let s = side_of(side)->Some_0;
        let resting = if s == Side::Buy { st.buys } else { st.sells };
        let (base, quote) = reservation(s, price, amount);
        if resting.len() >= MAX_ORDERS {
            Err(ErrorCode::OrderbookFull)
        } else if quote > u64::MAX {
            Err(ErrorCode::CalculationFailure)
        } else {
            match debit(st.balances, user, base as u64, quote as u64) {
                Err(e) => Err(e),
                Ok(ledger) => {
                    let order = fresh_order(st, user, s, price, amount, now);
                    let next = (st.order_counter + 1) as u64;
                    if s == Side::Buy {
                        Ok(BookState { buys: st.buys.push(order), balances: ledger, order_counter: next, ..st })
                    } else {
                        Ok(BookState { sells: st.sells.push(order), balances: ledger, order_counter: next, ..st })
                    }
                },
            }
        }
    }
}

/// A placed order keeps the book's invariant. It is the last of its side,
/// its id is the counter's old value, which is above every id in the book,
/// and the counter moves up by one.
pub proof fn lemma_placed(st: BookState, user: Principal, side: u8, price: u64, amount: u64, now: i64)
    requires
        st.wf(),
        placed(st, user, side, price, amount, now) is Ok,
    ensures
        placed(st, user, side, price, amount, now)->Ok_0.wf(),
        placed(st, user, side, price, amount, now)->Ok_0.order_counter == st.order_counter + 1,
        forall|i: int| 0 <= i < st.buys.len() ==> (#[trigger] st.buys[i]).id < st.order_counter,
        forall|i: int| 0 <= i < st.sells.len() ==> (#[trigger] st.sells[i]).id < st.order_counter,
        side_of(side) == Some(Side::Buy) ==> {
            &&& placed(st, user, side, price, amount, now)->Ok_0.sells == st.sells
            &&& placed(st, user, side, price, amount, now)->Ok_0.buys == st.buys.push(
                fresh_order(st, user, Side::Buy, price, amount, now),
            )
        },
        side_of(side) == Some(Side::Sell) ==> {
            &&& placed(st, user, side, price, amount, now)->Ok_0.buys == st.buys
            &&& placed(st, user, side, price, amount, now)->Ok_0.sells == st.sells.push(
                fresh_order(st, user, Side::Sell, price, amount, now),
            )
        },
{
    let s = side_of(side)->Some_0;
    let (base, quote) = reservation(s, price, amount);
    lemma_debit(st.balances, user, base as u64, quote as u64, user);
    let after = placed(st, user, side, price, amount, now)->Ok_0;
    assert forall|j: int| 0 <= j < after.sells.len() implies lacks_id(after.buys, (#[trigger] after.sells[j]).id) by {
        if j < st.sells.len() {
            assert(lacks_id(st.buys, st.sells[j].id));
        }
    }
}

/// Places an order of `user` at time `now`: reserves its cost in the ledger,
/// gives it the next id and appends it to its side. It is not crossed against
/// the other side. On an error the book is as it was.
pub fn handle_create_order(book: &mut Orderbook, user: &Principal, side: u8, price: u64, amount: u64, now: i64) -> (r: Result<(), ErrorCode>)
    ensures
        match placed(old(book)@, *user, side, price, amount, now) {
            Ok(st) => r is Ok && final(book)@ == st,
            Err(e) => r == Err::<(), ErrorCode>(e) && final(book)@ == old(book)@,
        },
        old(book)@.wf() ==> final(book)@.wf(),
{
    proof {
        if old(book)@.wf() && placed(old(book)@, *user, side, price, amount, now) is Ok {
            lemma_placed(old(book)@, *user, side, price, amount, now);
        }
    }
    if amount == 0 {
        return Err(ErrorCode::InvalidOrderAmount);
    }
    if price == 0 {
        return Err(ErrorCode::InvalidOrderPrice);
    }
    let side_enum = match side {
        0 => Side::Buy,
        1 => Side::Sell,
        _ => {
            return Err(ErrorCode::InvalidOrderSide);
        },
    };
    if book.order_counter == u64::MAX {
        return Err(ErrorCode::CalculationFailure);
    }
    let new_order = Order {
        id: book.order_counter,
        owner: *user,
        side: side_enum,
        price,
        original_amount: amount,
        remaining_amount: amount,
        created_at: now,
    };
    match side_enum {
        Side::Buy => {
            if book.buys.len() >= MAX_ORDERS {
                return Err(ErrorCode::OrderbookFull);
            }
            let quote_amount: u64 = match price.checked_mul(amount) {
                Some(q) => q,
                None => {
                    return Err(ErrorCode::CalculationFailure);
                },
            };
            match debit_balance(&mut book.user_balances, user, 0, quote_amount) {
                Err(e) => {
                    return Err(e);
                },
                Ok(()) => {},
            }
            let _ = book.next_order_id();
            book.buys.push(new_order);
        },
        Side::Sell => {
            if book.sells.len() >= MAX_ORDERS {
                return Err(ErrorCode::OrderbookFull);
            }
            match debit_balance(&mut book.user_balances, user, amount, 0) {
                Err(e) => {
                    return Err(e);
                },
                Ok(()) => {},
            }
            let _ = book.next_order_id();
            book.sells.push(new_order);
        },
    }
    Ok(())
}

} // verus!
