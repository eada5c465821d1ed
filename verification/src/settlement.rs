//! Deposits and withdrawals: the ledger's side of moving value between a
//! user's own accounts and the book's vaults. The vaults themselves are moved
//! by the caller, in the same unit of work: [`custody_legs`] says what they
//! have to move.

use vstd::prelude::*;
use crate::error::ErrorCode;
use crate::ledger::{
    balance_of, credit, credit_balance, debit, debit_balance, lemma_credit, lemma_debit, lemma_slot, query_balance,
    slot,
};
use crate::state::{BookState, Orderbook, Principal};

verus! {

/// What the vaults have to move for one settlement: nothing for a leg of zero.
#[derive(Clone, Copy, Debug, PartialEq, Eq, Structural)]
pub struct Transfers {
    pub base: Option<u64>,
    pub quote: Option<u64>,
}

/// The transfers that go with a deposit or a withdrawal of `base_amount` and
/// `quote_amount`: one for each amount above zero, of that amount.
pub open spec fn transfers_for(base_amount: u64, quote_amount: u64) -> Transfers {
    Transfers {
        base: if base_amount > 0 {
            Some(base_amount)
        } else {
            None
        },
        quote: if quote_amount > 0 {
            Some(quote_amount)
        } else {
            None
        },
    }
}

/// The transfers that the vaults have to make for a deposit or a withdrawal
/// of `base_amount` and `quote_amount`.
pub fn custody_legs(base_amount: u64, quote_amount: u64) -> (legs: Transfers)
    ensures
        legs == transfers_for(base_amount, quote_amount),
{
    Transfers {
        base: if base_amount > 0 {
            Some(base_amount)
        } else {
            None
        },
        quote: if quote_amount > 0 {
            Some(quote_amount)
        } else {
            None
        },
    }
}

/// The book after `user` deposits, or the reason why the deposit is refused.
/// A leg of zero credits nothing and opens no entry.
pub open spec fn deposited(st: BookState, user: Principal, quote: u64, base: u64) -> Result<BookState, ErrorCode> {
    match credit(st.balances, user, base, quote) {
        Err(e) => Err(e),
        Ok(ledger) => Ok(BookState { balances: ledger, ..st }),
    }
}

/// The book after `user` withdraws, or the reason why the withdrawal is
/// refused: the ledger must hold at least what is asked, of each asset.
pub open spec fn withdrawn(st: BookState, user: Principal, base: u64, quote: u64) -> Result<BookState, ErrorCode> {
    let held = balance_of(st.balances, user);
    if held.0 < base || held.1 < quote {
        Err(ErrorCode::InsufficientBalance)
    } else {
        match debit(st.balances, user, base, quote) {
            Err(e) => Err(e),
            Ok(ledger) => Ok(BookState { balances: ledger, ..st }),
        }
    }
}

/// A deposit and a withdrawal keep the book's invariant, and one of nothing
/// is the book itself.
pub proof fn lemma_settlement(st: BookState, user: Principal, base: u64, quote: u64)
    ensures
        st.wf() && deposited(st, user, quote, base) is Ok ==> deposited(st, user, quote, base)->Ok_0.wf(),
        st.wf() && withdrawn(st, user, base, quote) is Ok ==> withdrawn(st, user, base, quote)->Ok_0.wf(),
        base == 0 && quote == 0 ==> deposited(st, user, quote, base) == Ok::<BookState, ErrorCode>(st),
        base == 0 && quote == 0 && st.wf() ==> withdrawn(st, user, base, quote) == Ok::<BookState, ErrorCode>(st),
{
    lemma_slot(st.balances, user);
    let i = slot(st.balances, user);
    if deposited(st, user, quote, base) is Ok {
        lemma_credit(st.balances, user, base, quote, user);
    }
    if withdrawn(st, user, base, quote) is Ok {
        lemma_debit(st.balances, user, base, quote, user);
    }
    if base == 0 && quote == 0 && i < st.balances.len() {
        assert(st.balances.update(i, st.balances[i]) =~= st.balances);
    }
}

/// Records in the ledger that `user` has moved `quote_amount` and
/// `base_amount` into the vaults. On an error the book is as it was.
pub fn handle_deposit_balance(book: &mut Orderbook, user: &Principal, quote_amount: u64, base_amount: u64) -> (r: Result<(), ErrorCode>)
    ensures
        match deposited(old(book)@, *user, quote_amount, base_amount) {
            Ok(st) => r is Ok && final(book)@ == st,
            Err(e) => r == Err::<(), ErrorCode>(e) && final(book)@ == old(book)@,
        },
        quote_amount == 0 && base_amount == 0 ==> r is Ok && final(book)@ == old(book)@,
        old(book)@.wf() ==> final(book)@.wf(),
{
    proof {
        lemma_settlement(old(book)@, *user, base_amount, quote_amount);
    }
    credit_balance(&mut book.user_balances, user, base_amount, quote_amount)
}

/// Takes `base_amount` and `quote_amount` of `user` out of the ledger, for the
/// vaults to pay out. Succeeds exactly when the ledger holds that much of
/// each; on an error the book is as it was.
pub fn handle_withdraw_funds(book: &mut Orderbook, user: &Principal, base_amount: u64, quote_amount: u64) -> (r: Result<(), ErrorCode>)
    ensures
        match withdrawn(old(book)@, *user, base_amount, quote_amount) {
            Ok(st) => r is Ok && final(book)@ == st,
            Err(e) => r == Err::<(), ErrorCode>(e) && final(book)@ == old(book)@,
        },
        r is Ok <==> balance_of(old(book)@.balances, *user).0 >= base_amount && balance_of(
            old(book)@.balances,
            *user,
        ).1 >= quote_amount,
        r is Err ==> r == Err::<(), ErrorCode>(ErrorCode::InsufficientBalance),
        base_amount == 0 && quote_amount == 0 && old(book)@.wf() ==> final(book)@ == old(book)@,
        old(book)@.wf() ==> final(book)@.wf(),
{
    proof {
        lemma_settlement(old(book)@, *user, base_amount, quote_amount);
    }
    let (held_base, held_quote) = query_balance(&book.user_balances, user);
    if held_base < base_amount || held_quote < quote_amount {
        return Err(ErrorCode::InsufficientBalance);
    }
    debit_balance(&mut book.user_balances, user, base_amount, quote_amount)
}

} // verus!
