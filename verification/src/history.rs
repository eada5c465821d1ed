//! Whole histories of calls on one book: what holds after any number of
//! calls, in any order, whether they go through or are refused.

use vstd::prelude::*;
use crate::conservation::{
    base_held, law_deposit_adds, law_match_holdings, law_order_conserves, law_withdrawal_takes, quote_held,
};
use crate::create_order::{lemma_placed, placed};
use crate::match_laws::lemma_matched_keeps_wf;
use crate::match_order::{matched, Reinsertion};
use crate::settlement::{deposited, lemma_settlement, withdrawn};
use crate::state::{BookState, Principal};

verus! {

/// One call on the book, with its arguments.
pub enum Call {
    Deposit { user: Principal, quote: u64, base: u64 },
    Withdraw { user: Principal, base: u64, quote: u64 },
    Place { user: Principal, side: u8, price: u64, amount: u64, now: i64 },
    Match { user: Principal, order_id: u64, policy: Reinsertion },
    SetDelegated { user: Principal, flag: bool },
}

/// The book after `call`; where the call is refused, the book as it was.
pub open spec fn step(st: BookState, call: Call) -> BookState {
    match call {
        Call::Deposit { user, quote, base } => match deposited(st, user, quote, base) {
            Ok(next) => next,
            Err(_) => st,
        },
        Call::Withdraw { user, base, quote } => match withdrawn(st, user, base, quote) {
            Ok(next) => next,
            Err(_) => st,
        },
        Call::Place { user, side, price, amount, now } => match placed(st, user, side, price, amount, now) {
            Ok(next) => next,
            Err(_) => st,
        },
        Call::Match { user, order_id, policy } => match matched(st, user, order_id, policy) {
            Ok(done) => done.0,
            Err(_) => st,
        },
        Call::SetDelegated { user, flag } => if st.authority == user {
            BookState { is_delegated: flag, ..st }
        } else {
            st
        },
    }
}

/// The book after the calls of `calls`, made one after the other on `st`.
pub open spec fn replay(st: BookState, calls: Seq<Call>) -> BookState
    decreases calls.len(),
{
    if calls.len() == 0 {
        st
    } else {
        step(replay(st, calls.drop_last()), calls.last())
    }
}

/// Whether `call`, made on `st`, places an order.
pub open spec fn places(st: BookState, call: Call) -> bool {
    match call {
        Call::Place { user, side, price, amount, now } => placed(st, user, side, price, amount, now) is Ok,
        _ => false,
    }
}

/// The base that `call` fills when made on `st`: nothing, unless it is a
/// match that goes through.
pub open spec fn filled_by(st: BookState, call: Call) -> int {
    match call {
        Call::Match { user, order_id, policy } => match matched(st, user, order_id, policy) {
            Ok(done) => done.1.filled_amount as int,
            Err(_) => 0,
        },
        _ => 0,
    }
}

/// The base that `call` brings into the book when made on `st`, below zero
/// where it takes base out: what a deposit or a withdrawal that goes through
/// moves.
pub open spec fn base_flow(st: BookState, call: Call) -> int {
    match call {
        Call::Deposit { user, quote, base } => if deposited(st, user, quote, base) is Ok {
            base as int
        } else {
            0
        },
        Call::Withdraw { user, base, quote } => if withdrawn(st, user, base, quote) is Ok {
            -(base as int)
        } else {
            0
        },
        _ => 0,
    }
}

/// The quote that `call` brings into the book when made on `st`, below zero
/// where it takes quote out.
pub open spec fn quote_flow(st: BookState, call: Call) -> int {
    match call {
        Call::Deposit { user, quote, base } => if deposited(st, user, quote, base) is Ok {
            quote as int
        } else {
            0
        },
        Call::Withdraw { user, base, quote } => if withdrawn(st, user, base, quote) is Ok {
            -(quote as int)
        } else {
            0
        },
        _ => 0,
    }
}

/// Deposits less withdrawals of base over the whole history.
pub open spec fn net_base(st: BookState, calls: Seq<Call>) -> int
    decreases calls.len(),
{
    if calls.len() == 0 {
        0
    } else {
        net_base(st, calls.drop_last()) + base_flow(replay(st, calls.drop_last()), calls.last())
    }
}

/// Deposits less withdrawals of quote over the whole history.
pub open spec fn net_quote(st: BookState, calls: Seq<Call>) -> int
    decreases calls.len(),
{
    if calls.len() == 0 {
        0
    } else {
        net_quote(st, calls.drop_last()) + quote_flow(replay(st, calls.drop_last()), calls.last())
    }
}

/// The base that the matches of the history fill.
pub open spec fn total_filled(st: BookState, calls: Seq<Call>) -> int
    decreases calls.len(),
{
    if calls.len() == 0 {
        0
    } else {
        total_filled(st, calls.drop_last()) + filled_by(replay(st, calls.drop_last()), calls.last())
    }
}

/// One call keeps the book's invariant and never moves the id counter down;
/// a call that places an order moves it up. No call changes the book's
/// authority, and only the authority's own call changes the delegation flag.
pub proof fn law_step(st: BookState, call: Call)
    requires
        st.wf(),
    ensures
        step(st, call).wf(),
        step(st, call).order_counter >= st.order_counter,
        places(st, call) ==> step(st, call).order_counter > st.order_counter,
        step(st, call).authority == st.authority,
        step(st, call).is_delegated != st.is_delegated ==> call is SetDelegated && call->SetDelegated_user
            == st.authority,
{
    match call {
        Call::Deposit { user, quote, base } => {
            lemma_settlement(st, user, base, quote);
        },
        Call::Withdraw { user, base, quote } => {
            lemma_settlement(st, user, base, quote);
        },
        Call::Place { user, side, price, amount, now } => {
            if placed(st, user, side, price, amount, now) is Ok {
                lemma_placed(st, user, side, price, amount, now);
            }
        },
        Call::Match { user, order_id, policy } => {
            if matched(st, user, order_id, policy) is Ok {
                lemma_matched_keeps_wf(st, user, order_id, policy);
            }
        },
        Call::SetDelegated { user, flag } => {},
    }
}

/// After any history of calls on a book that is in order, the book is in
/// order, and its id counter is no lower than it was.
pub proof fn law_history_keeps_invariant(st: BookState, calls: Seq<Call>)
    requires
        st.wf(),
    ensures
        replay(st, calls).wf(),
        replay(st, calls).order_counter >= st.order_counter,
    decreases calls.len(),
{
    if calls.len() > 0 {
        law_history_keeps_invariant(st, calls.drop_last());
        law_step(replay(st, calls.drop_last()), calls.last());
    }
}

/// The id counter after the first `i` calls of a history is no higher than
/// after its first `j`, for `i` up to `j`.
pub proof fn lemma_counter_grows(st: BookState, calls: Seq<Call>, i: int, j: int)
    requires
        st.wf(),
        0 <= i <= j <= calls.len(),
    ensures
        replay(st, calls.take(i)).order_counter <= replay(st, calls.take(j)).order_counter,
    decreases j - i,
{
    if i < j {
        lemma_counter_grows(st, calls, i, j - 1);
        assert(calls.take(j).drop_last() =~= calls.take(j - 1));
        law_history_keeps_invariant(st, calls.take(j - 1));
        law_step(replay(st, calls.take(j - 1)), calls[j - 1]);
    }
}

/// Order ids are given out in strictly increasing order and never twice. An
/// order gets the value that the counter has when it is placed; of two calls
/// of one history that each place an order, the later one finds the counter
/// higher.
pub proof fn law_order_ids_increase(st: BookState, calls: Seq<Call>, i: int, j: int)
    requires
        st.wf(),
        0 <= i < j < calls.len(),
        places(replay(st, calls.take(i)), calls[i]),
        places(replay(st, calls.take(j)), calls[j]),
    ensures
        replay(st, calls.take(i)).order_counter < replay(st, calls.take(j)).order_counter,
{
    law_history_keeps_invariant(st, calls.take(i));
    law_step(replay(st, calls.take(i)), calls[i]);
    assert(calls.take(i + 1).drop_last() =~= calls.take(i));
    lemma_counter_grows(st, calls, i + 1, j);
}

/// What one call does to what the book holds: base comes in with a deposit,
/// goes out with a withdrawal, and leaves with what a match fills; quote
/// comes in with a deposit and goes out with a withdrawal, as long as the
/// call fills nothing.
pub proof fn law_step_holdings(st: BookState, call: Call)
    requires
        st.wf(),
    ensures
        filled_by(st, call) >= 0,
        base_held(step(st, call)) + filled_by(st, call) == base_held(st) + base_flow(st, call),
        filled_by(st, call) == 0 ==> quote_held(step(st, call)) == quote_held(st) + quote_flow(st, call),
{
    match call {
        Call::Deposit { user, quote, base } => {
            if deposited(st, user, quote, base) is Ok {
                law_deposit_adds(st, user, quote, base);
            }
        },
        Call::Withdraw { user, base, quote } => {
            if withdrawn(st, user, base, quote) is Ok {
                law_withdrawal_takes(st, user, base, quote);
            }
        },
        Call::Place { user, side, price, amount, now } => {
            if placed(st, user, side, price, amount, now) is Ok {
                law_order_conserves(st, user, side, price, amount, now);
            }
        },
        Call::Match { user, order_id, policy } => {
            if matched(st, user, order_id, policy) is Ok {
                law_match_holdings(st, user, order_id, policy);
            }
        },
        Call::SetDelegated { user, flag } => {},
    }
}

/// Over any history of calls on a book that is in order, the base that the
/// book holds, in the ledger and reserved by open offers, is what it held
/// before, with the deposits, less the withdrawals, less what the matches
/// filled. Over a history whose matches fill nothing, each asset is
/// conserved: what the book holds is what it held, with the deposits, less
/// the withdrawals.
pub proof fn law_history_conserves(st: BookState, calls: Seq<Call>)
    requires
        st.wf(),
    ensures
        total_filled(st, calls) >= 0,
        base_held(replay(st, calls)) + total_filled(st, calls) == base_held(st) + net_base(st, calls),
        total_filled(st, calls) == 0 ==> base_held(replay(st, calls)) == base_held(st) + net_base(st, calls),
        total_filled(st, calls) == 0 ==> quote_held(replay(st, calls)) == quote_held(st) + net_quote(st, calls),
    decreases calls.len(),
{
    if calls.len() > 0 {
        law_history_conserves(st, calls.drop_last());
        law_history_keeps_invariant(st, calls.drop_last());
        law_step_holdings(replay(st, calls.drop_last()), calls.last());
    }
}

} // verus!
