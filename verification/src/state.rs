//! The book's data, its mathematical view and its invariant.

use vstd::prelude::*;
use crate::error::ErrorCode;
use crate::ledger::{
    balance_of, credit, credit_balance, debit, debit_balance, lemma_credit, lemma_debit, query_balance,
};

verus! {

/// The most orders that one side of the book holds.
pub const MAX_ORDERS: usize = 100;

/// The most principals that the ledger holds a balance for.
pub const MAX_USERS: usize = 20;

/// A 256-bit identifier of a user, an asset or a vault, split in two halves.
/// Nothing is read from it but whether two of them are equal.
#[derive(Clone, Copy, Debug, PartialEq, Eq, Structural)]
pub struct Principal {
    pub hi: u128,
    pub lo: u128,
}

#[derive(Clone, Copy, Debug, PartialEq, Eq, Structural)]
pub enum Side {
    Buy,
    Sell,
}

/// An open order. `remaining_amount` is what has not been filled yet.
#[derive(Clone, Copy, Debug, PartialEq, Eq, Structural)]
pub struct Order {
    pub id: u64,
    pub owner: Principal,
    pub side: Side,
    pub price: u64,
    pub original_amount: u64,
    pub remaining_amount: u64,
    pub created_at: i64,
}

/// What the ledger holds for one principal.
#[derive(Clone, Copy, Debug, PartialEq, Eq, Structural)]
pub struct UserBalance {
    pub owner: Principal,
    pub base_amount: u64,
    pub quote_amount: u64,
}

/// The book of one asset pair: its two sides, its ledger and its counters.
#[derive(Debug)]
pub struct Orderbook {
    pub base_asset: Principal,
    pub quote_asset: Principal,
    pub base_vault: Principal,
    pub quote_vault: Principal,
    pub base_decimals: u8,
    pub quote_decimals: u8,
    pub buys: Vec<Order>,
    pub sells: Vec<Order>,
    pub authority: Principal,
    pub order_counter: u64,
    pub user_balances: Vec<UserBalance>,
    pub bump: u8,
    pub is_delegated: bool,
}

/// The book as a mathematical value: what [`Orderbook`] holds, with sequences
/// in place of vectors.
pub struct BookState {
    pub base_asset: Principal,
    pub quote_asset: Principal,
    pub base_vault: Principal,
    pub quote_vault: Principal,
    pub base_decimals: u8,
    pub quote_decimals: u8,
    pub buys: Seq<Order>,
    pub sells: Seq<Order>,
    pub authority: Principal,
    pub order_counter: u64,
    pub balances: Seq<UserBalance>,
    pub bump: u8,
    pub is_delegated: bool,
}

/// What holds of every order that rests on `side` of a book whose counter is
/// at `counter`.
pub open spec fn order_ok(o: Order, side: Side, counter: u64) -> bool {
    &&& o.side == side
    &&& o.id < counter
    &&& 0 < o.remaining_amount <= o.original_amount
    &&& o.price > 0
}

/// No order of `s` has the id `id`.
pub open spec fn lacks_id(s: Seq<Order>, id: u64) -> bool {
    forall|i: int| 0 <= i < s.len() ==> (#[trigger] s[i]).id != id
}

/// Every order of `s` is in order for `side`, and no two share an id.
pub open spec fn side_ok(s: Seq<Order>, side: Side, counter: u64) -> bool {
    &&& forall|i: int| 0 <= i < s.len() ==> order_ok(#[trigger] s[i], side, counter)
    &&& forall|i: int, j: int| 0 <= i < j < s.len() ==> (#[trigger] s[i]).id != (#[trigger] s[j]).id
}

/// The ledger has room for its entries, holds no empty entry and at most one
/// entry for a principal.
pub open spec fn ledger_ok(l: Seq<UserBalance>) -> bool {
    &&& l.len() <= MAX_USERS
    &&& forall|i: int| 0 <= i < l.len() ==> (#[trigger] l[i]).base_amount > 0 || l[i].quote_amount > 0
    &&& forall|i: int, j: int| 0 <= i < j < l.len() ==> (#[trigger] l[i]).owner != (#[trigger] l[j]).owner
}

impl BookState {
    /// The invariant of the book: both sides within their bound, every order
    /// on its side with a positive open amount and an id that the counter
    /// has passed, no id twice in the whole book, and the ledger in order.
    pub open spec fn wf(self) -> bool {
        &&& self.buys.len() <= MAX_ORDERS
        &&& self.sells.len() <= MAX_ORDERS
        &&& side_ok(self.buys, Side::Buy, self.order_counter)
        &&& side_ok(self.sells, Side::Sell, self.order_counter)
        &&& forall|j: int| 0 <= j < self.sells.len() ==> lacks_id(self.buys, (#[trigger] self.sells[j]).id)
        &&& ledger_ok(self.balances)
    }
}

impl View for Orderbook {
    type V = BookState;

    open spec fn view(&self) -> BookState {
        BookState {
            base_asset: self.base_asset,
            quote_asset: self.quote_asset,
            base_vault: self.base_vault,
            quote_vault: self.quote_vault,
            base_decimals: self.base_decimals,
            quote_decimals: self.quote_decimals,
            buys: self.buys@,
            sells: self.sells@,
            authority: self.authority,
            order_counter: self.order_counter,
            balances: self.user_balances@,
            bump: self.bump,
            is_delegated: self.is_delegated,
        }
    }
}

/// A book with no orders and no balances, whose authority is `authority`.
pub fn init_orderbook(
    base_asset: Principal,
    quote_asset: Principal,
    base_vault: Principal,
    quote_vault: Principal,
    base_decimals: u8,
    quote_decimals: u8,
    authority: Principal,
    bump: u8,
) -> (book: Orderbook)
    ensures
        book@ == (BookState {
            base_asset,
            quote_asset,
            base_vault,
            quote_vault,
            base_decimals,
            quote_decimals,
            buys: Seq::<Order>::empty(),
            sells: Seq::<Order>::empty(),
            authority,
            order_counter: 0,
            balances: Seq::<UserBalance>::empty(),
            bump,
            is_delegated: false,
        }),
        book@.wf(),
{
    Orderbook {
        base_asset,
        quote_asset,
        base_vault,
        quote_vault,
        base_decimals,
        quote_decimals,
        buys: Vec::with_capacity(MAX_ORDERS),
        sells: Vec::with_capacity(MAX_ORDERS),
        authority,
        order_counter: 0,
        bump,
        user_balances: Vec::with_capacity(MAX_USERS),
        is_delegated: false,
    }
}

impl Orderbook {
    /// Hands out the next order id and moves the counter past it.
    pub fn next_order_id(&mut self) -> (id: u64)
        requires
            old(self).order_counter < u64::MAX,
        ensures
            id == old(self).order_counter,
            final(self)@ == (BookState { order_counter: (id + 1) as u64, ..old(self)@ }),
            old(self)@.wf() ==> final(self)@.wf(),
    {
        let id: u64 = self.order_counter;
        self.order_counter = id + 1;
        id
    }

    /// Credits `owner` in the ledger; see [`credit`]. Nothing else changes, and
    /// on an error nothing changes at all.
    pub fn add_balance(&mut self, owner: &Principal, base_amount: u64, quote_amount: u64) -> (r: Result<(), ErrorCode>)
        ensures
            match credit(old(self)@.balances, *owner, base_amount, quote_amount) {
                Ok(s) => r is Ok && final(self)@ == (BookState { balances: s, ..old(self)@ }),
                Err(e) => r == Err::<(), ErrorCode>(e) && final(self)@ == old(self)@,
            },
            old(self)@.wf() ==> final(self)@.wf(),
    {
        proof {
            if credit(self@.balances, *owner, base_amount, quote_amount) is Ok {
                lemma_credit(self@.balances, *owner, base_amount, quote_amount, *owner);
            }
        }
        credit_balance(&mut self.user_balances, owner, base_amount, quote_amount)
    }

    /// What the ledger holds for `owner`, base first; zero of each where it
    /// holds nothing.
    pub fn get_balance(&self, owner: &Principal) -> (r: (u64, u64))
        ensures
            r == balance_of(self@.balances, *owner),
    {
        query_balance(&self.user_balances, owner)
    }

    /// Debits `owner` in the ledger; see [`debit`]. Nothing else changes, and
    /// on an error nothing changes at all.
    pub fn subtract_balance(&mut self, owner: &Principal, base_amount: u64, quote_amount: u64) -> (r: Result<(), ErrorCode>)
        ensures
            match debit(old(self)@.balances, *owner, base_amount, quote_amount) {
                Ok(s) => r is Ok && final(self)@ == (BookState { balances: s, ..old(self)@ }),
                Err(e) => r == Err::<(), ErrorCode>(e) && final(self)@ == old(self)@,
            },
            old(self)@.wf() ==> final(self)@.wf(),
    {
        proof {
            if debit(self@.balances, *owner, base_amount, quote_amount) is Ok {
                lemma_debit(self@.balances, *owner, base_amount, quote_amount, *owner);
            }
        }
        debit_balance(&mut self.user_balances, owner, base_amount, quote_amount)
    }
}

} // verus!
