//! The balance ledger: what each principal holds of the base and the quote
//! asset, as a bounded list with one entry for a principal.

use vstd::prelude::*;
use crate::error::ErrorCode;
use crate::state::{ledger_ok, Principal, UserBalance, MAX_USERS};

verus! {

/// The index of the first entry of `owner` in `s`, or `s.len()` if there is none.
pub open spec fn slot(s: Seq<UserBalance>, owner: Principal) -> int
    decreases s.len(),
{
    if s.len() == 0 {
        0
    } else if s[0].owner == owner {
        0
    } else {
        1 + slot(s.drop_first(), owner)
    }
}

/// What the ledger holds for `owner`, base first: zero of each without an entry.
pub open spec fn balance_of(s: Seq<UserBalance>, owner: Principal) -> (u64, u64) {
    let i = slot(s, owner);
    if i < s.len() {
        (s[i].base_amount, s[i].quote_amount)
    } else {
        (0, 0)
    }
}

/// The ledger after `owner` is credited, or the reason why it cannot be.
pub open spec fn credit(s: Seq<UserBalance>, owner: Principal, base: u64, quote: u64) -> Result<
    Seq<UserBalance>,
    ErrorCode,
> {
    let i = slot(s, owner);
    if i < s.len() {
        if s[i].base_amount + base > u64::MAX || s[i].quote_amount + quote > u64::MAX {
            Err(ErrorCode::CalculationFailure)
        } else {
            Ok(
                s.update(
                    i,
                    UserBalance {
                        owner: s[i].owner,
                        base_amount: (s[i].base_amount + base) as u64,
                        quote_amount: (s[i].quote_amount + quote) as u64,
                    },
                ),
            )
        }
    } else if base == 0 && quote == 0 {
        Ok(s)
    } else if s.len() >= MAX_USERS {
        Err(ErrorCode::TooManyUsers)
    } else {
        Ok(s.push(UserBalance { owner, base_amount: base, quote_amount: quote }))
    }
}

/// The ledger after `owner` is debited, or the reason why it cannot be. An
/// entry that the debit empties leaves the ledger.
pub open spec fn debit(s: Seq<UserBalance>, owner: Principal, base: u64, quote: u64) -> Result<
    Seq<UserBalance>,
    ErrorCode,
> {
    let i = slot(s, owner);
    if i >= s.len() {
        if base == 0 && quote == 0 {
            Ok(s)
        } else {
            Err(ErrorCode::UserNotFound)
        }
    } else if s[i].base_amount < base || s[i].quote_amount < quote {
        Err(ErrorCode::InsufficientBalance)
    } else if s[i].base_amount == base && s[i].quote_amount == quote {
        Ok(s.remove(i))
    } else {
        Ok(
            s.update(
                i,
                UserBalance {
                    owner: s[i].owner,
                    base_amount: (s[i].base_amount - base) as u64,
                    quote_amount: (s[i].quote_amount - quote) as u64,
                },
            ),
        )
    }
}

/// `slot` is in range, names an entry of `owner` when it names one at all, and
/// no entry before it is of `owner`.
pub proof fn lemma_slot(s: Seq<UserBalance>, owner: Principal)
    ensures
        0 <= slot(s, owner) <= s.len(),
        slot(s, owner) < s.len() ==> s[slot(s, owner)].owner == owner,
        forall|j: int| 0 <= j < slot(s, owner) ==> (#[trigger] s[j]).owner != owner,
    decreases s.len(),
{
    if s.len() > 0 && s[0].owner != owner {
        let t = s.drop_first();
        lemma_slot(t, owner);
        assert forall|j: int| 0 <= j < slot(s, owner) implies (#[trigger] s[j]).owner != owner by {
            if j > 0 {
                assert(s[j] == t[j - 1]);
            }
        }
    }
}

/// An index before which no entry is of `owner`, and which is the end or holds
/// an entry of `owner`, is `slot`.
pub proof fn lemma_slot_is(s: Seq<UserBalance>, owner: Principal, i: int)
    requires
        0 <= i <= s.len(),
        i < s.len() ==> s[i].owner == owner,
        forall|j: int| 0 <= j < i ==> (#[trigger] s[j]).owner != owner,
    ensures
        slot(s, owner) == i,
{
    lemma_slot(s, owner);
    let k = slot(s, owner);
    if k < i {
        assert(s[k].owner == owner);
    } else if i < k {
        assert(s[i].owner == owner);
    }
}

/// A credit keeps the ledger in order, adds to what `owner` holds and leaves
/// what everyone else holds.
pub proof fn lemma_credit(s: Seq<UserBalance>, owner: Principal, base: u64, quote: u64, other: Principal)
    requires
        credit(s, owner, base, quote) is Ok,
    ensures
        ledger_ok(s) ==> ledger_ok(credit(s, owner, base, quote)->Ok_0),
        balance_of(credit(s, owner, base, quote)->Ok_0, owner).0 == balance_of(s, owner).0 + base,
        balance_of(credit(s, owner, base, quote)->Ok_0, owner).1 == balance_of(s, owner).1 + quote,
        other != owner ==> balance_of(credit(s, owner, base, quote)->Ok_0, other) == balance_of(s, other),
{
    let after = credit(s, owner, base, quote)->Ok_0;
    lemma_slot(s, owner);
    lemma_slot(s, other);
    let i = slot(s, owner);
    let k = slot(s, other);
    if i < s.len() {
        lemma_slot_is(after, owner, i);
        lemma_slot_is(after, other, k);
    } else if base == 0 && quote == 0 {
    } else {
        lemma_slot_is(after, owner, i);
        if other != owner {
            lemma_slot_is(after, other, if k < s.len() { k } else { k + 1 });
        }
    }
}

/// A debit keeps the ledger in order and never takes more than is held; in a
/// ledger that is in order it takes from `owner` exactly what was asked, and
/// leaves what everyone else holds.
pub proof fn lemma_debit(s: Seq<UserBalance>, owner: Principal, base: u64, quote: u64, other: Principal)
    requires
        debit(s, owner, base, quote) is Ok,
    ensures
        base <= balance_of(s, owner).0,
        quote <= balance_of(s, owner).1,
        ledger_ok(s) ==> ledger_ok(debit(s, owner, base, quote)->Ok_0),
        ledger_ok(s) ==> balance_of(debit(s, owner, base, quote)->Ok_0, owner).0 == balance_of(s, owner).0 - base,
        ledger_ok(s) ==> balance_of(debit(s, owner, base, quote)->Ok_0, owner).1 == balance_of(s, owner).1 - quote,
        ledger_ok(s) && other != owner ==> balance_of(debit(s, owner, base, quote)->Ok_0, other) == balance_of(
            s,
            other,
        ),
{
    let after = debit(s, owner, base, quote)->Ok_0;
    lemma_slot(s, owner);
    lemma_slot(s, other);
    let i = slot(s, owner);
    let k = slot(s, other);
    if i >= s.len() {
    } else if s[i].base_amount == base && s[i].quote_amount == quote {
        if ledger_ok(s) {
            assert forall|j: int| 0 <= j < after.len() implies (#[trigger] after[j]).owner != owner by {
                if j < i {
                    assert(after[j] == s[j]);
                } else {
                    assert(after[j] == s[j + 1]);
                }
            }
            lemma_slot_is(after, owner, after.len() as int);
            if other != owner {
                lemma_slot_is(after, other, if k < i { k } else { k - 1 });
            }
        }
    } else {
        lemma_slot_is(after, owner, i);
        lemma_slot_is(after, other, k);
    }
}

/// A debit never takes a balance below zero. It goes through only where the
/// principal holds at least what is asked of each asset. Where the principal
/// has an entry that holds less of either, the debit is refused for
/// insufficient balance; where it has no entry and something is asked, the
/// debit is refused because the user is not found.
pub proof fn law_debit_never_overdraws(s: Seq<UserBalance>, owner: Principal, base: u64, quote: u64)
    ensures
        debit(s, owner, base, quote) is Ok <==> base <= balance_of(s, owner).0 && quote <= balance_of(s, owner).1,
        debit(s, owner, base, quote) == Err::<Seq<UserBalance>, ErrorCode>(ErrorCode::InsufficientBalance) <==> slot(
            s,
            owner,
        ) < s.len() && (base > balance_of(s, owner).0 || quote > balance_of(s, owner).1),
        debit(s, owner, base, quote) == Err::<Seq<UserBalance>, ErrorCode>(ErrorCode::UserNotFound) <==> slot(
            s,
            owner,
        ) >= s.len() && (base > 0 || quote > 0),
{
    lemma_slot(s, owner);
}

/// The index of the first entry of `owner` in `balances`, or its length.
pub fn find_slot(balances: &Vec<UserBalance>, owner: &Principal) -> (i: usize)
    ensures
        i == slot(balances@, *owner),
{
    let mut i: usize = 0;
    while i < balances.len()
        invariant
            i <= balances.len(),
            forall|j: int| 0 <= j < i ==> (#[trigger] balances@[j]).owner != *owner,
        decreases balances.len() - i,
    {
        if balances[i].owner == *owner {
            proof {
                lemma_slot_is(balances@, *owner, i as int);
            }
            return i;
        }
        i += 1;
    }
    proof {
        lemma_slot_is(balances@, *owner, i as int);
    }
    i
}

/// Credits `owner`, opening an entry where there is none and an amount is
/// positive. On an error the ledger is as it was.
pub fn credit_balance(balances: &mut Vec<UserBalance>, owner: &Principal, base_amount: u64, quote_amount: u64) -> (r: Result<(), ErrorCode>)
    ensures
        match credit(old(balances)@, *owner, base_amount, quote_amount) {
            Ok(s) => r is Ok && final(balances)@ == s,
            Err(e) => r == Err::<(), ErrorCode>(e) && final(balances)@ == old(balances)@,
        },
{
    let i: usize = find_slot(balances, owner);
    if i < balances.len() {
        let entry = balances[i];
        if base_amount > u64::MAX - entry.base_amount || quote_amount > u64::MAX - entry.quote_amount {
            return Err(ErrorCode::CalculationFailure);
        }
        balances[i] = UserBalance {
            owner: entry.owner,
            base_amount: entry.base_amount + base_amount,
            quote_amount: entry.quote_amount + quote_amount,
        };
        Ok(())
    } else if base_amount == 0 && quote_amount == 0 {
        Ok(())
    } else if balances.len() >= MAX_USERS {
        Err(ErrorCode::TooManyUsers)
    } else {
        balances.push(UserBalance { owner: *owner, base_amount, quote_amount });
        Ok(())
    }
}

/// Debits `owner`, and removes the entry that the debit empties. On an error
/// the ledger is as it was.
pub fn debit_balance(balances: &mut Vec<UserBalance>, owner: &Principal, base_amount: u64, quote_amount: u64) -> (r: Result<(), ErrorCode>)
    ensures
        match debit(old(balances)@, *owner, base_amount, quote_amount) {
            Ok(s) => r is Ok && final(balances)@ == s,
            Err(e) => r == Err::<(), ErrorCode>(e) && final(balances)@ == old(balances)@,
        },
{
    let i: usize = find_slot(balances, owner);
    if i >= balances.len() {
        if base_amount == 0 && quote_amount == 0 {
            Ok(())
        } else {
            Err(ErrorCode::UserNotFound)
        }
    } else {
        let entry = balances[i];
        if entry.base_amount < base_amount || entry.quote_amount < quote_amount {
            return Err(ErrorCode::InsufficientBalance);
        }
        if entry.base_amount == base_amount && entry.quote_amount == quote_amount {
            let _ = balances.remove(i);
        } else {
            balances[i] = UserBalance {
                owner: entry.owner,
                base_amount: entry.base_amount - base_amount,
                quote_amount: entry.quote_amount - quote_amount,
            };
        }
        Ok(())
    }
}

/// What the ledger holds for `owner`, base first.
pub fn query_balance(balances: &Vec<UserBalance>, owner: &Principal) -> (r: (u64, u64))
    ensures
        r == balance_of(balances@, *owner),
{
    let i: usize = find_slot(balances, owner);
    if i < balances.len() {
        (balances[i].base_amount, balances[i].quote_amount)
    } else {
        (0, 0)
    }
}

} // verus!
