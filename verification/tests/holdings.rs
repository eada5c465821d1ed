use clob::create_order::handle_create_order;
use clob::delegation::handle_update_delegation_status;
use clob::match_order::{handle_match_order, MatchingResult};
use clob::settlement::{handle_deposit_balance, handle_withdraw_funds};
use clob::state::{init_orderbook, Orderbook, Principal};

fn party(n: u128) -> Principal {
    Principal { hi: n, lo: n + 1 }
}

fn fresh() -> Orderbook {
    init_orderbook(party(100), party(101), party(102), party(103), 9, 6, party(1), 255)
}

/// Base in the ledger and reserved by open offers.
fn base_held(book: &Orderbook) -> u128 {
    let ledger: u128 = book.user_balances.iter().map(|b| b.base_amount as u128).sum();
    let reserved: u128 = book.sells.iter().map(|o| o.remaining_amount as u128).sum();
    ledger + reserved
}

/// Quote in the ledger and reserved by open bids.
fn quote_held(book: &Orderbook) -> u128 {
    let ledger: u128 = book.user_balances.iter().map(|b| b.quote_amount as u128).sum();
    let reserved: u128 = book.buys.iter().map(|o| o.price as u128 * o.remaining_amount as u128).sum();
    ledger + reserved
}

#[test]
fn holdings_follow_deposits_and_withdrawals() {
    let mut book = fresh();
    assert_eq!((base_held(&book), quote_held(&book)), (0, 0));
    assert_eq!(handle_deposit_balance(&mut book, &party(2), 500, 40), Ok(()));
    assert_eq!(handle_deposit_balance(&mut book, &party(3), 300, 60), Ok(()));
    assert_eq!((base_held(&book), quote_held(&book)), (100, 800));
    // orders move value from the ledger into the book, none in or out
    assert_eq!(handle_create_order(&mut book, &party(2), 0, 7, 10, 0), Ok(()));
    assert_eq!(handle_create_order(&mut book, &party(3), 1, 9, 25, 1), Ok(()));
    assert_eq!(book.get_balance(&party(2)), (40, 430));
    assert_eq!(book.get_balance(&party(3)), (35, 300));
    assert_eq!((base_held(&book), quote_held(&book)), (100, 800));
    // a bid at 7 does not reach an offer at 9: nothing is filled
    assert_eq!(
        handle_match_order(&mut book, &party(2), 0),
        Ok(MatchingResult { filled_amount: 0, remaining_amount: 10 })
    );
    assert_eq!((base_held(&book), quote_held(&book)), (100, 800));
    // refused calls change nothing
    assert!(handle_withdraw_funds(&mut book, &party(2), 41, 0).is_err());
    assert!(handle_create_order(&mut book, &party(2), 0, 1000, 1000, 2).is_err());
    assert!(handle_match_order(&mut book, &party(3), 0).is_err());
    assert_eq!((base_held(&book), quote_held(&book)), (100, 800));
    assert_eq!(handle_withdraw_funds(&mut book, &party(2), 15, 30), Ok(()));
    assert_eq!(handle_withdraw_funds(&mut book, &party(3), 35, 0), Ok(()));
    assert_eq!((base_held(&book), quote_held(&book)), (50, 770));
}

#[test]
fn a_fill_takes_the_filled_base_out_of_the_holdings() {
    let mut book = fresh();
    assert_eq!(handle_deposit_balance(&mut book, &party(2), 500, 40), Ok(()));
    assert_eq!(handle_deposit_balance(&mut book, &party(3), 300, 60), Ok(()));
    assert_eq!(handle_create_order(&mut book, &party(2), 0, 9, 10, 0), Ok(()));
    assert_eq!(handle_create_order(&mut book, &party(3), 1, 9, 25, 1), Ok(()));
    let ledger_base: u64 = book.user_balances.iter().map(|b| b.base_amount).sum();
    let ledger_quote: u64 = book.user_balances.iter().map(|b| b.quote_amount).sum();
    assert_eq!((base_held(&book), quote_held(&book)), (100, 800));
    assert_eq!(
        handle_match_order(&mut book, &party(2), 0),
        Ok(MatchingResult { filled_amount: 10, remaining_amount: 0 })
    );
    // the ledger's totals stay, the open amounts shrink by what was filled
    assert_eq!(book.user_balances.iter().map(|b| b.base_amount).sum::<u64>(), ledger_base);
    assert_eq!(book.user_balances.iter().map(|b| b.quote_amount).sum::<u64>(), ledger_quote);
    assert_eq!(base_held(&book), 90);
    assert_eq!(book.sells[0].remaining_amount, 15);
    assert!(book.buys.is_empty());
}

#[test]
fn only_a_call_of_the_authority_moves_the_delegation_flag() {
    let mut book = fresh();
    assert_eq!(handle_update_delegation_status(&mut book, &party(1), true), Ok(()));
    assert_eq!(handle_deposit_balance(&mut book, &party(2), 500, 40), Ok(()));
    assert_eq!(handle_create_order(&mut book, &party(2), 0, 9, 10, 0), Ok(()));
    assert_eq!(
        handle_match_order(&mut book, &party(2), 0),
        Ok(MatchingResult { filled_amount: 0, remaining_amount: 10 })
    );
    assert_eq!(handle_withdraw_funds(&mut book, &party(2), 40, 0), Ok(()));
    assert!(handle_update_delegation_status(&mut book, &party(2), false).is_err());
    assert!(book.is_delegated);
    assert_eq!(book.authority, party(1));
}
