use clob::create_order::handle_create_order;
use clob::delegation::handle_update_delegation_status;
use clob::error::ErrorCode;
use clob::settlement::{custody_legs, handle_deposit_balance, handle_withdraw_funds, Transfers};
use clob::state::{init_orderbook, Order, Orderbook, Principal, Side, MAX_ORDERS};

fn user(n: u128) -> Principal {
    Principal { hi: 7, lo: n }
}

fn new_book() -> Orderbook {
    init_orderbook(user(1000), user(1001), user(1002), user(1003), 9, 6, user(1), 254)
}

#[test]
fn a_new_book_is_empty() {
    let book = new_book();
    assert!(book.buys.is_empty());
    assert!(book.sells.is_empty());
    assert!(book.user_balances.is_empty());
    assert_eq!(book.order_counter, 0);
    assert_eq!(book.base_asset, user(1000));
    assert_eq!(book.quote_asset, user(1001));
    assert_eq!(book.base_vault, user(1002));
    assert_eq!(book.quote_vault, user(1003));
    assert_eq!(book.base_decimals, 9);
    assert_eq!(book.quote_decimals, 6);
    assert_eq!(book.authority, user(1));
    assert_eq!(book.bump, 254);
    assert!(!book.is_delegated);
}

#[test]
fn deposit_credits_both_legs() {
    let mut book = new_book();
    assert_eq!(handle_deposit_balance(&mut book, &user(2), 70, 30), Ok(()));
    assert_eq!(book.get_balance(&user(2)), (30, 70));
    assert_eq!(handle_deposit_balance(&mut book, &user(2), 0, 5), Ok(()));
    assert_eq!(book.get_balance(&user(2)), (35, 70));
    assert_eq!(handle_deposit_balance(&mut book, &user(2), 5, 0), Ok(()));
    assert_eq!(book.get_balance(&user(2)), (35, 75));
}

#[test]
fn deposit_and_withdrawal_of_nothing_change_nothing() {
    let mut book = new_book();
    assert_eq!(handle_deposit_balance(&mut book, &user(2), 0, 0), Ok(()));
    assert!(book.user_balances.is_empty());
    assert_eq!(handle_withdraw_funds(&mut book, &user(2), 0, 0), Ok(()));
    assert!(book.user_balances.is_empty());
    assert_eq!(handle_deposit_balance(&mut book, &user(2), 4, 3), Ok(()));
    assert_eq!(handle_deposit_balance(&mut book, &user(2), 0, 0), Ok(()));
    assert_eq!(handle_withdraw_funds(&mut book, &user(2), 0, 0), Ok(()));
    assert_eq!(book.user_balances.len(), 1);
    assert_eq!(book.get_balance(&user(2)), (3, 4));
}

#[test]
fn deposit_overflow_is_refused() {
    let mut book = new_book();
    assert_eq!(handle_deposit_balance(&mut book, &user(2), u64::MAX, 1), Ok(()));
    assert_eq!(handle_deposit_balance(&mut book, &user(2), 1, 1), Err(ErrorCode::CalculationFailure));
    assert_eq!(book.get_balance(&user(2)), (1, u64::MAX));
}

#[test]
fn withdraw_takes_out_of_the_ledger() {
    let mut book = new_book();
    assert_eq!(handle_deposit_balance(&mut book, &user(2), 70, 30), Ok(()));
    assert_eq!(handle_withdraw_funds(&mut book, &user(2), 10, 70), Ok(()));
    assert_eq!(book.get_balance(&user(2)), (20, 0));
    assert_eq!(handle_withdraw_funds(&mut book, &user(2), 20, 0), Ok(()));
    assert!(book.user_balances.is_empty());
}

#[test]
fn withdrawal_beyond_balance_fails_and_changes_nothing() {
    let mut book = new_book();
    assert_eq!(handle_deposit_balance(&mut book, &user(2), 0, 30), Ok(()));
    assert_eq!(handle_withdraw_funds(&mut book, &user(2), 50, 0), Err(ErrorCode::InsufficientBalance));
    assert_eq!(book.get_balance(&user(2)), (30, 0));
    assert_eq!(book.user_balances.len(), 1);
    assert_eq!(handle_withdraw_funds(&mut book, &user(3), 1, 0), Err(ErrorCode::InsufficientBalance));
    assert_eq!(handle_withdraw_funds(&mut book, &user(2), 30, 1), Err(ErrorCode::InsufficientBalance));
    assert_eq!(book.get_balance(&user(2)), (30, 0));
}

#[test]
fn buy_order_reserves_price_times_amount() {
    let mut book = new_book();
    assert_eq!(handle_deposit_balance(&mut book, &user(2), 100, 0), Ok(()));
    assert_eq!(handle_create_order(&mut book, &user(2), 0, 12, 5, 1_700_000_000), Ok(()));
    assert_eq!(book.get_balance(&user(2)), (0, 40));
    assert_eq!(book.buys.len(), 1);
    assert!(book.sells.is_empty());
    assert_eq!(
        book.buys[0],
        Order {
            id: 0,
            owner: user(2),
            side: Side::Buy,
            price: 12,
            original_amount: 5,
            remaining_amount: 5,
            created_at: 1_700_000_000,
        }
    );
    assert_eq!(book.order_counter, 1);
}

#[test]
fn sell_order_reserves_its_amount() {
    let mut book = new_book();
    assert_eq!(handle_deposit_balance(&mut book, &user(2), 0, 8), Ok(()));
    assert_eq!(handle_create_order(&mut book, &user(2), 1, 12, 5, -4), Ok(()));
    assert_eq!(book.get_balance(&user(2)), (3, 0));
    assert_eq!(book.sells.len(), 1);
    assert!(book.buys.is_empty());
    assert_eq!(
        book.sells[0],
        Order {
            id: 0,
            owner: user(2),
            side: Side::Sell,
            price: 12,
            original_amount: 5,
            remaining_amount: 5,
            created_at: -4,
        }
    );
}

#[test]
fn order_ids_are_issued_in_increasing_order() {
    let mut book = new_book();
    assert_eq!(handle_deposit_balance(&mut book, &user(2), 100, 100), Ok(()));
    assert_eq!(handle_create_order(&mut book, &user(2), 0, 1, 1, 0), Ok(()));
    assert_eq!(handle_create_order(&mut book, &user(2), 1, 9, 1, 0), Ok(()));
    assert_eq!(handle_create_order(&mut book, &user(2), 0, 2, 1, 0), Ok(()));
    assert_eq!(handle_create_order(&mut book, &user(2), 0, 0, 1, 0), Err(ErrorCode::InvalidOrderPrice));
    assert_eq!(handle_create_order(&mut book, &user(2), 1, 9, 1, 0), Ok(()));
    assert_eq!(book.buys[0].id, 0);
    assert_eq!(book.sells[0].id, 1);
    assert_eq!(book.buys[1].id, 2);
    assert_eq!(book.sells[1].id, 3);
    assert_eq!(book.order_counter, 4);
}

#[test]
fn invalid_orders_are_refused_in_order_of_the_checks() {
    let mut book = new_book();
    assert_eq!(handle_create_order(&mut book, &user(2), 9, 0, 0, 0), Err(ErrorCode::InvalidOrderAmount));
    assert_eq!(handle_create_order(&mut book, &user(2), 9, 0, 1, 0), Err(ErrorCode::InvalidOrderPrice));
    assert_eq!(handle_create_order(&mut book, &user(2), 2, 1, 1, 0), Err(ErrorCode::InvalidOrderSide));
    assert_eq!(handle_create_order(&mut book, &user(2), 0, 1, 1, 0), Err(ErrorCode::UserNotFound));
    assert_eq!(handle_create_order(&mut book, &user(2), 1, 1, 1, 0), Err(ErrorCode::UserNotFound));
    assert_eq!(handle_create_order(&mut book, &user(2), 0, u64::MAX, 2, 0), Err(ErrorCode::CalculationFailure));
    assert_eq!(handle_deposit_balance(&mut book, &user(2), 10, 10), Ok(()));
    assert_eq!(handle_create_order(&mut book, &user(2), 0, 11, 1, 0), Err(ErrorCode::InsufficientBalance));
    assert_eq!(handle_create_order(&mut book, &user(2), 1, 1, 11, 0), Err(ErrorCode::InsufficientBalance));
    assert_eq!(book.order_counter, 0);
    assert!(book.buys.is_empty());
    assert!(book.sells.is_empty());
    assert_eq!(book.get_balance(&user(2)), (10, 10));
}

#[test]
fn spent_counter_refuses_an_order() {
    let mut book = new_book();
    book.order_counter = u64::MAX;
    assert_eq!(handle_deposit_balance(&mut book, &user(2), 10, 10), Ok(()));
    assert_eq!(handle_create_order(&mut book, &user(2), 0, 1, 1, 0), Err(ErrorCode::CalculationFailure));
    assert_eq!(book.order_counter, u64::MAX);
    assert_eq!(book.get_balance(&user(2)), (10, 10));
}

#[test]
fn full_side_refuses_one_more_order() {
    let mut book = new_book();
    assert_eq!(handle_deposit_balance(&mut book, &user(2), 1000, 1000), Ok(()));
    for n in 0..MAX_ORDERS {
        assert_eq!(handle_create_order(&mut book, &user(2), 0, 2, 1, n as i64), Ok(()));
    }
    assert_eq!(book.buys.len(), 100);
    assert_eq!(handle_create_order(&mut book, &user(2), 0, 2, 1, 100), Err(ErrorCode::OrderbookFull));
    assert_eq!(book.buys.len(), 100);
    assert_eq!(book.order_counter, 100);
    assert_eq!(book.get_balance(&user(2)), (1000, 800));
    // a full side is reported before a reservation that does not fit
    assert_eq!(handle_create_order(&mut book, &user(2), 0, u64::MAX, 2, 100), Err(ErrorCode::OrderbookFull));
    // the other side still takes orders
    assert_eq!(handle_create_order(&mut book, &user(2), 1, 2, 1, 100), Ok(()));
    assert_eq!(book.sells[0].id, 100);
}

#[test]
fn only_the_authority_sets_the_delegation_flag() {
    let mut book = new_book();
    assert_eq!(handle_update_delegation_status(&mut book, &user(2), true), Err(ErrorCode::Unauthorized));
    assert!(!book.is_delegated);
    assert_eq!(handle_update_delegation_status(&mut book, &user(1), true), Ok(()));
    assert!(book.is_delegated);
    assert_eq!(handle_update_delegation_status(&mut book, &user(1), false), Ok(()));
    assert!(!book.is_delegated);
}

#[test]
fn only_legs_above_zero_move_the_vaults() {
    assert_eq!(custody_legs(0, 0), Transfers { base: None, quote: None });
    assert_eq!(custody_legs(5, 0), Transfers { base: Some(5), quote: None });
    assert_eq!(custody_legs(0, 7), Transfers { base: None, quote: Some(7) });
    assert_eq!(custody_legs(u64::MAX, 1), Transfers { base: Some(u64::MAX), quote: Some(1) });
}
