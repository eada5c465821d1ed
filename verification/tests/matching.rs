use clob::create_order::handle_create_order;
use clob::error::ErrorCode;
use clob::match_order::{handle_match_order, handle_match_order_with, MatchingResult, Reinsertion};
use clob::settlement::handle_deposit_balance;
use clob::sorting::sort_by_price;
use clob::state::{init_orderbook, Order, Orderbook, Principal, Side};

fn trader(n: u128) -> Principal {
    Principal { hi: 0, lo: n }
}

fn book_with_funds(traders: u128) -> Orderbook {
    let mut book = init_orderbook(trader(1000), trader(1001), trader(1002), trader(1003), 9, 6, trader(1), 254);
    for n in 1..=traders {
        assert_eq!(handle_deposit_balance(&mut book, &trader(n), 10_000, 10_000), Ok(()));
    }
    book
}

fn resting(id: u64, price: u64) -> Order {
    Order {
        id,
        owner: trader(1),
        side: Side::Sell,
        price,
        original_amount: 1,
        remaining_amount: 1,
        created_at: 0,
    }
}

fn ids(orders: &Vec<Order>) -> Vec<u64> {
    let mut out = Vec::new();
    for o in orders {
        out.push(o.id);
    }
    out
}

#[test]
fn equal_orders_fill_each_other() {
    let mut book = book_with_funds(2);
    let buyer = trader(1);
    let seller = trader(2);
    assert_eq!(handle_create_order(&mut book, &buyer, 0, 10, 5, 0), Ok(()));
    assert_eq!(handle_create_order(&mut book, &seller, 1, 10, 5, 1), Ok(()));
    let buyer_before = book.get_balance(&buyer);
    let seller_before = book.get_balance(&seller);
    let result = handle_match_order(&mut book, &seller, 1);
    assert_eq!(result, Ok(MatchingResult { filled_amount: 5, remaining_amount: 0 }));
    assert_eq!(book.get_balance(&buyer).0, buyer_before.0 + 5);
    assert_eq!(book.get_balance(&seller).1, seller_before.1 + 50);
    assert_eq!(book.get_balance(&buyer), (10_005, 9_900));
    assert_eq!(book.get_balance(&seller), (9_990, 10_050));
    assert!(book.buys.is_empty());
    assert!(book.sells.is_empty());
}

#[test]
fn order_without_counterpart_stays_resting() {
    let mut book = book_with_funds(1);
    assert_eq!(handle_create_order(&mut book, &trader(1), 0, 12, 10, 0), Ok(()));
    let before = book.get_balance(&trader(1));
    let result = handle_match_order(&mut book, &trader(1), 0);
    assert_eq!(result, Ok(MatchingResult { filled_amount: 0, remaining_amount: 10 }));
    assert_eq!(book.buys.len(), 1);
    assert_eq!(book.buys[0].id, 0);
    assert_eq!(book.buys[0].remaining_amount, 10);
    assert_eq!(book.buys[0].original_amount, 10);
    assert_eq!(book.get_balance(&trader(1)), before);
}

#[test]
fn trade_is_at_the_resting_price() {
    let mut book = book_with_funds(2);
    let buyer = trader(1);
    let seller = trader(2);
    assert_eq!(handle_create_order(&mut book, &seller, 1, 7, 4, 0), Ok(()));
    assert_eq!(handle_create_order(&mut book, &buyer, 0, 10, 4, 1), Ok(()));
    assert_eq!(book.get_balance(&buyer), (10_000, 9_960));
    assert_eq!(book.get_balance(&seller), (9_996, 10_000));
    let result = handle_match_order(&mut book, &buyer, 1);
    assert_eq!(result, Ok(MatchingResult { filled_amount: 4, remaining_amount: 0 }));
    // 4 at 7, not at 10
    assert_eq!(book.get_balance(&buyer), (10_004, 9_960 - 28));
    assert_eq!(book.get_balance(&seller), (9_996 - 4, 10_028));
}

#[test]
fn sell_taker_trades_at_the_bid() {
    let mut book = book_with_funds(2);
    let buyer = trader(1);
    let seller = trader(2);
    assert_eq!(handle_create_order(&mut book, &buyer, 0, 10, 4, 0), Ok(()));
    assert_eq!(handle_create_order(&mut book, &seller, 1, 7, 4, 1), Ok(()));
    let result = handle_match_order(&mut book, &seller, 1);
    assert_eq!(result, Ok(MatchingResult { filled_amount: 4, remaining_amount: 0 }));
    assert_eq!(book.get_balance(&seller), (10_000 - 4 - 4, 10_040));
    assert_eq!(book.get_balance(&buyer), (10_004, 10_000 - 40 - 40));
}

#[test]
fn partly_filled_maker_stays_with_what_is_left() {
    let mut book = book_with_funds(2);
    assert_eq!(handle_create_order(&mut book, &trader(2), 1, 5, 10, 0), Ok(()));
    assert_eq!(handle_create_order(&mut book, &trader(1), 0, 5, 3, 1), Ok(()));
    let result = handle_match_order(&mut book, &trader(1), 1);
    assert_eq!(result, Ok(MatchingResult { filled_amount: 3, remaining_amount: 0 }));
    assert!(book.buys.is_empty());
    assert_eq!(book.sells.len(), 1);
    assert_eq!(book.sells[0].id, 0);
    assert_eq!(book.sells[0].remaining_amount, 7);
    assert_eq!(book.sells[0].original_amount, 10);
}

#[test]
fn partly_filled_taker_goes_to_the_end_of_its_side() {
    let mut book = book_with_funds(3);
    assert_eq!(handle_create_order(&mut book, &trader(1), 0, 9, 10, 0), Ok(()));
    assert_eq!(handle_create_order(&mut book, &trader(3), 0, 8, 1, 1), Ok(()));
    assert_eq!(handle_create_order(&mut book, &trader(2), 1, 9, 4, 2), Ok(()));
    let result = handle_match_order(&mut book, &trader(1), 0);
    assert_eq!(result, Ok(MatchingResult { filled_amount: 4, remaining_amount: 6 }));
    assert!(book.sells.is_empty());
    assert_eq!(ids(&book.buys), vec![1, 0]);
    assert_eq!(book.buys[1].remaining_amount, 6);
    assert_eq!(book.buys[1].original_amount, 10);
    assert_eq!(book.buys[1].created_at, 0);
}

#[test]
fn buyer_takes_the_cheapest_offers_first() {
    let mut book = book_with_funds(4);
    assert_eq!(handle_create_order(&mut book, &trader(2), 1, 9, 2, 0), Ok(()));
    assert_eq!(handle_create_order(&mut book, &trader(3), 1, 7, 2, 1), Ok(()));
    assert_eq!(handle_create_order(&mut book, &trader(4), 1, 8, 2, 2), Ok(()));
    assert_eq!(handle_create_order(&mut book, &trader(2), 1, 11, 2, 3), Ok(()));
    assert_eq!(handle_create_order(&mut book, &trader(1), 0, 10, 5, 4), Ok(()));
    let result = handle_match_order(&mut book, &trader(1), 4);
    assert_eq!(result, Ok(MatchingResult { filled_amount: 5, remaining_amount: 0 }));
    // 2 at 7, 2 at 8, 1 at 9
    assert_eq!(book.get_balance(&trader(1)), (10_005, 10_000 - 50 - 14 - 16 - 9));
    assert_eq!(ids(&book.sells), vec![0, 3]);
    assert_eq!(book.sells[0].remaining_amount, 1);
    assert_eq!(book.sells[1].remaining_amount, 2);
    assert_eq!(book.get_balance(&trader(3)), (10_000 - 2 - 2, 10_014));
    assert_eq!(book.get_balance(&trader(4)), (10_000 - 2 - 2, 10_016));
}

#[test]
fn seller_takes_the_highest_bids_first_and_stops_below_its_price() {
    let mut book = book_with_funds(4);
    assert_eq!(handle_create_order(&mut book, &trader(2), 0, 5, 2, 0), Ok(()));
    assert_eq!(handle_create_order(&mut book, &trader(3), 0, 9, 2, 1), Ok(()));
    assert_eq!(handle_create_order(&mut book, &trader(4), 0, 7, 2, 2), Ok(()));
    assert_eq!(handle_create_order(&mut book, &trader(1), 1, 6, 10, 3), Ok(()));
    let result = handle_match_order(&mut book, &trader(1), 3);
    assert_eq!(result, Ok(MatchingResult { filled_amount: 4, remaining_amount: 6 }));
    assert_eq!(ids(&book.buys), vec![0]);
    assert_eq!(ids(&book.sells), vec![3]);
    assert_eq!(book.sells[0].remaining_amount, 6);
    assert_eq!(book.get_balance(&trader(1)), (10_000 - 10 - 4, 10_000 + 18 + 14));
}

#[test]
fn equal_prices_are_served_in_resting_order() {
    let mut book = book_with_funds(4);
    assert_eq!(handle_create_order(&mut book, &trader(2), 1, 8, 2, 0), Ok(()));
    assert_eq!(handle_create_order(&mut book, &trader(3), 1, 8, 2, 1), Ok(()));
    assert_eq!(handle_create_order(&mut book, &trader(4), 1, 8, 2, 2), Ok(()));
    assert_eq!(handle_create_order(&mut book, &trader(1), 0, 8, 3, 3), Ok(()));
    let result = handle_match_order(&mut book, &trader(1), 3);
    assert_eq!(result, Ok(MatchingResult { filled_amount: 3, remaining_amount: 0 }));
    assert_eq!(ids(&book.sells), vec![1, 2]);
    assert_eq!(book.sells[0].remaining_amount, 1);
    assert_eq!(book.sells[1].remaining_amount, 2);
}

#[test]
fn match_leaves_the_other_side_sorted() {
    let mut book = book_with_funds(2);
    assert_eq!(handle_create_order(&mut book, &trader(2), 1, 30, 1, 0), Ok(()));
    assert_eq!(handle_create_order(&mut book, &trader(2), 1, 20, 1, 1), Ok(()));
    assert_eq!(handle_create_order(&mut book, &trader(2), 1, 30, 1, 2), Ok(()));
    assert_eq!(handle_create_order(&mut book, &trader(2), 1, 25, 1, 3), Ok(()));
    assert_eq!(handle_create_order(&mut book, &trader(1), 0, 10, 1, 4), Ok(()));
    let result = handle_match_order(&mut book, &trader(1), 4);
    assert_eq!(result, Ok(MatchingResult { filled_amount: 0, remaining_amount: 1 }));
    assert_eq!(ids(&book.sells), vec![1, 3, 0, 2]);
    assert_eq!(ids(&book.buys), vec![4]);
}

#[test]
fn unknown_order_and_foreign_order_are_refused() {
    let mut book = book_with_funds(2);
    assert_eq!(handle_create_order(&mut book, &trader(1), 0, 10, 5, 0), Ok(()));
    assert_eq!(handle_create_order(&mut book, &trader(2), 1, 10, 5, 1), Ok(()));
    assert_eq!(handle_match_order(&mut book, &trader(1), 2), Err(ErrorCode::OrderNotFound));
    assert_eq!(handle_match_order(&mut book, &trader(2), 0), Err(ErrorCode::NotOrderOwner));
    assert_eq!(handle_match_order(&mut book, &trader(1), 1), Err(ErrorCode::NotOrderOwner));
    assert_eq!(book.buys.len(), 1);
    assert_eq!(book.sells.len(), 1);
    assert_eq!(book.buys[0].remaining_amount, 5);
    assert_eq!(book.sells[0].remaining_amount, 5);
}

#[test]
fn failed_settlement_leaves_the_book_as_it_was() {
    let mut book = init_orderbook(trader(1000), trader(1001), trader(1002), trader(1003), 9, 6, trader(1), 254);
    assert_eq!(handle_deposit_balance(&mut book, &trader(1), 100, 0), Ok(()));
    assert_eq!(handle_deposit_balance(&mut book, &trader(2), 0, 5), Ok(()));
    assert_eq!(handle_create_order(&mut book, &trader(2), 1, 20, 3, 0), Ok(()));
    assert_eq!(handle_create_order(&mut book, &trader(2), 1, 10, 2, 1), Ok(()));
    assert_eq!(handle_create_order(&mut book, &trader(1), 0, 20, 5, 2), Ok(()));
    // the buyer has nothing left to pay with, and the seller nothing to deliver
    assert_eq!(handle_match_order(&mut book, &trader(1), 2), Err(ErrorCode::InsufficientBalance));
    assert_eq!(ids(&book.sells), vec![0, 1]);
    assert_eq!(ids(&book.buys), vec![2]);
    assert_eq!(book.sells[1].remaining_amount, 2);
    assert_eq!(book.buys[0].remaining_amount, 5);
    assert_eq!(book.get_balance(&trader(1)), (0, 0));
    assert_eq!(book.get_balance(&trader(2)), (0, 0));
    assert!(book.user_balances.is_empty());
}

#[test]
fn trade_value_beyond_sixty_four_bits_is_refused() {
    let mut book = book_with_funds(2);
    book.sells.push(Order {
        id: 0,
        owner: trader(2),
        side: Side::Sell,
        price: u64::MAX,
        original_amount: 2,
        remaining_amount: 2,
        created_at: 0,
    });
    book.buys.push(Order {
        id: 1,
        owner: trader(1),
        side: Side::Buy,
        price: u64::MAX,
        original_amount: 2,
        remaining_amount: 2,
        created_at: 0,
    });
    book.order_counter = 2;
    assert_eq!(handle_match_order(&mut book, &trader(1), 1), Err(ErrorCode::CalculationFailure));
    assert_eq!(book.sells.len(), 1);
    assert_eq!(book.buys.len(), 1);
    assert_eq!(book.get_balance(&trader(1)), (10_000, 10_000));
}

#[test]
fn sort_is_by_price_and_stable() {
    let orders = vec![resting(0, 5), resting(1, 3), resting(2, 5), resting(3, 1), resting(4, 3)];
    assert_eq!(ids(&sort_by_price(&orders, Side::Buy)), vec![3, 1, 4, 0, 2]);
    assert_eq!(ids(&sort_by_price(&orders, Side::Sell)), vec![0, 2, 1, 4, 3]);
    assert_eq!(ids(&orders), vec![0, 1, 2, 3, 4]);
    assert!(sort_by_price(&Vec::new(), Side::Buy).is_empty());
}

#[test]
fn resting_order_with_nothing_open_is_passed_over() {
    let mut book = book_with_funds(3);
    book.sells.push(Order {
        id: 0,
        owner: trader(2),
        side: Side::Sell,
        price: 4,
        original_amount: 3,
        remaining_amount: 0,
        created_at: 0,
    });
    book.order_counter = 1;
    assert_eq!(handle_create_order(&mut book, &trader(3), 1, 5, 2, 1), Ok(()));
    assert_eq!(handle_create_order(&mut book, &trader(1), 0, 6, 2, 2), Ok(()));
    let result = handle_match_order(&mut book, &trader(1), 2);
    assert_eq!(result, Ok(MatchingResult { filled_amount: 2, remaining_amount: 0 }));
    assert_eq!(ids(&book.sells), vec![0]);
    assert_eq!(book.sells[0].remaining_amount, 0);
    assert_eq!(book.get_balance(&trader(2)), (10_000, 10_000));
    assert_eq!(book.get_balance(&trader(1)), (10_002, 10_000 - 12 - 10));
}

#[test]
fn remainder_finds_no_room_on_a_side_beyond_its_bound() {
    let mut book = book_with_funds(1);
    for id in 0..101 {
        book.buys.push(Order {
            id,
            owner: trader(1),
            side: Side::Buy,
            price: 3,
            original_amount: 1,
            remaining_amount: 1,
            created_at: 0,
        });
    }
    book.order_counter = 101;
    assert_eq!(handle_match_order(&mut book, &trader(1), 7), Err(ErrorCode::OrderbookFull));
    assert_eq!(book.buys.len(), 101);
    assert_eq!(book.buys[7].id, 7);
}

#[test]
fn remainder_put_back_in_place_keeps_its_place() {
    let mut book = book_with_funds(3);
    assert_eq!(handle_create_order(&mut book, &trader(3), 0, 8, 1, 0), Ok(()));
    assert_eq!(handle_create_order(&mut book, &trader(1), 0, 9, 10, 1), Ok(()));
    assert_eq!(handle_create_order(&mut book, &trader(3), 0, 7, 1, 2), Ok(()));
    assert_eq!(handle_create_order(&mut book, &trader(2), 1, 9, 4, 3), Ok(()));
    let result = handle_match_order_with(&mut book, &trader(1), 1, Reinsertion::InPlace);
    assert_eq!(result, Ok(MatchingResult { filled_amount: 4, remaining_amount: 6 }));
    assert!(book.sells.is_empty());
    assert_eq!(ids(&book.buys), vec![0, 1, 2]);
    assert_eq!(book.buys[1].remaining_amount, 6);
    assert_eq!(book.buys[1].original_amount, 10);
}

#[test]
fn remainder_put_back_at_the_end_is_the_plain_match() {
    let mut one = book_with_funds(3);
    let mut other = book_with_funds(3);
    for book in [&mut one, &mut other] {
        assert_eq!(handle_create_order(book, &trader(3), 0, 8, 1, 0), Ok(()));
        assert_eq!(handle_create_order(book, &trader(1), 0, 9, 10, 1), Ok(()));
        assert_eq!(handle_create_order(book, &trader(3), 0, 7, 1, 2), Ok(()));
        assert_eq!(handle_create_order(book, &trader(2), 1, 9, 4, 3), Ok(()));
    }
    let plain = handle_match_order(&mut one, &trader(1), 1);
    let at_end = handle_match_order_with(&mut other, &trader(1), 1, Reinsertion::AtEnd);
    assert_eq!(plain, Ok(MatchingResult { filled_amount: 4, remaining_amount: 6 }));
    assert_eq!(plain, at_end);
    assert_eq!(ids(&one.buys), vec![0, 2, 1]);
    assert_eq!(one.buys, other.buys);
    assert_eq!(one.sells, other.sells);
    assert_eq!(one.user_balances, other.user_balances);
}

#[test]
fn filled_order_leaves_the_book_under_either_policy() {
    for policy in [Reinsertion::AtEnd, Reinsertion::InPlace] {
        let mut book = book_with_funds(2);
        assert_eq!(handle_create_order(&mut book, &trader(1), 0, 9, 4, 0), Ok(()));
        assert_eq!(handle_create_order(&mut book, &trader(2), 1, 9, 4, 1), Ok(()));
        let result = handle_match_order_with(&mut book, &trader(1), 0, policy);
        assert_eq!(result, Ok(MatchingResult { filled_amount: 4, remaining_amount: 0 }));
        assert!(book.buys.is_empty());
        assert!(book.sells.is_empty());
    }
}
