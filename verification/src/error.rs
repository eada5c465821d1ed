//! The errors of the book's operations.

use vstd::prelude::*;

verus! {

/// Why an operation on the book was refused.
#[derive(Clone, Copy, Debug, PartialEq, Eq, Structural)]
pub enum ErrorCode {
    InvalidOrderAmount,
    InvalidOrderPrice,
    CalculationFailure,
    InsufficientFunds,
    OrderNotFound,
    OrderbookFull,
    InvalidOrderSide,
    NotOrderOwner,
    TooManyUsers,
    UserNotFound,
    InsufficientBalance,
    Unauthorized,
}

impl ErrorCode {
    /// The sentence shown to a user for this error.
    pub fn message(&self) -> (text: &'static str)
        ensures
            text@.len() > 0,
            text@ == Self::message_of(*self),
    {
        proof {
            reveal_strlit("Order amount must be greater than zero");
            reveal_strlit("Order price must be greater than zero");
            reveal_strlit("Calculation overflow or underflow");
            reveal_strlit("Insufficient funds for the order");
            reveal_strlit("Order not found");
            reveal_strlit("Orderbook is full");
            reveal_strlit("Invalid order side");
            reveal_strlit("Not order owner");
            reveal_strlit("Too many users with balances");
            reveal_strlit("User not found");
            reveal_strlit("Insufficient balance");
            reveal_strlit("Caller is not the orderbook authority");
        }
        match self {
            ErrorCode::InvalidOrderAmount => "Order amount must be greater than zero",
            ErrorCode::InvalidOrderPrice => "Order price must be greater than zero",
            ErrorCode::CalculationFailure => "Calculation overflow or underflow",
            ErrorCode::InsufficientFunds => "Insufficient funds for the order",
            ErrorCode::OrderNotFound => "Order not found",
            ErrorCode::OrderbookFull => "Orderbook is full",
            ErrorCode::InvalidOrderSide => "Invalid order side",
            ErrorCode::NotOrderOwner => "Not order owner",
            ErrorCode::TooManyUsers => "Too many users with balances",
            ErrorCode::UserNotFound => "User not found",
            ErrorCode::InsufficientBalance => "Insufficient balance",
            ErrorCode::Unauthorized => "Caller is not the orderbook authority",
        }
    }

    /// The text of [`ErrorCode::message`], as a sequence of characters.
    pub open spec fn message_of(code: ErrorCode) -> Seq<char> {
        match code {
            ErrorCode::InvalidOrderAmount => "Order amount must be greater than zero"@,
            ErrorCode::InvalidOrderPrice => "Order price must be greater than zero"@,
            ErrorCode::CalculationFailure => "Calculation overflow or underflow"@,
            ErrorCode::InsufficientFunds => "Insufficient funds for the order"@,
            ErrorCode::OrderNotFound => "Order not found"@,
            ErrorCode::OrderbookFull => "Orderbook is full"@,
            ErrorCode::InvalidOrderSide => "Invalid order side"@,
            ErrorCode::NotOrderOwner => "Not order owner"@,
            ErrorCode::TooManyUsers => "Too many users with balances"@,
            ErrorCode::UserNotFound => "User not found"@,
            ErrorCode::InsufficientBalance => "Insufficient balance"@,
            ErrorCode::Unauthorized => "Caller is not the orderbook authority"@,
        }
    }
}

} // verus!
