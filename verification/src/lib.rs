//! A central limit order book for one asset pair, with the custodial balance
//! ledger that backs it.
//!
//! Users deposit into the ledger, place priced orders that reserve their cost,
//! have an order matched against the resting orders of the other side, and
//! withdraw what the ledger holds for them.
//!
//! Every operation is a total function on the book: it either succeeds and
//! moves the book to the state that its transition function names, or fails
//! with an [`error::ErrorCode`] and leaves the book as it was. The transition
//! functions are [`settlement::deposited`], [`settlement::withdrawn`],
//! [`create_order::placed`] and [`match_order::matched`], over the book's
//! mathematical view [`state::BookState`]. What holds of them is proved in
//! [`match_laws`], [`conservation`] and [`history`].

pub mod error;
pub mod state;
pub mod ledger;
pub mod create_order;
pub mod settlement;
pub mod delegation;
pub mod sorting;
pub mod match_order;
pub mod match_laws;
pub mod conservation;
pub mod history;
