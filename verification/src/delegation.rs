//! The flag that records whether the book has been handed to another
//! execution venue.

use vstd::prelude::*;
use crate::error::ErrorCode;
use crate::state::{BookState, Orderbook, Principal};

verus! {

/// Sets the flag that says whether the book has been handed to another
/// execution venue. Only the book's authority may; for anyone else the book
/// stays as it was.
pub fn handle_update_delegation_status(book: &mut Orderbook, user: &Principal, is_delegated: bool) -> (r: Result<(), ErrorCode>)
    ensures
        old(book)@.authority == *user ==> {
            &&& r is Ok
            &&& final(book)@ == (BookState { is_delegated, ..old(book)@ })
        },
        old(book)@.authority != *user ==> {
            &&& r == Err::<(), ErrorCode>(ErrorCode::Unauthorized)
            &&& final(book)@ == old(book)@
        },
        old(book)@.wf() ==> final(book)@.wf(),
{
    if !(book.authority == *user) {
        return Err(ErrorCode::Unauthorized);
    }
    book.is_delegated = is_delegated;
    Ok(())
}

} // verus!
