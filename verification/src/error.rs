//! Every expected failure of the lending library.

use vstd::prelude::*;

use crate::text::{decimal, push_decimal};

verus! {

/// Every expected failure in the lending library; never produced by a panic.
#[derive(Debug, PartialEq, Eq, Structural)]
pub enum LibraryError {
    EmptyTitle,
    DuplicateItemId { id: u32 },
    DuplicateMemberId { id: u32 },
    ItemNotFound { id: u32 },
    MemberNotFound { id: u32 },
    ItemAlreadyOnLoan { id: u32, member_id: u32 },
    ItemNotOnLoan { id: u32 },
    ItemIsLost { id: u32 },
    BorrowLimitReached { member_id: u32, limit: usize },
    InvalidReturnDay { day_borrowed: u32, day_returned: u32 },
}

impl LibraryError {
    /// The sentence that describes the failure.
    pub open spec fn text(self) -> Seq<char> {
        match self {
            LibraryError::EmptyTitle => "an item must have a non-empty title"@,
            LibraryError::DuplicateItemId { id } => "an item with id "@ + decimal(id as nat)
                + " is already stocked"@,
            LibraryError::DuplicateMemberId { id } => "a member with id "@ + decimal(id as nat)
                + " is already registered"@,
            LibraryError::ItemNotFound { id } => "no item with id "@ + decimal(id as nat)
                + " is in the catalogue"@,
            LibraryError::MemberNotFound { id } => "no member with id "@ + decimal(id as nat)
                + " is registered"@,
            LibraryError::ItemAlreadyOnLoan { id, member_id } => "item "@ + decimal(id as nat)
                + " is already on loan to member "@ + decimal(member_id as nat),
            LibraryError::ItemNotOnLoan { id } => "item "@ + decimal(id as nat)
                + " is not currently on loan"@,
            LibraryError::ItemIsLost { id } => "item "@ + decimal(id as nat)
                + " has been reported lost and cannot be lent"@,
            LibraryError::BorrowLimitReached { member_id, limit } => "member "@ + decimal(
                member_id as nat,
            ) + " already holds the maximum of "@ + decimal(limit as nat) + " items"@,
            LibraryError::InvalidReturnDay { day_borrowed, day_returned } => "cannot return on day "@
                + decimal(day_returned as nat) + " before it was borrowed on day "@ + decimal(
                day_borrowed as nat,
            ),
        }
    }

    /// Renders the failure as a sentence.
    pub fn to_string(&self) -> (s: String)
        ensures
            s@ == self.text(),
    {
        let mut s = String::new();
        match self {
            LibraryError::EmptyTitle => {
                s.append("an item must have a non-empty title");
            },
            LibraryError::DuplicateItemId { id } => {
                s.append("an item with id ");
                push_decimal(&mut s, *id as u64);
                s.append(" is already stocked");
            },
            LibraryError::DuplicateMemberId { id } => {
                s.append("a member with id ");
                push_decimal(&mut s, *id as u64);
                s.append(" is already registered");
            },
            LibraryError::ItemNotFound { id } => {
                s.append("no item with id ");
                push_decimal(&mut s, *id as u64);
                s.append(" is in the catalogue");
            },
            LibraryError::MemberNotFound { id } => {
                s.append("no member with id ");
                push_decimal(&mut s, *id as u64);
                s.append(" is registered");
            },
            LibraryError::ItemAlreadyOnLoan { id, member_id } => {
                s.append("item ");
                push_decimal(&mut s, *id as u64);
                s.append(" is already on loan to member ");
                push_decimal(&mut s, *member_id as u64);
            },
            LibraryError::ItemNotOnLoan { id } => {
                s.append("item ");
                push_decimal(&mut s, *id as u64);
                s.append(" is not currently on loan");
            },
            LibraryError::ItemIsLost { id } => {
                s.append("item ");
                push_decimal(&mut s, *id as u64);
                s.append(" has been reported lost and cannot be lent");
            },
            LibraryError::BorrowLimitReached { member_id, limit } => {
                s.append("member ");
                push_decimal(&mut s, *member_id as u64);
                s.append(" already holds the maximum of ");
                push_decimal(&mut s, *limit as u64);
                s.append(" items");
            },
            LibraryError::InvalidReturnDay { day_borrowed, day_returned } => {
                s.append("cannot return on day ");
                push_decimal(&mut s, *day_returned as u64);
                s.append(" before it was borrowed on day ");
                push_decimal(&mut s, *day_borrowed as u64);
            },
        }
        s
    }
}

} // verus!
