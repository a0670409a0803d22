//! Library members and the ids of the items each one holds.

use vstd::prelude::*;

verus! {

/// A registered borrower and the ids of the items it currently holds.
#[derive(Debug, PartialEq, Eq)]
pub struct Member {
    pub id: u32,
    pub name: String,
    pub borrowed_item_ids: Vec<u32>,
}

/// The mathematical value of a [`Member`].
#[verifier::ext_equal]
pub struct MemberView {
    pub id: u32,
    pub name: Seq<char>,
    pub borrowed: Seq<u32>,
}

impl View for Member {
    type V = MemberView;

    open spec fn view(&self) -> MemberView {
        MemberView { id: self.id, name: self.name@, borrowed: self.borrowed_item_ids@ }
    }
}

impl Member {
    /// A new member holding nothing.
    pub fn new(id: u32, name: String) -> (member: Self)
        ensures
            member.id == id,
            member.name == name,
            member@.borrowed == Seq::<u32>::empty(),
    {
        Member { id, name, borrowed_item_ids: Vec::new() }
    }
}

} // verus!
