//! The library: it owns every item and member, lends items out and takes
//! them back, and keeps each item's loan status and the holder's list of
//! borrowed ids in agreement.

use vstd::prelude::*;

use crate::catalogue::{late_fee, Item, ItemView, LoanStatus, LoanTerms};
use crate::error::LibraryError;
use crate::member::{Member, MemberView};
use crate::loan_laws::{
    lemma_add_item_keeps_consistency, lemma_checkout_keeps_consistency,
    lemma_register_keeps_consistency, lemma_return_keeps_consistency,
};
use crate::text::{all_white_space, is_blank};

verus! {

/// The most items one member may hold at a time.
pub const MAX_ITEMS_PER_MEMBER: usize = 3;

/// Owns every item and member; keeps the item status and the member's
/// borrowed-id list in agreement. The lists are open to callers, who can
/// for instance record an item as lost; the operations below keep
/// `consistent` whenever they find it holding.
#[derive(Debug)]
pub struct Library {
    /// The catalogue, in the order items were added.
    pub items: Vec<Item>,
    /// The registered members, in the order they registered.
    pub members: Vec<Member>,
}

/// The mathematical value of a [`Library`]: its items and members, in the
/// order they were added.
#[verifier::ext_equal]
pub struct LibraryView {
    pub items: Seq<ItemView>,
    pub members: Seq<MemberView>,
}

impl View for Library {
    type V = LibraryView;

    open spec fn view(&self) -> LibraryView {
        LibraryView {
            items: self.items@.map_values(|item: Item| item@),
            members: self.members@.map_values(|member: Member| member@),
        }
    }
}

/// The first index at or after `start` where `ids` holds `id`.
pub open spec fn position_from(ids: Seq<u32>, id: u32, start: int) -> Option<int>
    decreases ids.len() - start,
{
    if start < 0 || start >= ids.len() {
        None
    } else if ids[start] == id {
        Some(start)
    } else {
        position_from(ids, id, start + 1)
    }
}

/// The first index where `ids` holds `id`, if any.
pub open spec fn position_of(ids: Seq<u32>, id: u32) -> Option<int> {
    position_from(ids, id, 0)
}

/// No id occurs twice.
pub open spec fn unique_ids(ids: Seq<u32>) -> bool {
    forall|a: int, b: int|
        0 <= a < ids.len() && 0 <= b < ids.len() && a != b ==> #[trigger] ids[a] != #[trigger] ids[b]
}

/// The member an item is lent to, if it is on loan.
pub open spec fn holder(status: LoanStatus) -> Option<u32> {
    match status {
        LoanStatus::OnLoan { member_id, .. } => Some(member_id),
        _ => None,
    }
}

/// The elements of `s` whose flag in `keep` is set, in order.
pub open spec fn select<T>(s: Seq<T>, keep: Seq<bool>) -> Seq<T>
    decreases s.len(),
{
    if s.len() == 0 {
        Seq::empty()
    } else {
        let earlier = select(s.drop_last(), keep.drop_last());
        if keep.last() {
            earlier.push(s.last())
        } else {
            earlier
        }
    }
}

/// Whether an item is on the shelf.
pub open spec fn on_shelf() -> spec_fn(ItemView) -> bool {
    |item: ItemView| item.status == LoanStatus::Available
}

/// Whether an item is by `author`.
pub open spec fn written_by(author: Seq<char>) -> spec_fn(ItemView) -> bool {
    |item: ItemView| item.author == author
}

/// The values of the items that a list of references points to.
pub open spec fn views_of(items: Seq<&Item>) -> Seq<ItemView> {
    items.map_values(|item: &Item| item@)
}

/// `item` with its status replaced.
pub open spec fn with_status(item: ItemView, status: LoanStatus) -> ItemView {
    ItemView { status, ..item }
}

/// `member` with its list of borrowed ids replaced.
pub open spec fn with_borrowed(member: MemberView, borrowed: Seq<u32>) -> MemberView {
    MemberView { borrowed, ..member }
}

/// `ids` with every occurrence of `id` taken out.
pub open spec fn without(ids: Seq<u32>, id: u32) -> Seq<u32> {
    ids.filter(|x: u32| x != id)
}

impl LibraryView {
    pub open spec fn item_ids(self) -> Seq<u32> {
        self.items.map_values(|item: ItemView| item.id)
    }

    pub open spec fn member_ids(self) -> Seq<u32> {
        self.members.map_values(|member: MemberView| member.id)
    }

    /// Where the first item with this id stands.
    pub open spec fn item_index(self, id: u32) -> Option<int> {
        position_of(self.item_ids(), id)
    }

    /// Where the first member with this id stands.
    pub open spec fn member_index(self, id: u32) -> Option<int> {
        position_of(self.member_ids(), id)
    }

    /// An item that is on loan is listed by a member with the holder's id.
    pub open spec fn loan_listed(self, i: int) -> bool {
        match holder(self.items[i].status) {
            Some(member_id) => exists|j: int|
                0 <= j < self.members.len() && #[trigger] self.members[j].id == member_id
                    && self.members[j].borrowed.contains(self.items[i].id),
            None => true,
        }
    }

    /// Entry `k` of member `j`'s list names an item that is on loan to `j`.
    pub open spec fn entry_backed(self, j: int, k: int) -> bool {
        exists|i: int|
            0 <= i < self.items.len() && #[trigger] self.items[i].id == self.members[j].borrowed[k]
                && holder(self.items[i].status) == Some(self.members[j].id)
    }

    /// The library's invariant: ids are unique, every loan is recorded on
    /// both sides, no member lists an id twice or holds more than the limit.
    pub open spec fn consistent(self) -> bool {
        &&& unique_ids(self.item_ids())
        &&& unique_ids(self.member_ids())
        &&& forall|i: int| 0 <= i < self.items.len() ==> #[trigger] self.loan_listed(i)
        &&& forall|j: int, k: int|
            0 <= j < self.members.len() && 0 <= k < self.members[j].borrowed.len()
                ==> #[trigger] self.entry_backed(j, k)
        &&& forall|j: int|
            0 <= j < self.members.len() ==> unique_ids(#[trigger] self.members[j].borrowed)
                && self.members[j].borrowed.len() <= MAX_ITEMS_PER_MEMBER
    }

    /// What adding an item does: a blank title or a taken id is refused,
    /// otherwise the item joins the end of the catalogue.
    pub open spec fn add_item_outcome(self, item: ItemView) -> (LibraryView, Result<(), LibraryError>) {
        if all_white_space(item.title) {
            (self, Err(LibraryError::EmptyTitle))
        } else if self.item_ids().contains(item.id) {
            (self, Err(LibraryError::DuplicateItemId { id: item.id }))
        } else {
            (LibraryView { items: self.items.push(item), ..self }, Ok(()))
        }
    }

    /// What registering a member does: a taken id is refused, otherwise the
    /// member joins the end of the list.
    pub open spec fn register_outcome(self, member: MemberView) -> (LibraryView, Result<(), LibraryError>) {
        if self.member_ids().contains(member.id) {
            (self, Err(LibraryError::DuplicateMemberId { id: member.id }))
        } else {
            (LibraryView { members: self.members.push(member), ..self }, Ok(()))
        }
    }

    /// What lending item `item_id` to member `member_id` on `day` does. The
    /// checks come in this order: unknown item, unknown member, lost item,
    /// item already lent, member at the limit.
    pub open spec fn checkout_outcome(self, item_id: u32, member_id: u32, day: u32) -> (
        LibraryView,
        Result<(), LibraryError>,
    ) {
        match self.item_index(item_id) {
            None => (self, Err(LibraryError::ItemNotFound { id: item_id })),
            Some(i) => match self.member_index(member_id) {
                None => (self, Err(LibraryError::MemberNotFound { id: member_id })),
                Some(j) => match self.items[i].status {
                    LoanStatus::Lost => (self, Err(LibraryError::ItemIsLost { id: item_id })),
                    LoanStatus::OnLoan { member_id: current_holder, .. } => (
                        self,
                        Err(
                            LibraryError::ItemAlreadyOnLoan {
                                id: item_id,
                                member_id: current_holder,
                            },
                        ),
                    ),
                    LoanStatus::Available => if self.members[j].borrowed.len()
                        >= MAX_ITEMS_PER_MEMBER {
                        (
                            self,
                            Err(
                                LibraryError::BorrowLimitReached {
                                    member_id,
                                    limit: MAX_ITEMS_PER_MEMBER,
                                },
                            ),
                        )
                    } else {
                        (
                            LibraryView {
                                items: self.items.update(
                                    i,
                                    with_status(
                                        self.items[i],
                                        LoanStatus::OnLoan { member_id, day_borrowed: day },
                                    ),
                                ),
                                members: self.members.update(
                                    j,
                                    with_borrowed(
                                        self.members[j],
                                        self.members[j].borrowed.push(item_id),
                                    ),
                                ),
                            },
                            Ok(()),
                        )
                    },
                },
            },
        }
    }

    /// The fee owed when item `i`, borrowed on `day_borrowed`, comes back on `day`.
    pub open spec fn fee_at(self, i: int, day_borrowed: u32, day: u32) -> int {
        late_fee(
            day - day_borrowed,
            self.items[i].kind.days_for() as int,
            self.items[i].kind.fee_for() as int,
        )
    }

    /// The fee that returning `item_id` on `day` would compute fits in a `u32`.
    pub open spec fn return_fee_fits(self, item_id: u32, day: u32) -> bool {
        match self.item_index(item_id) {
            Some(i) => match self.items[i].status {
                LoanStatus::OnLoan { day_borrowed, .. } => day >= day_borrowed ==> self.fee_at(
                    i,
                    day_borrowed,
                    day,
                ) <= u32::MAX,
                _ => true,
            },
            None => true,
        }
    }

    /// What returning item `item_id` on `day` does: an unknown, lost or
    /// unlent item, or a day before the borrow day, is refused; otherwise the
    /// item goes back on the shelf, the holder (if registered) stops listing
    /// it, and the late fee is owed.
    pub open spec fn return_outcome(self, item_id: u32, day: u32) -> (LibraryView, Result<u32, LibraryError>) {
        match self.item_index(item_id) {
            None => (self, Err(LibraryError::ItemNotFound { id: item_id })),
            Some(i) => match self.items[i].status {
                LoanStatus::Lost => (self, Err(LibraryError::ItemIsLost { id: item_id })),
                LoanStatus::Available => (self, Err(LibraryError::ItemNotOnLoan { id: item_id })),
                LoanStatus::OnLoan { member_id, day_borrowed } => if day < day_borrowed {
                    (
                        self,
                        Err(
                            LibraryError::InvalidReturnDay {
                                day_borrowed,
                                day_returned: day,
                            },
                        ),
                    )
                } else {
                    let items = self.items.update(
                        i,
                        with_status(self.items[i], LoanStatus::Available),
                    );
                    let members = match self.member_index(member_id) {
                        Some(j) => self.members.update(
                            j,
                            with_borrowed(
                                self.members[j],
                                without(self.members[j].borrowed, item_id),
                            ),
                        ),
                        None => self.members,
                    };
                    (
                        LibraryView { items, members },
                        Ok(self.fee_at(i, day_borrowed, day) as u32),
                    )
                },
            },
        }
    }

    /// The items that are on the shelf, in catalogue order.
    pub open spec fn available(self) -> Seq<ItemView> {
        self.items.filter(on_shelf())
    }

    /// The items by `author`, in catalogue order.
    pub open spec fn by_author(self, author: Seq<char>) -> Seq<ItemView> {
        self.items.filter(written_by(author))
    }

    /// Item `i` has the longest loan length, and every later item a shorter
    /// one: it is the last of the items with the longest loans.
    pub open spec fn last_longest(self, i: int) -> bool {
        &&& 0 <= i < self.items.len()
        &&& forall|j: int|
            0 <= j < self.items.len() ==> #[trigger] self.items[j].kind.days_for()
                <= self.items[i].kind.days_for()
        &&& forall|j: int|
            i < j < self.items.len() ==> #[trigger] self.items[j].kind.days_for()
                < self.items[i].kind.days_for()
    }
}

/// What `position_from` finds: the first matching index at or after
/// `start`, or none at all.
pub proof fn lemma_position_from(ids: Seq<u32>, id: u32, start: int)
    requires
        0 <= start,
    ensures
        match position_from(ids, id, start) {
            Some(i) => start <= i < ids.len() && ids[i] == id && forall|k: int|
                start <= k < i ==> ids[k] != id,
            None => forall|k: int| start <= k < ids.len() ==> ids[k] != id,
        },
    decreases ids.len() - start,
{
    if start < ids.len() && ids[start] != id {
        lemma_position_from(ids, id, start + 1);
    }
}

/// With unique ids, the position of an id is the one index that holds it.
pub proof fn lemma_position_unique(ids: Seq<u32>, id: u32, i: int)
    requires
        unique_ids(ids),
        0 <= i < ids.len(),
        ids[i] == id,
    ensures
        position_of(ids, id) == Some(i),
{
    lemma_position_from(ids, id, 0);
    match position_of(ids, id) {
        Some(p) => {
            if p != i {
                assert(ids[p] != ids[i]);
            }
        },
        None => {
            assert(ids[i] != id);
        },
    }
}

/// An id has a position exactly when it occurs.
pub proof fn lemma_position_contains(ids: Seq<u32>, id: u32)
    ensures
        position_of(ids, id) is Some <==> ids.contains(id),
{
    lemma_position_from(ids, id, 0);
    if ids.contains(id) {
        let k = choose|k: int| 0 <= k < ids.len() && ids[k] == id;
        assert(ids[k] == id);
    }
}

/// Selecting by flags that follow a predicate is filtering by it.
pub proof fn lemma_select_filter<T>(s: Seq<T>, keep: Seq<bool>, pred: spec_fn(T) -> bool)
    requires
        keep.len() == s.len(),
        forall|k: int| 0 <= k < s.len() ==> keep[k] == pred(#[trigger] s[k]),
    ensures
        select(s, keep) == s.filter(pred),
    decreases s.len(),
{
    reveal(Seq::filter);
    if s.len() > 0 {
        let shorter = s.drop_last();
        assert forall|k: int| 0 <= k < shorter.len() implies keep.drop_last()[k] == pred(
            #[trigger] shorter[k],
        ) by {
            assert(shorter[k] == s[k]);
        }
        lemma_select_filter(shorter, keep.drop_last(), pred);
        assert(keep.last() == pred(s[s.len() - 1]));
    }
}

fn remove_id(ids: &mut Vec<u32>, id: u32)
    ensures
        final(ids)@ == without(old(ids)@, id),
{
    let ghost given = ids@;
    let mut kept: Vec<u32> = Vec::new();
    let mut k: usize = 0;
    while k < ids.len()
        invariant
            0 <= k <= ids.len(),
            ids@ == given,
            kept@ == without(given.take(k as int), id),
        decreases ids.len() - k,
    {
        proof {
            reveal(Seq::filter);
        }
        let ghost longer = given.take(k + 1);
        assert(longer.drop_last() =~= given.take(k as int));
        assert(longer.last() == given[k as int]);
        assert(without(longer, id) == if given[k as int] != id {
            without(given.take(k as int), id).push(given[k as int])
        } else {
            without(given.take(k as int), id)
        });
        if ids[k] != id {
            kept.push(ids[k]);
        }
        k += 1;
    }
    assert(given.take(k as int) =~= given);
    *ids = kept;
}

impl Library {
    /// An empty library.
    pub fn new() -> (library: Self)
        ensures
            library@.items == Seq::<ItemView>::empty(),
            library@.members == Seq::<MemberView>::empty(),
            library@.consistent(),
    {
        let library = Library { items: Vec::new(), members: Vec::new() };
        assert(library@.items =~= Seq::<ItemView>::empty());
        assert(library@.members =~= Seq::<MemberView>::empty());
        library
    }

    fn item_position(&self, id: u32) -> (found: Option<usize>)
        ensures
            match found {
                Some(i) => self@.item_index(id) == Some(i as int),
                None => self@.item_index(id) is None,
            },
            found matches Some(i) ==> i < self.items.len(),
    {
        let ghost ids = self@.item_ids();
        let mut i: usize = 0;
        while i < self.items.len()
            invariant
                0 <= i <= self.items.len(),
                ids == self@.item_ids(),
                ids.len() == self.items.len(),
                position_from(ids, id, 0) == position_from(ids, id, i as int),
            decreases self.items.len() - i,
        {
            assert(ids[i as int] == self.items@[i as int].id);
            if self.items[i].id == id {
                return Some(i);
            }
            i += 1;
        }
        None
    }

    fn member_position(&self, id: u32) -> (found: Option<usize>)
        ensures
            match found {
                Some(j) => self@.member_index(id) == Some(j as int),
                None => self@.member_index(id) is None,
            },
            found matches Some(j) ==> j < self.members.len(),
    {
        let ghost ids = self@.member_ids();
        let mut j: usize = 0;
        while j < self.members.len()
            invariant
                0 <= j <= self.members.len(),
                ids == self@.member_ids(),
                ids.len() == self.members.len(),
                position_from(ids, id, 0) == position_from(ids, id, j as int),
            decreases self.members.len() - j,
        {
            assert(ids[j as int] == self.members@[j as int].id);
            if self.members[j].id == id {
                return Some(j);
            }
            j += 1;
        }
        None
    }

    /// Adds `item` to the end of the catalogue, unless its title is blank
    /// (`EmptyTitle`) or its id is taken (`DuplicateItemId`); a refused item
    /// is dropped.
    pub fn add_item(&mut self, item: Item) -> (result: Result<(), LibraryError>)
        ensures
            (final(self)@, result) == old(self)@.add_item_outcome(item@),
            old(self)@.consistent() && holder(item.status) is None ==> final(self)@.consistent(),
    {
        proof {
            if old(self)@.consistent() && holder(item.status) is None {
                lemma_add_item_keeps_consistency(old(self)@, item@);
            }
        }
        if is_blank(item.title.as_str()) {
            return Err(LibraryError::EmptyTitle);
        }
        proof {
            lemma_position_contains(self@.item_ids(), item.id);
        }
        if self.item_position(item.id).is_some() {
            return Err(LibraryError::DuplicateItemId { id: item.id });
        }
        let ghost before = self@;
        self.items.push(item);
        assert(self@.items =~= before.items.push(item@));
        Ok(())
    }

    /// Registers `member` at the end of the list, unless its id is taken
    /// (`DuplicateMemberId`).
    pub fn register_member(&mut self, member: Member) -> (result: Result<(), LibraryError>)
        ensures
            (final(self)@, result) == old(self)@.register_outcome(member@),
            old(self)@.consistent() && member@.borrowed.len() == 0 ==> final(self)@.consistent(),
    {
        proof {
            if old(self)@.consistent() && member@.borrowed.len() == 0 {
                lemma_register_keeps_consistency(old(self)@, member@);
            }
        }
        proof {
            lemma_position_contains(self@.member_ids(), member.id);
        }
        if self.member_position(member.id).is_some() {
            return Err(LibraryError::DuplicateMemberId { id: member.id });
        }
        let ghost before = self@;
        self.members.push(member);
        assert(self@.members =~= before.members.push(member@));
        Ok(())
    }

    /// The first item with this id.
    pub fn find_item(&self, id: u32) -> (found: Option<&Item>)
        ensures
            match self@.item_index(id) {
                Some(i) => found == Some(&self.items@[i]),
                None => found is None,
            },
    {
        match self.item_position(id) {
            Some(i) => Some(&self.items[i]),
            None => None,
        }
    }

    /// The first member with this id.
    pub fn find_member(&self, id: u32) -> (found: Option<&Member>)
        ensures
            match self@.member_index(id) {
                Some(j) => found == Some(&self.members@[j]),
                None => found is None,
            },
    {
        match self.member_position(id) {
            Some(j) => Some(&self.members[j]),
            None => None,
        }
    }

    /// Lends item `item_id` to member `member_id` from `day` on: the item is
    /// marked on loan and the member lists its id. Refused, with the library
    /// unchanged, as `checkout_outcome` says.
    pub fn checkout(&mut self, item_id: u32, member_id: u32, day: u32) -> (result: Result<(), LibraryError>)
        ensures
            (final(self)@, result) == old(self)@.checkout_outcome(item_id, member_id, day),
            old(self)@.consistent() ==> final(self)@.consistent(),
    {
        proof {
            if old(self)@.consistent() {
                lemma_checkout_keeps_consistency(old(self)@, item_id, member_id, day);
            }
        }
        let item_index = match self.item_position(item_id) {
            Some(i) => i,
            None => {
                return Err(LibraryError::ItemNotFound { id: item_id });
            },
        };
        let member_index = match self.member_position(member_id) {
            Some(j) => j,
            None => {
                return Err(LibraryError::MemberNotFound { id: member_id });
            },
        };
        proof {
            lemma_position_from(self@.item_ids(), item_id, 0);
            lemma_position_from(self@.member_ids(), member_id, 0);
        }
        match self.items[item_index].status {
            LoanStatus::Lost => {
                return Err(LibraryError::ItemIsLost { id: item_id });
            },
            // The item's own holder, not the member trying to borrow it.
            LoanStatus::OnLoan { member_id: current_holder, .. } => {
                return Err(LibraryError::ItemAlreadyOnLoan { id: item_id, member_id: current_holder });
            },
            LoanStatus::Available => {},
        }
        if self.members[member_index].borrowed_item_ids.len() >= MAX_ITEMS_PER_MEMBER {
            return Err(
                LibraryError::BorrowLimitReached { member_id, limit: MAX_ITEMS_PER_MEMBER },
            );
        }
        let ghost before = self@;
        self.items[item_index].status = LoanStatus::OnLoan { member_id, day_borrowed: day };
        self.members[member_index].borrowed_item_ids.push(item_id);
        proof {
            let after = before.checkout_outcome(item_id, member_id, day).0;
            assert(self@.items =~= after.items);
            assert(self@.members =~= after.members);
        }
        Ok(())
    }

    /// Takes item `item_id` back on `day`: the item returns to the shelf,
    /// its holder stops listing it, and the late fee, in cents, is returned.
    /// Refused, with the library unchanged, as `return_outcome` says.
    pub fn return_item(&mut self, item_id: u32, day: u32) -> (result: Result<u32, LibraryError>)
        requires
            old(self)@.return_fee_fits(item_id, day),
        ensures
            (final(self)@, result) == old(self)@.return_outcome(item_id, day),
            old(self)@.consistent() ==> final(self)@.consistent(),
    {
        proof {
            if old(self)@.consistent() {
                lemma_return_keeps_consistency(old(self)@, item_id, day);
            }
        }
        let item_index = match self.item_position(item_id) {
            Some(i) => i,
            None => {
                return Err(LibraryError::ItemNotFound { id: item_id });
            },
        };
        proof {
            lemma_position_from(self@.item_ids(), item_id, 0);
        }
        let (days_held, member_id) = match self.items[item_index].status {
            LoanStatus::Lost => {
                return Err(LibraryError::ItemIsLost { id: item_id });
            },
            LoanStatus::OnLoan { day_borrowed, member_id } => {
                let days_held = match day.checked_sub(day_borrowed) {
                    Some(days_held) => days_held,
                    None => {
                        return Err(
                            LibraryError::InvalidReturnDay { day_borrowed, day_returned: day },
                        );
                    },
                };
                (days_held, member_id)
            },
            LoanStatus::Available => {
                return Err(LibraryError::ItemNotOnLoan { id: item_id });
            },
        };
        let fee = self.items[item_index].late_fee_cents(days_held);
        let ghost before = self@;
        self.items[item_index].status = LoanStatus::Available;
        let holder_index = self.member_position(member_id);
        match holder_index {
            Some(j) => {
                remove_id(&mut self.members[j].borrowed_item_ids, item_id);
            },
            None => {},
        }
        proof {
            let after = before.return_outcome(item_id, day).0;
            assert(self@.items =~= after.items);
            assert(self@.members =~= after.members);
        }
        Ok(fee)
    }

    /// Every item that `predicate` accepts, in catalogue order, borrowed
    /// rather than cloned. `predicate` is asked once about each item, in order.
    pub fn filter_items<F>(&self, predicate: F) -> (found: Vec<&Item>) where F: Fn(&Item) -> bool
        requires
            forall|k: int| 0 <= k < self.items@.len() ==> call_requires(predicate, (&self.items@[k],)),
        ensures
            exists|keep: Seq<bool>|
                {
                    &&& keep.len() == self.items@.len()
                    &&& forall|k: int|
                        0 <= k < keep.len() ==> call_ensures(predicate, (&self.items@[k],), #[trigger] keep[k])
                    &&& views_of(found@) == select(self@.items, keep)
                },
    {
        let ghost mut keep: Seq<bool> = Seq::empty();
        let mut found: Vec<&Item> = Vec::new();
        let mut i: usize = 0;
        while i < self.items.len()
            invariant
                0 <= i <= self.items.len(),
                forall|k: int| 0 <= k < self.items@.len() ==> call_requires(predicate, (&self.items@[k],)),
                keep.len() == i,
                forall|k: int| 0 <= k < i ==> call_ensures(predicate, (&self.items@[k],), #[trigger] keep[k]),
                views_of(found@) == select(self@.items.take(i as int), keep),
            decreases self.items.len() - i,
        {
            let item = &self.items[i];
            let accepted = predicate(item);
            let ghost earlier = found@;
            if accepted {
                found.push(item);
            }
            proof {
                let taken = self@.items.take(i + 1);
                assert(taken.drop_last() =~= self@.items.take(i as int));
                assert(keep.push(accepted).drop_last() =~= keep);
                if accepted {
                    assert(views_of(found@) =~= views_of(earlier).push(item@));
                } else {
                    assert(views_of(found@) =~= views_of(earlier));
                }
                keep = keep.push(accepted);
            }
            i += 1;
        }
        assert(self@.items.take(i as int) =~= self@.items);
        found
    }

    /// The items whose author is `author`, in catalogue order, whether on the
    /// shelf or not.
    pub fn items_by_author<'a>(&'a self, author: &str) -> (found: Vec<&'a Item>)
        ensures
            views_of(found@) == self@.by_author(author@),
    {
        let wanted = author.to_owned();
        let by_wanted = |item: &Item| -> (matches: bool)
            ensures
                matches == (item.author@ == wanted@),
            { item.author == wanted };
        let found = self.filter_items(by_wanted);
        proof {
            let keep = choose|keep: Seq<bool>|
                {
                    &&& keep.len() == self.items@.len()
                    &&& forall|k: int|
                        0 <= k < keep.len() ==> call_ensures(
                            by_wanted,
                            (&self.items@[k],),
                            #[trigger] keep[k],
                        )
                    &&& views_of(found@) == select(self@.items, keep)
                };
            lemma_select_filter(self@.items, keep, written_by(author@));
        }
        found
    }

    /// The items on the shelf, in catalogue order.
    pub fn available_items(&self) -> (found: Vec<&Item>)
        ensures
            views_of(found@) == self@.available(),
    {
        let shelved = |item: &Item| -> (on: bool)
            ensures
                on == (item.status == LoanStatus::Available),
            { item.status == LoanStatus::Available };
        let found = self.filter_items(shelved);
        proof {
            let keep = choose|keep: Seq<bool>|
                {
                    &&& keep.len() == self.items@.len()
                    &&& forall|k: int|
                        0 <= k < keep.len() ==> call_ensures(
                            shelved,
                            (&self.items@[k],),
                            #[trigger] keep[k],
                        )
                    &&& views_of(found@) == select(self@.items, keep)
                };
            lemma_select_filter(self@.items, keep, on_shelf());
        }
        found
    }

    /// The last of the items with the longest loan length; none when the
    /// catalogue is empty.
    pub fn longest_loan_item(&self) -> (longest: Option<&Item>)
        ensures
            match longest {
                None => self.items@.len() == 0,
                Some(item) => exists|i: int| self@.last_longest(i) && item == &self.items@[i],
            },
    {
        if self.items.len() == 0 {
            return None;
        }
        let mut best: usize = 0;
        let mut best_days = self.items[0].loan_days();
        let mut i: usize = 1;
        while i < self.items.len()
            invariant
                1 <= i <= self.items.len(),
                best < i,
                best_days == self@.items[best as int].kind.days_for(),
                forall|j: int| 0 <= j < i ==> #[trigger] self@.items[j].kind.days_for() <= best_days,
                forall|j: int| best < j < i ==> #[trigger] self@.items[j].kind.days_for() < best_days,
            decreases self.items.len() - i,
        {
            let days = self.items[i].loan_days();
            if days >= best_days {
                best = i;
                best_days = days;
            }
            i += 1;
        }
        assert(self@.last_longest(best as int));
        Some(&self.items[best])
    }
}

impl Default for Library {
    fn default() -> (library: Self)
        ensures
            library@.items == Seq::<ItemView>::empty(),
            library@.members == Seq::<MemberView>::empty(),
            library@.consistent(),
    {
        Library::new()
    }
}

} // verus!
