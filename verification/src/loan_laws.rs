//! What every operation of the library keeps, what each one does to the
//! items and members it touches, and how operations combine.

use vstd::prelude::*;

use crate::catalogue::{late_fee, ItemView, LoanStatus};
use crate::error::LibraryError;
use crate::library::{
    holder, lemma_position_contains, lemma_position_from, lemma_position_unique, unique_ids,
    without, LibraryView, MAX_ITEMS_PER_MEMBER,
};
use crate::member::MemberView;
use crate::text::all_white_space;

verus! {

/// What taking an id out of a list leaves: no occurrence of the id, nothing
/// that was not there, everything else, no more entries, and no repeated
/// entry if there was none.
pub proof fn lemma_without(ids: Seq<u32>, id: u32)
    ensures
        without(ids, id).len() <= ids.len(),
        forall|k: int|
            0 <= k < without(ids, id).len() ==> #[trigger] without(ids, id)[k] != id && ids.contains(
                without(ids, id)[k],
            ),
        forall|x: u32| ids.contains(x) && x != id ==> #[trigger] without(ids, id).contains(x),
        unique_ids(ids) ==> unique_ids(without(ids, id)),
        !ids.contains(id) ==> without(ids, id) == ids,
    decreases ids.len(),
{
    reveal(Seq::filter);
    if ids.len() > 0 {
        let rest = ids.drop_last();
        let last = ids.last();
        lemma_without(rest, id);
        let w = without(ids, id);
        let wr = without(rest, id);
        assert(w == if last != id { wr.push(last) } else { wr });
        assert forall|k: int| 0 <= k < w.len() implies #[trigger] w[k] != id && ids.contains(w[k]) by {
            if k < wr.len() {
                assert(w[k] == wr[k]);
                assert(rest.contains(wr[k]));
                let r = choose|r: int| 0 <= r < rest.len() && rest[r] == wr[k];
                assert(ids[r] == wr[k]);
            } else {
                assert(ids[ids.len() - 1] == last);
            }
        }
        assert forall|x: u32| ids.contains(x) && x != id implies #[trigger] w.contains(x) by {
            let r = choose|r: int| 0 <= r < ids.len() && ids[r] == x;
            if r < ids.len() - 1 {
                assert(rest[r] == x);
                assert(wr.contains(x));
                let q = choose|q: int| 0 <= q < wr.len() && wr[q] == x;
                assert(w[q] == x);
            } else {
                assert(w[w.len() - 1] == x);
            }
        }
        if unique_ids(ids) {
            assert(unique_ids(rest)) by {
                assert forall|a: int, b: int|
                    0 <= a < rest.len() && 0 <= b < rest.len() && a != b implies #[trigger] rest[a]
                    != #[trigger] rest[b] by {
                    assert(ids[a] != ids[b]);
                }
            }
            if last != id {
                assert forall|a: int, b: int|
                    0 <= a < w.len() && 0 <= b < w.len() && a != b implies #[trigger] w[a]
                    != #[trigger] w[b] by {
                    if a < wr.len() && b < wr.len() {
                        assert(w[a] == wr[a] && w[b] == wr[b]);
                    } else if a < wr.len() {
                        assert(w[a] == wr[a]);
                        assert(rest.contains(wr[a]));
                        let r = choose|r: int| 0 <= r < rest.len() && rest[r] == wr[a];
                        assert(ids[r] != ids[ids.len() - 1]);
                    } else if b < wr.len() {
                        assert(w[b] == wr[b]);
                        assert(rest.contains(wr[b]));
                        let r = choose|r: int| 0 <= r < rest.len() && rest[r] == wr[b];
                        assert(ids[r] != ids[ids.len() - 1]);
                    }
                }
            }
        }
        if !ids.contains(id) {
            assert(!rest.contains(id)) by {
                if rest.contains(id) {
                    let r = choose|r: int| 0 <= r < rest.len() && rest[r] == id;
                    assert(ids[r] == id);
                }
            }
            assert(last != id) by {
                assert(ids[ids.len() - 1] == last);
            }
            assert(w =~= ids);
        }
    }
}

/// Adding an item that is not on loan keeps the library consistent.
pub proof fn lemma_add_item_keeps_consistency(library: LibraryView, item: ItemView)
    requires
        library.consistent(),
        holder(item.status) is None,
    ensures
        library.add_item_outcome(item).0.consistent(),
{
    let after = library.add_item_outcome(item).0;
    if after != library {
        assert(after.item_ids() =~= library.item_ids().push(item.id));
        assert(after.member_ids() =~= library.member_ids());
        assert forall|a: int, b: int|
            0 <= a < after.item_ids().len() && 0 <= b < after.item_ids().len() && a != b implies #[trigger] after.item_ids()[a]
            != #[trigger] after.item_ids()[b] by {
            if a < library.items.len() && b < library.items.len() {
                assert(library.item_ids()[a] != library.item_ids()[b]);
            } else if a < library.items.len() {
                assert(library.item_ids()[a] == after.item_ids()[a]);
            } else {
                assert(library.item_ids()[b] == after.item_ids()[b]);
            }
        }
        assert forall|i: int| 0 <= i < after.items.len() implies #[trigger] after.loan_listed(i) by {
            if i < library.items.len() {
                assert(library.loan_listed(i));
                if let Some(member_id) = holder(library.items[i].status) {
                    let j = choose|j: int|
                        0 <= j < library.members.len() && #[trigger] library.members[j].id == member_id
                            && library.members[j].borrowed.contains(library.items[i].id);
                    assert(after.members[j].id == member_id);
                }
            }
        }
        assert forall|j: int, k: int|
            0 <= j < after.members.len() && 0 <= k < after.members[j].borrowed.len() implies #[trigger] after.entry_backed(
            j,
            k,
        ) by {
            assert(library.entry_backed(j, k));
            let i = choose|i: int|
                0 <= i < library.items.len() && #[trigger] library.items[i].id
                    == library.members[j].borrowed[k] && holder(library.items[i].status) == Some(
                    library.members[j].id,
                );
            assert(after.items[i].id == after.members[j].borrowed[k]);
        }
    }
}

/// Registering a member that holds nothing keeps the library consistent.
pub proof fn lemma_register_keeps_consistency(library: LibraryView, member: MemberView)
    requires
        library.consistent(),
        member.borrowed.len() == 0,
    ensures
        library.register_outcome(member).0.consistent(),
{
    let after = library.register_outcome(member).0;
    if after != library {
        assert(after.item_ids() =~= library.item_ids());
        assert(after.member_ids() =~= library.member_ids().push(member.id));
        assert forall|a: int, b: int|
            0 <= a < after.member_ids().len() && 0 <= b < after.member_ids().len() && a != b implies #[trigger] after.member_ids()[a]
            != #[trigger] after.member_ids()[b] by {
            if a < library.members.len() && b < library.members.len() {
                assert(library.member_ids()[a] != library.member_ids()[b]);
            } else if a < library.members.len() {
                assert(library.member_ids()[a] == after.member_ids()[a]);
            } else {
                assert(library.member_ids()[b] == after.member_ids()[b]);
            }
        }
        assert forall|i: int| 0 <= i < after.items.len() implies #[trigger] after.loan_listed(i) by {
            assert(library.loan_listed(i));
            if let Some(member_id) = holder(library.items[i].status) {
                let j = choose|j: int|
                    0 <= j < library.members.len() && #[trigger] library.members[j].id == member_id
                        && library.members[j].borrowed.contains(library.items[i].id);
                assert(after.members[j].id == member_id);
            }
        }
        assert forall|j: int, k: int|
            0 <= j < after.members.len() && 0 <= k < after.members[j].borrowed.len() implies #[trigger] after.entry_backed(
            j,
            k,
        ) by {
            assert(j < library.members.len());
            assert(library.entry_backed(j, k));
            let i = choose|i: int|
                0 <= i < library.items.len() && #[trigger] library.items[i].id
                    == library.members[j].borrowed[k] && holder(library.items[i].status) == Some(
                    library.members[j].id,
                );
            assert(after.items[i].id == after.members[j].borrowed[k]);
        }
        assert forall|j: int| 0 <= j < after.members.len() implies unique_ids(
            #[trigger] after.members[j].borrowed,
        ) && after.members[j].borrowed.len() <= MAX_ITEMS_PER_MEMBER by {
            if j < library.members.len() {
                assert(after.members[j] == library.members[j]);
            }
        }
    }
}

/// Lending an item keeps the library consistent.
pub proof fn lemma_checkout_keeps_consistency(
    library: LibraryView,
    item_id: u32,
    member_id: u32,
    day: u32,
)
    requires
        library.consistent(),
    ensures
        library.checkout_outcome(item_id, member_id, day).0.consistent(),
{
    let after = library.checkout_outcome(item_id, member_id, day).0;
    if library.checkout_outcome(item_id, member_id, day).1 is Ok {
        let i = library.item_index(item_id)->0;
        let j = library.member_index(member_id)->0;
        lemma_position_from(library.item_ids(), item_id, 0);
        lemma_position_from(library.member_ids(), member_id, 0);
        assert(library.items[i].id == item_id);
        assert(library.members[j].id == member_id);
        assert(after.item_ids() =~= library.item_ids());
        assert(after.member_ids() =~= library.member_ids());
        let old_list = library.members[j].borrowed;
        // The lent item was on the shelf, so no member listed it.
        assert(!old_list.contains(item_id)) by {
            if old_list.contains(item_id) {
                let k = choose|k: int| 0 <= k < old_list.len() && old_list[k] == item_id;
                assert(library.entry_backed(j, k));
                let i2 = choose|i2: int|
                    0 <= i2 < library.items.len() && #[trigger] library.items[i2].id
                        == library.members[j].borrowed[k] && holder(library.items[i2].status)
                        == Some(library.members[j].id);
                assert(library.item_ids()[i2] == library.item_ids()[i]);
            }
        }
        assert forall|i2: int| 0 <= i2 < after.items.len() implies #[trigger] after.loan_listed(i2) by {
            if i2 == i {
                assert(after.members[j].id == member_id);
                assert(after.members[j].borrowed[old_list.len() as int] == item_id);
            } else {
                assert(after.items[i2] == library.items[i2]);
                assert(library.loan_listed(i2));
                if let Some(h) = holder(library.items[i2].status) {
                    let j2 = choose|j2: int|
                        0 <= j2 < library.members.len() && #[trigger] library.members[j2].id == h
                            && library.members[j2].borrowed.contains(library.items[i2].id);
                    assert(after.members[j2].id == h);
                    let k = choose|k: int|
                        0 <= k < library.members[j2].borrowed.len()
                            && library.members[j2].borrowed[k] == library.items[i2].id;
                    assert(after.members[j2].borrowed[k] == library.items[i2].id);
                }
            }
        }
        assert forall|j2: int, k: int|
            0 <= j2 < after.members.len() && 0 <= k < after.members[j2].borrowed.len() implies #[trigger] after.entry_backed(
            j2,
            k,
        ) by {
            if j2 == j && k == old_list.len() {
                assert(after.items[i].id == after.members[j2].borrowed[k]);
            } else {
                assert(after.members[j2].borrowed[k] == library.members[j2].borrowed[k]);
                assert(library.entry_backed(j2, k));
                let i2 = choose|i2: int|
                    0 <= i2 < library.items.len() && #[trigger] library.items[i2].id
                        == library.members[j2].borrowed[k] && holder(library.items[i2].status)
                        == Some(library.members[j2].id);
                assert(i2 != i);
                assert(after.items[i2].id == after.members[j2].borrowed[k]);
            }
        }
        assert forall|j2: int| 0 <= j2 < after.members.len() implies unique_ids(
            #[trigger] after.members[j2].borrowed,
        ) && after.members[j2].borrowed.len() <= MAX_ITEMS_PER_MEMBER by {
            if j2 == j {
                let new_list = after.members[j2].borrowed;
                assert(unique_ids(old_list));
                assert forall|a: int, b: int|
                    0 <= a < new_list.len() && 0 <= b < new_list.len() && a != b implies #[trigger] new_list[a]
                    != #[trigger] new_list[b] by {
                    if a < old_list.len() && b < old_list.len() {
                        assert(old_list[a] != old_list[b]);
                    } else if a < old_list.len() {
                        assert(old_list[a] == new_list[a]);
                    } else {
                        assert(old_list[b] == new_list[b]);
                    }
                }
            } else {
                assert(after.members[j2] == library.members[j2]);
            }
        }
    }
}

/// Taking an item back keeps the library consistent.
pub proof fn lemma_return_keeps_consistency(library: LibraryView, item_id: u32, day: u32)
    requires
        library.consistent(),
    ensures
        library.return_outcome(item_id, day).0.consistent(),
{
    let after = library.return_outcome(item_id, day).0;
    if library.return_outcome(item_id, day).1 is Ok {
        let i = library.item_index(item_id)->0;
        lemma_position_from(library.item_ids(), item_id, 0);
        let h = holder(library.items[i].status)->0;
        lemma_position_from(library.member_ids(), h, 0);
        assert(library.items[i].id == item_id);
        assert(after.item_ids() =~= library.item_ids());
        assert(after.member_ids() =~= library.member_ids());
        // Every listing of an item other than this one survives.
        assert forall|j2: int, x: u32|
            0 <= j2 < library.members.len() && library.members[j2].borrowed.contains(x) && x != item_id
            implies #[trigger] after.members[j2].borrowed.contains(x) by {
            lemma_without(library.members[j2].borrowed, item_id);
        }
        assert forall|i2: int| 0 <= i2 < after.items.len() implies #[trigger] after.loan_listed(i2) by {
            if i2 != i {
                assert(after.items[i2] == library.items[i2]);
                assert(library.loan_listed(i2));
                assert(library.item_ids()[i2] != library.item_ids()[i]);
                if let Some(h2) = holder(library.items[i2].status) {
                    let j2 = choose|j2: int|
                        0 <= j2 < library.members.len() && #[trigger] library.members[j2].id == h2
                            && library.members[j2].borrowed.contains(library.items[i2].id);
                    assert(after.members[j2].id == h2);
                    assert(after.members[j2].borrowed.contains(library.items[i2].id));
                }
            }
        }
        assert forall|j2: int, k: int|
            0 <= j2 < after.members.len() && 0 <= k < after.members[j2].borrowed.len() implies #[trigger] after.entry_backed(
            j2,
            k,
        ) by {
            let entry = after.members[j2].borrowed[k];
            lemma_without(library.members[j2].borrowed, item_id);
            if library.member_index(h) == Some(j2) {
                assert(entry != item_id);
                assert(library.members[j2].borrowed.contains(entry));
                let k2 = choose|k2: int|
                    0 <= k2 < library.members[j2].borrowed.len() && library.members[j2].borrowed[k2]
                        == entry;
                assert(library.entry_backed(j2, k2));
                let i2 = choose|i2: int|
                    0 <= i2 < library.items.len() && #[trigger] library.items[i2].id
                        == library.members[j2].borrowed[k2] && holder(library.items[i2].status)
                        == Some(library.members[j2].id);
                assert(i2 != i);
                assert(after.items[i2].id == entry);
            } else {
                assert(after.members[j2] == library.members[j2]);
                assert(library.entry_backed(j2, k));
                let i2 = choose|i2: int|
                    0 <= i2 < library.items.len() && #[trigger] library.items[i2].id
                        == library.members[j2].borrowed[k] && holder(library.items[i2].status)
                        == Some(library.members[j2].id);
                if i2 == i {
                    assert(library.member_ids()[j2] == h);
                    lemma_position_unique(library.member_ids(), h, j2);
                }
                assert(after.items[i2].id == entry);
            }
        }
        assert forall|j2: int| 0 <= j2 < after.members.len() implies unique_ids(
            #[trigger] after.members[j2].borrowed,
        ) && after.members[j2].borrowed.len() <= MAX_ITEMS_PER_MEMBER by {
            lemma_without(library.members[j2].borrowed, item_id);
        }
    }
}

/// A refused request leaves the library as it was: adding an item,
/// registering a member, lending and taking back.
pub proof fn lemma_refusals_change_nothing(
    library: LibraryView,
    item: ItemView,
    member: MemberView,
    item_id: u32,
    member_id: u32,
    day: u32,
)
    ensures
        library.add_item_outcome(item).1 is Err ==> library.add_item_outcome(item).0 == library,
        library.register_outcome(member).1 is Err ==> library.register_outcome(member).0 == library,
        library.checkout_outcome(item_id, member_id, day).1 is Err ==> library.checkout_outcome(
            item_id,
            member_id,
            day,
        ).0 == library,
        library.return_outcome(item_id, day).1 is Err ==> library.return_outcome(item_id, day).0
            == library,
{
}

/// An item that was just lent cannot be lent again, to anyone registered:
/// the refusal names the member who holds it.
pub proof fn lemma_no_second_loan(
    library: LibraryView,
    item_id: u32,
    member_id: u32,
    day: u32,
    other_member_id: u32,
    other_day: u32,
)
    requires
        library.checkout_outcome(item_id, member_id, day).1 is Ok,
        library.member_index(other_member_id) is Some,
    ensures
        ({
            let after = library.checkout_outcome(item_id, member_id, day).0;
            after.checkout_outcome(item_id, other_member_id, other_day) == (
                after,
                Err::<(), LibraryError>(
                    LibraryError::ItemAlreadyOnLoan { id: item_id, member_id },
                ),
            )
        }),
{
    let after = library.checkout_outcome(item_id, member_id, day).0;
    lemma_position_from(library.item_ids(), item_id, 0);
    lemma_position_from(library.member_ids(), member_id, 0);
    assert(after.item_ids() =~= library.item_ids());
    assert(after.member_ids() =~= library.member_ids());
}

/// Lending an item and taking it back, no earlier than it was lent, leaves
/// the library exactly as it was and owes the late fee for the days held.
pub proof fn lemma_return_undoes_checkout(
    library: LibraryView,
    item_id: u32,
    member_id: u32,
    day: u32,
    return_day: u32,
)
    requires
        library.consistent(),
        library.checkout_outcome(item_id, member_id, day).1 is Ok,
        day <= return_day,
    ensures
        ({
            let lent = library.checkout_outcome(item_id, member_id, day).0;
            let i = library.item_index(item_id)->0;
            lent.return_outcome(item_id, return_day) == (
                library,
                Ok::<u32, LibraryError>(library.fee_at(i, day, return_day) as u32),
            )
        }),
{
    let lent = library.checkout_outcome(item_id, member_id, day).0;
    let i = library.item_index(item_id)->0;
    let j = library.member_index(member_id)->0;
    lemma_position_from(library.item_ids(), item_id, 0);
    lemma_position_from(library.member_ids(), member_id, 0);
    assert(lent.item_ids() =~= library.item_ids());
    assert(lent.member_ids() =~= library.member_ids());
    let old_list = library.members[j].borrowed;
    assert(!old_list.contains(item_id)) by {
        if old_list.contains(item_id) {
            let k = choose|k: int| 0 <= k < old_list.len() && old_list[k] == item_id;
            assert(library.entry_backed(j, k));
            let i2 = choose|i2: int|
                0 <= i2 < library.items.len() && #[trigger] library.items[i2].id
                    == library.members[j].borrowed[k] && holder(library.items[i2].status) == Some(
                    library.members[j].id,
                );
            assert(library.item_ids()[i2] == library.item_ids()[i]);
        }
    }
    reveal(Seq::filter);
    assert(old_list.push(item_id).drop_last() =~= old_list);
    assert(without(old_list.push(item_id), item_id) == without(old_list, item_id));
    lemma_without(old_list, item_id);
    let back = lent.return_outcome(item_id, return_day).0;
    assert(back.items =~= library.items);
    assert(back.members =~= library.members);
}

/// Stocking an item succeeds exactly when its title is not all white space
/// and its id is not taken, whatever else is stocked (another copy of the
/// same title included); the item then joins the end of the catalogue and
/// the members stay as they were.
pub proof fn lemma_add_item_appends(library: LibraryView, item: ItemView)
    ensures
        library.add_item_outcome(item).1 is Ok <==> !all_white_space(item.title)
            && !library.item_ids().contains(item.id),
        library.add_item_outcome(item).1 is Ok ==> library.add_item_outcome(item).0.items
            == library.items.push(item) && library.add_item_outcome(item).0.members
            == library.members,
{
}

/// Lending item `i` of a consistent library to member `j` on `day` succeeds
/// exactly when the item is on the shelf and the member is under the limit.
/// It then records exactly that loan, for items of every kind: the item is on
/// loan to the member since `day`, its other fields kept; the member lists it
/// last; every other item and member stays as it was.
pub proof fn lemma_checkout_records_loan(library: LibraryView, i: int, j: int, day: u32)
    requires
        library.consistent(),
        0 <= i < library.items.len(),
        0 <= j < library.members.len(),
    ensures
        ({
            let item = library.items[i];
            let member = library.members[j];
            let outcome = library.checkout_outcome(item.id, member.id, day);
            let after = outcome.0;
            &&& outcome.1 is Ok <==> item.status == LoanStatus::Available && member.borrowed.len()
                < MAX_ITEMS_PER_MEMBER
            &&& outcome.1 is Ok ==> {
                &&& after.items.len() == library.items.len()
                &&& after.members.len() == library.members.len()
                &&& after.items[i].status == LoanStatus::OnLoan {
                    member_id: member.id,
                    day_borrowed: day,
                }
                &&& after.items[i].id == item.id
                &&& after.items[i].title == item.title
                &&& after.items[i].author == item.author
                &&& after.items[i].kind == item.kind
                &&& after.members[j].id == member.id
                &&& after.members[j].name == member.name
                &&& after.members[j].borrowed == member.borrowed.push(item.id)
                &&& forall|k: int|
                    0 <= k < library.items.len() && k != i ==> after.items[k] == library.items[k]
                &&& forall|k: int|
                    0 <= k < library.members.len() && k != j ==> after.members[k]
                        == library.members[k]
            }
        }),
{
    lemma_position_unique(library.item_ids(), library.items[i].id, i);
    lemma_position_unique(library.member_ids(), library.members[j].id, j);
}

/// Taking back item `i` of a consistent library, on loan since
/// `day_borrowed`, on a day no earlier owes the late fee for the days held at
/// the rates of the item's kind, whatever else its holder holds and in
/// whatever order it was lent; the item goes back on the shelf, its other
/// fields kept.
pub proof fn lemma_return_charges_late_fee(library: LibraryView, i: int, day: u32)
    requires
        library.consistent(),
        0 <= i < library.items.len(),
        library.items[i].status matches LoanStatus::OnLoan { day_borrowed, .. }
            && day_borrowed <= day,
    ensures
        ({
            let item = library.items[i];
            let day_borrowed = item.status->day_borrowed;
            let outcome = library.return_outcome(item.id, day);
            &&& outcome.1 == Ok::<u32, LibraryError>(
                late_fee(
                    day - day_borrowed,
                    item.kind.days_for() as int,
                    item.kind.fee_for() as int,
                ) as u32,
            )
            &&& outcome.0.items.len() == library.items.len()
            &&& outcome.0.items[i] == ItemView { status: LoanStatus::Available, ..item }
        }),
{
    lemma_position_unique(library.item_ids(), library.items[i].id, i);
}

/// An item is listed by author `author` exactly when its author is
/// `author`, whatever its kind or status, and the list keeps catalogue order:
/// it is the catalogue filtered by author equality alone.
pub proof fn lemma_by_author_is_author_equality(library: LibraryView, author: Seq<char>)
    ensures
        library.by_author(author) == library.items.filter(|item: ItemView| item.author == author),
        forall|item: ItemView|
            #[trigger] library.by_author(author).contains(item) <==> library.items.contains(item)
                && item.author == author,
{
    let pred = |item: ItemView| item.author == author;
    assert(crate::library::written_by(author) =~= pred);
    assert forall|item: ItemView|
        #[trigger] library.by_author(author).contains(item) <==> library.items.contains(item)
            && item.author == author by {
        if library.by_author(author).contains(item) {
            library.items.lemma_filter_contains_rev(pred, item);
            let k = choose|k: int|
                0 <= k < library.by_author(author).len() && library.by_author(author)[k] == item;
            library.items.lemma_filter_pred(pred, k);
        }
        if library.items.contains(item) && item.author == author {
            let k = choose|k: int| 0 <= k < library.items.len() && library.items[k] == item;
            library.items.lemma_filter_contains(pred, k);
        }
    }
}

/// Registering a member succeeds exactly when its id is not taken; the
/// member then joins the end of the list and the catalogue stays as it was.
pub proof fn lemma_register_appends(library: LibraryView, member: MemberView)
    ensures
        library.register_outcome(member).1 is Ok <==> !library.member_ids().contains(member.id),
        library.register_outcome(member).1 is Ok ==> library.register_outcome(member).0.members
            == library.members.push(member) && library.register_outcome(member).0.items
            == library.items,
{
}

/// Lending an item that is not catalogued is refused as an unknown item;
/// lending a catalogued item to someone who is not registered is refused as
/// an unknown member.
pub proof fn lemma_checkout_unknown_ids(library: LibraryView, item_id: u32, member_id: u32, day: u32)
    ensures
        !library.item_ids().contains(item_id) ==> library.checkout_outcome(item_id, member_id, day).1
            == Err::<(), LibraryError>(LibraryError::ItemNotFound { id: item_id }),
        library.item_ids().contains(item_id) && !library.member_ids().contains(member_id)
            ==> library.checkout_outcome(item_id, member_id, day).1 == Err::<(), LibraryError>(
            LibraryError::MemberNotFound { id: member_id },
        ),
{
    lemma_position_contains(library.item_ids(), item_id);
    lemma_position_contains(library.member_ids(), member_id);
}

/// Taking back an item that is not catalogued, is on the shelf, is lost, or
/// is brought back before the day it was lent, is refused with the matching
/// error.
pub proof fn lemma_return_refusals(library: LibraryView, i: int, item_id: u32, day: u32)
    requires
        library.consistent(),
        0 <= i < library.items.len(),
    ensures
        !library.item_ids().contains(item_id) ==> library.return_outcome(item_id, day).1
            == Err::<u32, LibraryError>(LibraryError::ItemNotFound { id: item_id }),
        ({
            let item = library.items[i];
            let answer = library.return_outcome(item.id, day).1;
            &&& item.status == LoanStatus::Available ==> answer == Err::<u32, LibraryError>(
                LibraryError::ItemNotOnLoan { id: item.id },
            )
            &&& item.status == LoanStatus::Lost ==> answer == Err::<u32, LibraryError>(
                LibraryError::ItemIsLost { id: item.id },
            )
            &&& item.status is OnLoan && day < item.status->day_borrowed ==> answer == Err::<
                u32,
                LibraryError,
            >(
                LibraryError::InvalidReturnDay {
                    day_borrowed: item.status->day_borrowed,
                    day_returned: day,
                },
            )
        }),
{
    lemma_position_contains(library.item_ids(), item_id);
    lemma_position_unique(library.item_ids(), library.items[i].id, i);
}

/// An item is listed as available exactly when it is on the shelf, and the
/// list keeps catalogue order: it is the catalogue filtered by that status
/// alone.
pub proof fn lemma_available_is_on_shelf(library: LibraryView)
    ensures
        library.available() == library.items.filter(
            |item: ItemView| item.status == LoanStatus::Available,
        ),
        forall|item: ItemView|
            #[trigger] library.available().contains(item) <==> library.items.contains(item)
                && item.status == LoanStatus::Available,
{
    let pred = |item: ItemView| item.status == LoanStatus::Available;
    assert(crate::library::on_shelf() =~= pred);
    assert forall|item: ItemView|
        #[trigger] library.available().contains(item) <==> library.items.contains(item)
            && item.status == LoanStatus::Available by {
        if library.available().contains(item) {
            library.items.lemma_filter_contains_rev(pred, item);
            let k = choose|k: int|
                0 <= k < library.available().len() && library.available()[k] == item;
            library.items.lemma_filter_pred(pred, k);
        }
        if library.items.contains(item) && item.status == LoanStatus::Available {
            let k = choose|k: int| 0 <= k < library.items.len() && library.items[k] == item;
            library.items.lemma_filter_contains(pred, k);
        }
    }
}

/// Of the items with the longest loan length, the one reported is the last
/// in the catalogue: no item after it lends as long, and none lends longer.
pub proof fn lemma_longest_is_last_of_ties(library: LibraryView, i: int, k: int)
    requires
        library.last_longest(i),
        0 <= k < library.items.len(),
    ensures
        library.items[k].kind.days_for() <= library.items[i].kind.days_for(),
        library.items[k].kind.days_for() == library.items[i].kind.days_for() ==> k <= i,
{
}

} // verus!
