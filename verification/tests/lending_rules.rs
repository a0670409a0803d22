use rfb_labs::{Item, Library, LibraryError, LoanStatus, LoanTerms, MediaKind, Member};

fn small_library() -> Library {
    let mut library = Library::new();
    library
        .add_item(Item::new(
            1,
            "Dune".to_string(),
            "Frank Herbert".to_string(),
            MediaKind::Book { pages: 320 },
        ))
        .unwrap();
    library
        .add_item(Item::new(
            2,
            "Children of Dune".to_string(),
            "Frank Herbert".to_string(),
            MediaKind::Book { pages: 180 },
        ))
        .unwrap();
    library
        .add_item(Item::new(
            3,
            "Project Hail Mary".to_string(),
            "Andy Weir".to_string(),
            MediaKind::Audiobook { minutes: 540 },
        ))
        .unwrap();
    library
        .register_member(Member::new(100, "Ada".to_string()))
        .unwrap();
    library
        .register_member(Member::new(200, "Grace".to_string()))
        .unwrap();
    library
}

#[test]
fn a_title_of_only_white_space_is_blank() {
    let mut library = Library::new();
    let blank = Item::new(7, " \t\n\u{3000}".to_string(), "X".to_string(), MediaKind::Ebook { size_kb: 1 });
    assert_eq!(library.add_item(blank), Err(LibraryError::EmptyTitle));
    let padded = Item::new(8, "  Dune  ".to_string(), "X".to_string(), MediaKind::Ebook { size_kb: 1 });
    assert_eq!(library.add_item(padded), Ok(()));
    assert_eq!(library.find_item(8).unwrap().title, "  Dune  ");
}

#[test]
fn a_second_member_is_told_who_holds_the_item() {
    let mut library = small_library();
    library.checkout(1, 100, 5).unwrap();
    assert_eq!(
        library.checkout(1, 200, 6),
        Err(LibraryError::ItemAlreadyOnLoan { id: 1, member_id: 100 })
    );
    assert!(library.find_member(200).unwrap().borrowed_item_ids.is_empty());
}

#[test]
fn returning_undoes_a_checkout() {
    let mut library = small_library();
    library.checkout(2, 200, 3).unwrap();
    library.checkout(1, 100, 5).unwrap();
    assert_eq!(library.return_item(1, 5), Ok(0));
    assert_eq!(library.find_item(1).unwrap().status, LoanStatus::Available);
    assert!(library.find_member(100).unwrap().borrowed_item_ids.is_empty());
    assert_eq!(library.find_member(200).unwrap().borrowed_item_ids, vec![2]);
    assert_eq!(
        library.find_item(2).unwrap().status,
        LoanStatus::OnLoan { member_id: 200, day_borrowed: 3 }
    );
}

#[test]
fn a_refused_checkout_changes_nothing() {
    let mut library = small_library();
    library.checkout(1, 100, 0).unwrap();
    library.checkout(2, 100, 0).unwrap();
    library.checkout(3, 100, 0).unwrap();
    library
        .add_item(Item::new(4, "Extra".to_string(), "Y".to_string(), MediaKind::Book { pages: 1 }))
        .unwrap();
    assert_eq!(
        library.checkout(4, 100, 1),
        Err(LibraryError::BorrowLimitReached { member_id: 100, limit: 3 })
    );
    assert_eq!(library.find_item(4).unwrap().status, LoanStatus::Available);
    assert_eq!(library.find_member(100).unwrap().borrowed_item_ids, vec![1, 2, 3]);
}

#[test]
fn the_last_of_the_longest_loans_is_chosen() {
    let library = small_library();
    let longest = library.longest_loan_item().unwrap();
    assert_eq!(longest.id, 2);
    assert!(Library::new().longest_loan_item().is_none());
}

#[test]
fn filtering_keeps_catalogue_order() {
    let library = small_library();
    let found = library.filter_items(|item| item.id != 2);
    let ids: Vec<u32> = found.iter().map(|item| item.id).collect();
    assert_eq!(ids, vec![1, 3]);
    assert!(library.items_by_author("Nobody").is_empty());
}

#[test]
fn unknown_ids_find_nothing() {
    let library = small_library();
    assert!(library.find_item(42).is_none());
    assert!(library.find_member(42).is_none());
    assert_eq!(library.find_member(200).unwrap().name, "Grace");
}

#[test]
fn returning_an_unknown_item_is_rejected() {
    let mut library = small_library();
    assert_eq!(library.return_item(9, 1), Err(LibraryError::ItemNotFound { id: 9 }));
}

#[test]
fn late_fees_follow_the_kind() {
    let book = MediaKind::Book { pages: 1 };
    let audiobook = MediaKind::Audiobook { minutes: 1 };
    let ebook = MediaKind::Ebook { size_kb: 1 };
    assert_eq!(book.loan_days(), 21);
    assert_eq!(audiobook.loan_days(), 14);
    assert_eq!(ebook.loan_days(), 7);
    assert_eq!(book.daily_late_fee_cents(), 25);
    assert_eq!(ebook.daily_late_fee_cents(), 0);
    assert_eq!(book.late_fee_cents(30), 225);
    assert_eq!(book.late_fee_cents(21), 0);
    assert_eq!(audiobook.late_fee_cents(14), 0);
    assert_eq!(audiobook.late_fee_cents(15), 25);
    assert_eq!(ebook.late_fee_cents(1000), 0);
    let item = Item::new(1, "T".to_string(), "A".to_string(), audiobook);
    assert_eq!(item.loan_days(), 14);
    assert_eq!(item.late_fee_cents(16), 50);
}

#[test]
fn errors_read_as_sentences() {
    assert_eq!(LibraryError::EmptyTitle.to_string(), "an item must have a non-empty title");
    assert_eq!(
        LibraryError::DuplicateItemId { id: 1 }.to_string(),
        "an item with id 1 is already stocked"
    );
    assert_eq!(
        LibraryError::DuplicateMemberId { id: 100 }.to_string(),
        "a member with id 100 is already registered"
    );
    assert_eq!(
        LibraryError::ItemNotFound { id: 999 }.to_string(),
        "no item with id 999 is in the catalogue"
    );
    assert_eq!(
        LibraryError::MemberNotFound { id: 7 }.to_string(),
        "no member with id 7 is registered"
    );
    assert_eq!(
        LibraryError::ItemAlreadyOnLoan { id: 1, member_id: 100 }.to_string(),
        "item 1 is already on loan to member 100"
    );
    assert_eq!(
        LibraryError::ItemNotOnLoan { id: 12 }.to_string(),
        "item 12 is not currently on loan"
    );
    assert_eq!(
        LibraryError::ItemIsLost { id: 0 }.to_string(),
        "item 0 has been reported lost and cannot be lent"
    );
    assert_eq!(
        LibraryError::BorrowLimitReached { member_id: 100, limit: 3 }.to_string(),
        "member 100 already holds the maximum of 3 items"
    );
    assert_eq!(
        LibraryError::InvalidReturnDay { day_borrowed: 10, day_returned: 3 }.to_string(),
        "cannot return on day 3 before it was borrowed on day 10"
    );
}

#[test]
fn items_read_as_text() {
    let mut item = Item::new(
        1,
        "Dune".to_string(),
        "Frank Herbert".to_string(),
        MediaKind::Book { pages: 320 },
    );
    assert_eq!(item.to_string(), "#1 Dune by Frank Herbert (book of 320 pages) — available");
    item.status = LoanStatus::OnLoan { member_id: 100, day_borrowed: 5 };
    assert_eq!(
        item.to_string(),
        "#1 Dune by Frank Herbert (book of 320 pages) — on loan to member 100 since day 5"
    );
    assert_eq!(MediaKind::Audiobook { minutes: 540 }.to_string(), "540-minute audiobook");
    assert_eq!(MediaKind::Ebook { size_kb: 1_200 }.to_string(), "1200-kilobyte ebook");
    assert_eq!(LoanStatus::Lost.to_string(), "lost");
    assert_eq!(
        LoanStatus::OnLoan { member_id: 4_294_967_295, day_borrowed: 0 }.to_string(),
        "on loan to member 4294967295 since day 0"
    );
}

#[test]
fn a_default_library_is_empty() {
    let library = Library::default();
    assert!(library.items.is_empty());
    assert!(library.members.is_empty());
    assert!(library.available_items().is_empty());
}
