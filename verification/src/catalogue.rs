//! What the library lends: media kinds, loan states, items and the loan terms
//! (how long an item may be kept and what each late day costs).

use vstd::prelude::*;

use crate::text::{decimal, push_decimal};

verus! {

/// The kind of medium an item is, with its size.
#[derive(Debug, Clone, Copy, PartialEq, Eq, Structural)]
pub enum MediaKind {
    Book { pages: u32 },
    Audiobook { minutes: u32 },
    Ebook { size_kb: u32 },
}

/// Where an item is: on the shelf, lent to a member since some day, or lost.
#[derive(Debug, Clone, Copy, PartialEq, Eq, Structural)]
pub enum LoanStatus {
    Available,
    OnLoan { member_id: u32, day_borrowed: u32 },
    Lost,
}

/// One catalogued item.
#[derive(Debug, PartialEq, Eq)]
pub struct Item {
    pub id: u32,
    pub title: String,
    pub author: String,
    pub kind: MediaKind,
    pub status: LoanStatus,
}

/// The mathematical value of an [`Item`]: its strings as character sequences.
#[verifier::ext_equal]
pub struct ItemView {
    pub id: u32,
    pub title: Seq<char>,
    pub author: Seq<char>,
    pub kind: MediaKind,
    pub status: LoanStatus,
}

impl View for Item {
    type V = ItemView;

    open spec fn view(&self) -> ItemView {
        ItemView {
            id: self.id,
            title: self.title@,
            author: self.author@,
            kind: self.kind,
            status: self.status,
        }
    }
}

/// The fee owed for holding an item `days_held` days when `loan_days` are
/// allowed and each further day costs `daily_fee`.
pub open spec fn late_fee(days_held: int, loan_days: int, daily_fee: int) -> int {
    if days_held > loan_days {
        (days_held - loan_days) * daily_fee
    } else {
        0
    }
}

/// How long each kind may be kept and what a late day costs. Days and cents.
pub trait LoanTerms {
    /// The number of days an item may be kept without a fee.
    spec fn allowed_days(&self) -> u32;

    /// The fee, in cents, for each day beyond the allowed ones.
    spec fn fee_per_day(&self) -> u32;

    fn loan_days(&self) -> (days: u32)
        ensures
            days == self.allowed_days(),
    ;

    fn daily_late_fee_cents(&self) -> (fee: u32)
        ensures
            fee == self.fee_per_day(),
    ;

    /// The fee owed after holding the item `days_held` days.
    fn late_fee_cents(&self, days_held: u32) -> (fee: u32)
        requires
            late_fee(days_held as int, self.allowed_days() as int, self.fee_per_day() as int)
                <= u32::MAX,
        ensures
            fee == late_fee(days_held as int, self.allowed_days() as int, self.fee_per_day() as int),
    {
        let allowed = self.loan_days();
        let daily = self.daily_late_fee_cents();
        let overdue = days_held.saturating_sub(allowed);
        proof {
            if days_held <= allowed {
                assert(overdue * daily == 0) by (nonlinear_arith)
                    requires
                        overdue == 0,
                ;
            }
        }
        overdue * daily
    }
}

/// Returning within the allowed days owes nothing.
pub proof fn lemma_on_time_is_free(days_held: int, loan_days: int, daily_fee: int)
    requires
        days_held <= loan_days,
    ensures
        late_fee(days_held, loan_days, daily_fee) == 0,
{
}

/// Each day beyond the allowed ones costs the daily fee: keeping an overdue
/// item one more day adds exactly one daily fee.
pub proof fn lemma_fee_grows_by_daily_fee(days_held: int, loan_days: int, daily_fee: int)
    requires
        days_held >= loan_days,
    ensures
        late_fee(days_held + 1, loan_days, daily_fee) == late_fee(days_held, loan_days, daily_fee)
            + daily_fee,
{
    assert((days_held + 1 - loan_days) * daily_fee == (days_held - loan_days) * daily_fee
        + daily_fee) by (nonlinear_arith);
    assert((days_held - loan_days) * daily_fee == 0 || days_held > loan_days) by (nonlinear_arith)
        requires
            days_held >= loan_days,
    ;
}

/// An ebook is never late: whatever the days held, its fee is zero.
pub proof fn lemma_ebooks_are_never_late(kind: MediaKind, days_held: int)
    requires
        kind is Ebook,
    ensures
        late_fee(days_held, kind.days_for() as int, kind.fee_for() as int) == 0,
{
    assert((days_held - 7) * 0 == 0) by (nonlinear_arith);
}

impl MediaKind {
    /// The loan length of a kind: three weeks for books, two for
    /// audiobooks, one for ebooks.
    pub open spec fn days_for(self) -> u32 {
        match self {
            MediaKind::Book { .. } => 21,
            MediaKind::Audiobook { .. } => 14,
            MediaKind::Ebook { .. } => 7,
        }
    }

    /// The daily late fee of a kind; ebooks are never late.
    pub open spec fn fee_for(self) -> u32 {
        match self {
            MediaKind::Book { .. } => 25,
            MediaKind::Audiobook { .. } => 25,
            MediaKind::Ebook { .. } => 0,
        }
    }

    /// How the kind reads in text, e.g. `book of 320 pages`.
    pub open spec fn text(self) -> Seq<char> {
        match self {
            MediaKind::Book { pages } => "book of "@ + decimal(pages as nat) + " pages"@,
            MediaKind::Audiobook { minutes } => decimal(minutes as nat) + "-minute audiobook"@,
            MediaKind::Ebook { size_kb } => decimal(size_kb as nat) + "-kilobyte ebook"@,
        }
    }

    /// Renders the kind as text.
    pub fn to_string(&self) -> (s: String)
        ensures
            s@ == self.text(),
    {
        let mut s = String::new();
        match self {
            MediaKind::Book { pages } => {
                s.append("book of ");
                push_decimal(&mut s, *pages as u64);
                s.append(" pages");
            },
            MediaKind::Audiobook { minutes } => {
                push_decimal(&mut s, *minutes as u64);
                s.append("-minute audiobook");
            },
            MediaKind::Ebook { size_kb } => {
                push_decimal(&mut s, *size_kb as u64);
                s.append("-kilobyte ebook");
            },
        }
        s
    }
}

impl LoanTerms for MediaKind {
    open spec fn allowed_days(&self) -> u32 {
        self.days_for()
    }

    open spec fn fee_per_day(&self) -> u32 {
        self.fee_for()
    }

    fn loan_days(&self) -> (days: u32) {
        match self {
            MediaKind::Book { .. } => 21,
            MediaKind::Audiobook { .. } => 14,
            MediaKind::Ebook { .. } => 7,
        }
    }

    fn daily_late_fee_cents(&self) -> (fee: u32) {
        // Ebooks are never late, so their fee is zero.
        match self {
            MediaKind::Book { .. } => 25,
            MediaKind::Audiobook { .. } => 25,
            MediaKind::Ebook { .. } => 0,
        }
    }
}

impl LoanStatus {
    /// How the status reads in text.
    pub open spec fn text(self) -> Seq<char> {
        match self {
            LoanStatus::Available => "available"@,
            LoanStatus::OnLoan { member_id, day_borrowed } => "on loan to member "@ + decimal(
                member_id as nat,
            ) + " since day "@ + decimal(day_borrowed as nat),
            LoanStatus::Lost => "lost"@,
        }
    }

    /// Renders the status as text.
    pub fn to_string(&self) -> (s: String)
        ensures
            s@ == self.text(),
    {
        let mut s = String::new();
        match self {
            LoanStatus::Available => {
                s.append("available");
            },
            LoanStatus::OnLoan { member_id, day_borrowed } => {
                s.append("on loan to member ");
                push_decimal(&mut s, *member_id as u64);
                s.append(" since day ");
                push_decimal(&mut s, *day_borrowed as u64);
            },
            LoanStatus::Lost => {
                s.append("lost");
            },
        }
        s
    }
}

impl Item {
    /// A new item, available on the shelf.
    pub fn new(id: u32, title: String, author: String, kind: MediaKind) -> (item: Self)
        ensures
            item.id == id,
            item.title == title,
            item.author == author,
            item.kind == kind,
            item.status == LoanStatus::Available,
    {
        Self { id, title, author, kind, status: LoanStatus::Available }
    }
}

impl ItemView {
    /// How an item reads in text: `#id title by author (kind) — status`.
    pub open spec fn text(self) -> Seq<char> {
        "#"@ + decimal(self.id as nat) + " "@ + self.title + " by "@ + self.author + " ("@
            + self.kind.text() + ") — "@ + self.status.text()
    }
}

impl Item {
    /// Renders the item as text.
    pub fn to_string(&self) -> (s: String)
        ensures
            s@ == self@.text(),
    {
        let mut s = String::new();
        s.append("#");
        push_decimal(&mut s, self.id as u64);
        s.append(" ");
        s.append(self.title.as_str());
        s.append(" by ");
        s.append(self.author.as_str());
        s.append(" (");
        let kind = self.kind.to_string();
        s.append(kind.as_str());
        s.append(") — ");
        let status = self.status.to_string();
        s.append(status.as_str());
        s
    }
}

impl LoanTerms for Item {
    open spec fn allowed_days(&self) -> u32 {
        self.kind.days_for()
    }

    open spec fn fee_per_day(&self) -> u32 {
        self.kind.fee_for()
    }

    fn loan_days(&self) -> (days: u32) {
        self.kind.loan_days()
    }

    fn daily_late_fee_cents(&self) -> (fee: u32) {
        self.kind.daily_late_fee_cents()
    }
}

} // verus!
