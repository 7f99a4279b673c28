//! What can go wrong in the page store.
use crate::storage::page::PageId;
use crate::text::{decimal_text, join_text, text_with_number};
use vstd::prelude::*;
use vstd::string::*;

verus! {

/// A failed storage operation.
#[derive(Debug)]
pub enum StorageError {
    Io(String),
    PageTooLarge { actual: usize, maximum: usize },
    InvalidPageLength { actual: usize, expected: usize },
    CorruptPage { page_id: PageId, reason: String },
    CorruptDataFile(String),
    CorruptWal { offset: u64, reason: String },
    PageNotFound(PageId),
    BufferPoolExhausted { capacity: usize },
    AlreadyOpen(String),
    Configuration(String),
    CommitCoordinatorStopped,
    GroupCommit(String),
    Poisoned,
}

/// A storage error with its texts as character sequences.
#[verifier::ext_equal]
pub enum StorageErrorView {
    Io(Seq<char>),
    PageTooLarge { actual: usize, maximum: usize },
    InvalidPageLength { actual: usize, expected: usize },
    CorruptPage { page_id: u64, reason: Seq<char> },
    CorruptDataFile(Seq<char>),
    CorruptWal { offset: u64, reason: Seq<char> },
    PageNotFound(u64),
    BufferPoolExhausted { capacity: usize },
    AlreadyOpen(Seq<char>),
    Configuration(Seq<char>),
    CommitCoordinatorStopped,
    GroupCommit(Seq<char>),
    Poisoned,
}

impl View for StorageError {
    type V = StorageErrorView;

    open spec fn view(&self) -> StorageErrorView {
        match *self {
            StorageError::Io(text) => StorageErrorView::Io(text@),
            StorageError::PageTooLarge { actual, maximum } => StorageErrorView::PageTooLarge {
                actual,
                maximum,
            },
            StorageError::InvalidPageLength { actual, expected } =>
                StorageErrorView::InvalidPageLength { actual, expected },
            StorageError::CorruptPage { page_id, reason } => StorageErrorView::CorruptPage {
                page_id: page_id.0,
                reason: reason@,
            },
            StorageError::CorruptDataFile(text) => StorageErrorView::CorruptDataFile(text@),
            StorageError::CorruptWal { offset, reason } => StorageErrorView::CorruptWal {
                offset,
                reason: reason@,
            },
            StorageError::PageNotFound(page_id) => StorageErrorView::PageNotFound(page_id.0),
            StorageError::BufferPoolExhausted { capacity } =>
                StorageErrorView::BufferPoolExhausted { capacity },
            StorageError::AlreadyOpen(text) => StorageErrorView::AlreadyOpen(text@),
            StorageError::Configuration(text) => StorageErrorView::Configuration(text@),
            StorageError::CommitCoordinatorStopped => StorageErrorView::CommitCoordinatorStopped,
            StorageError::GroupCommit(text) => StorageErrorView::GroupCommit(text@),
            StorageError::Poisoned => StorageErrorView::Poisoned,
        }
    }
}

/// The text that a storage error is shown with.
pub open spec fn storage_message(error: StorageErrorView) -> Seq<char> {
    match error {
        StorageErrorView::Io(text) => "I/O error: "@ + text + ""@,
        StorageErrorView::PageTooLarge { actual, maximum } => "page payload is "@ + (
        crate::text::decimal(actual as nat) + (" bytes; maximum is "@ + crate::text::decimal(
            maximum as nat,
        ) + ""@)) + ""@,
        StorageErrorView::InvalidPageLength { actual, expected } => "invalid page image length "@
            + (crate::text::decimal(actual as nat) + ("; expected "@ + crate::text::decimal(
            expected as nat,
        ) + ""@)) + ""@,
        StorageErrorView::CorruptPage { page_id, reason } => "corrupt page "@
            + crate::text::decimal(page_id as nat) + (": "@ + reason + ""@),
        StorageErrorView::CorruptDataFile(text) => "corrupt data file: "@ + text + ""@,
        StorageErrorView::CorruptWal { offset, reason } => "corrupt WAL at byte "@
            + crate::text::decimal(offset as nat) + (": "@ + reason + ""@),
        StorageErrorView::PageNotFound(page_id) => "page "@ + crate::text::decimal(page_id as nat)
            + " does not exist"@,
        StorageErrorView::BufferPoolExhausted { capacity } => "all "@ + crate::text::decimal(
            capacity as nat,
        ) + " buffer frames are pinned"@,
        StorageErrorView::AlreadyOpen(text) =>
            "storage directory is already open by another process: "@ + text + ""@,
        StorageErrorView::Configuration(text) => "invalid storage configuration: "@ + text + ""@,
        StorageErrorView::CommitCoordinatorStopped => "group commit coordinator stopped"@,
        StorageErrorView::GroupCommit(text) => "group commit failed: "@ + text + ""@,
        StorageErrorView::Poisoned =>
            "storage writer is poisoned after a failed durability operation; reopen to recover"@,
    }
}

impl StorageError {
    /// The error as one line of text.
    pub fn message(&self) -> (text: String)
        ensures
            text@ == storage_message(self@),
    {
        match self {
            StorageError::Io(text) => join_text("I/O error: ", text.as_str(), ""),
            StorageError::PageTooLarge { actual, maximum } => {
                let tail = text_with_number(" bytes; maximum is ", *maximum as u64, "");
                let number = decimal_text(*actual as u64);
                let middle = number.concat(tail.as_str());
                join_text("page payload is ", middle.as_str(), "")
            },
            StorageError::InvalidPageLength { actual, expected } => {
                let tail = text_with_number("; expected ", *expected as u64, "");
                let number = decimal_text(*actual as u64);
                let middle = number.concat(tail.as_str());
                join_text("invalid page image length ", middle.as_str(), "")
            },
            StorageError::CorruptPage { page_id, reason } => {
                let tail = join_text(": ", reason.as_str(), "");
                text_with_number("corrupt page ", page_id.0, tail.as_str())
            },
            StorageError::CorruptDataFile(text) => join_text(
                "corrupt data file: ",
                text.as_str(),
                "",
            ),
            StorageError::CorruptWal { offset, reason } => {
                let tail = join_text(": ", reason.as_str(), "");
                text_with_number("corrupt WAL at byte ", *offset, tail.as_str())
            },
            StorageError::PageNotFound(page_id) => text_with_number(
                "page ",
                page_id.0,
                " does not exist",
            ),
            StorageError::BufferPoolExhausted { capacity } => text_with_number(
                "all ",
                *capacity as u64,
                " buffer frames are pinned",
            ),
            StorageError::AlreadyOpen(text) => join_text(
                "storage directory is already open by another process: ",
                text.as_str(),
                "",
            ),
            StorageError::Configuration(text) => join_text(
                "invalid storage configuration: ",
                text.as_str(),
                "",
            ),
            StorageError::CommitCoordinatorStopped => String::from_str(
                "group commit coordinator stopped",
            ),
            StorageError::GroupCommit(text) => join_text(
                "group commit failed: ",
                text.as_str(),
                "",
            ),
            StorageError::Poisoned => String::from_str(
                "storage writer is poisoned after a failed durability operation; reopen to recover",
            ),
        }
    }
}

/// A corrupt-page error with a fixed reason.
pub(crate) fn corrupt_page(page_id: u64, reason: &str) -> (error: StorageError)
    ensures
        error@ == (StorageErrorView::CorruptPage { page_id, reason: reason@ }),
{
    StorageError::CorruptPage { page_id: PageId(page_id), reason: String::from_str(reason) }
}

/// A corrupt-log error with a fixed reason.
pub(crate) fn corrupt_wal(offset: u64, reason: &str) -> (error: StorageError)
    ensures
        error@ == (StorageErrorView::CorruptWal { offset, reason: reason@ }),
{
    StorageError::CorruptWal { offset, reason: String::from_str(reason) }
}

/// A configuration error with a fixed text.
pub(crate) fn configuration(text: &str) -> (error: StorageError)
    ensures
        error@ == StorageErrorView::Configuration(text@),
{
    StorageError::Configuration(String::from_str(text))
}

} // verus!
