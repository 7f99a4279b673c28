//! What can go wrong in a transaction.
use crate::index::error::{IndexError, IndexErrorView};
use crate::storage::error::{StorageError, StorageErrorView};
use crate::storage::page::PageId;
use crate::text;
use crate::text::{byte_list_text, join_text, text_with_number};
use vstd::prelude::*;
use vstd::string::*;

verus! {

/// A failed transaction or database operation.
#[derive(Debug)]
pub enum TransactionError {
    Storage(StorageError),
    Index(IndexError),
    WriteConflict { key: Vec<u8> },
    RangeConflict { prefix: Vec<u8> },
    Inactive,
    RecordTooLarge { actual: usize, maximum: usize },
    CorruptRecord { page_id: PageId, reason: String },
    TransactionIdExhausted,
    TimestampExhausted,
    StatePoisoned,
}

#[verifier::ext_equal]
pub enum TransactionErrorView {
    Storage(StorageErrorView),
    Index(IndexErrorView),
    WriteConflict { key: Seq<u8> },
    RangeConflict { prefix: Seq<u8> },
    Inactive,
    RecordTooLarge { actual: usize, maximum: usize },
    CorruptRecord { page_id: u64, reason: Seq<char> },
    TransactionIdExhausted,
    TimestampExhausted,
    StatePoisoned,
}

impl View for TransactionError {
    type V = TransactionErrorView;

    open spec fn view(&self) -> TransactionErrorView {
        match *self {
            TransactionError::Storage(error) => TransactionErrorView::Storage(error@),
            TransactionError::Index(error) => TransactionErrorView::Index(error@),
            TransactionError::WriteConflict { key } => TransactionErrorView::WriteConflict {
                key: key@,
            },
            TransactionError::RangeConflict { prefix } => TransactionErrorView::RangeConflict {
                prefix: prefix@,
            },
            TransactionError::Inactive => TransactionErrorView::Inactive,
            TransactionError::RecordTooLarge { actual, maximum } =>
                TransactionErrorView::RecordTooLarge { actual, maximum },
            TransactionError::CorruptRecord { page_id, reason } =>
                TransactionErrorView::CorruptRecord { page_id: page_id.0, reason: reason@ },
            TransactionError::TransactionIdExhausted =>
                TransactionErrorView::TransactionIdExhausted,
            TransactionError::TimestampExhausted => TransactionErrorView::TimestampExhausted,
            TransactionError::StatePoisoned => TransactionErrorView::StatePoisoned,
        }
    }
}

/// The text that a transaction error is shown with.
pub open spec fn transaction_message(error: TransactionErrorView) -> Seq<char> {
    match error {
        TransactionErrorView::Storage(cause) => "storage error: "@
            + crate::storage::error::storage_message(cause) + ""@,
        TransactionErrorView::Index(cause) => "index error: "@
            + crate::index::error::index_message(cause) + ""@,
        TransactionErrorView::WriteConflict { key } => "write conflict on key "@ + text::byte_list(
            key,
        ) + ""@,
        TransactionErrorView::RangeConflict { prefix } => "range conflict under scanned prefix "@
            + text::byte_list(prefix) + ""@,
        TransactionErrorView::Inactive => "transaction is no longer active"@,
        TransactionErrorView::RecordTooLarge { actual, maximum } => "key/value record is "@
            + text::decimal(actual as nat) + (" bytes; maximum is "@ + text::decimal(maximum as nat)
            + ""@),
        TransactionErrorView::CorruptRecord { page_id, reason } => "corrupt MVCC record on page "@
            + text::decimal(page_id as nat) + (": "@ + reason + ""@),
        TransactionErrorView::TransactionIdExhausted => "transaction ID space exhausted"@,
        TransactionErrorView::TimestampExhausted => "commit timestamp space exhausted"@,
        TransactionErrorView::StatePoisoned => "MVCC state lock is poisoned"@,
    }
}

impl TransactionError {
    /// The error as one line of text.
    pub fn message(&self) -> (shown: String)
        ensures
            shown@ == transaction_message(self@),
    {
        match self {
            TransactionError::Storage(cause) => {
                let inner = cause.message();
                join_text("storage error: ", inner.as_str(), "")
            },
            TransactionError::Index(cause) => {
                let inner = cause.message();
                join_text("index error: ", inner.as_str(), "")
            },
            TransactionError::WriteConflict { key } => {
                let inner = byte_list_text(key.as_slice());
                join_text("write conflict on key ", inner.as_str(), "")
            },
            TransactionError::RangeConflict { prefix } => {
                let inner = byte_list_text(prefix.as_slice());
                join_text("range conflict under scanned prefix ", inner.as_str(), "")
            },
            TransactionError::Inactive => String::from_str("transaction is no longer active"),
            TransactionError::RecordTooLarge { actual, maximum } => {
                let tail = text_with_number(" bytes; maximum is ", *maximum as u64, "");
                text_with_number("key/value record is ", *actual as u64, tail.as_str())
            },
            TransactionError::CorruptRecord { page_id, reason } => {
                let tail = join_text(": ", reason.as_str(), "");
                text_with_number("corrupt MVCC record on page ", page_id.0, tail.as_str())
            },
            TransactionError::TransactionIdExhausted => String::from_str(
                "transaction ID space exhausted",
            ),
            TransactionError::TimestampExhausted => String::from_str(
                "commit timestamp space exhausted",
            ),
            TransactionError::StatePoisoned => String::from_str("MVCC state lock is poisoned"),
        }
    }
}

/// A corrupt-record error with a fixed reason.
pub(crate) fn corrupt(page_id: PageId, reason: &str) -> (error: TransactionError)
    ensures
        error@ == (TransactionErrorView::CorruptRecord { page_id: page_id.0, reason: reason@ }),
{
    TransactionError::CorruptRecord { page_id, reason: String::from_str(reason) }
}

} // verus!
