//! What can go wrong in an index.
use crate::storage::error;
use crate::storage::error::{StorageError, StorageErrorView};
use crate::storage::page::PageId;
use crate::text;
use crate::text::{join_text, text_with_number};
use vstd::prelude::*;
use vstd::string::*;

verus! {

/// A failed index operation.
#[derive(Debug)]
pub enum IndexError {
    Storage(StorageError),
    KeysNotStrictlyIncreasing,
    KeyTooLarge { actual: usize, maximum: usize },
    EntryCountOverflow,
    CorruptNode { page_id: PageId, reason: String },
}

#[verifier::ext_equal]
pub enum IndexErrorView {
    Storage(StorageErrorView),
    KeysNotStrictlyIncreasing,
    KeyTooLarge { actual: usize, maximum: usize },
    EntryCountOverflow,
    CorruptNode { page_id: u64, reason: Seq<char> },
}

impl View for IndexError {
    type V = IndexErrorView;

    open spec fn view(&self) -> IndexErrorView {
        match *self {
            IndexError::Storage(error) => IndexErrorView::Storage(error@),
            IndexError::KeysNotStrictlyIncreasing => IndexErrorView::KeysNotStrictlyIncreasing,
            IndexError::KeyTooLarge { actual, maximum } => IndexErrorView::KeyTooLarge {
                actual,
                maximum,
            },
            IndexError::EntryCountOverflow => IndexErrorView::EntryCountOverflow,
            IndexError::CorruptNode { page_id, reason } => IndexErrorView::CorruptNode {
                page_id: page_id.0,
                reason: reason@,
            },
        }
    }
}

/// The text that an index error is shown with.
pub open spec fn index_message(error: IndexErrorView) -> Seq<char> {
    match error {
        IndexErrorView::Storage(cause) => "storage error: "@ + error::storage_message(cause) + ""@,
        IndexErrorView::KeysNotStrictlyIncreasing =>
            "index keys must be supplied in strictly increasing order"@,
        IndexErrorView::KeyTooLarge { actual, maximum } => "index key is "@ + text::decimal(
            actual as nat,
        ) + (" bytes; maximum for this node is "@ + text::decimal(maximum as nat) + ""@),
        IndexErrorView::EntryCountOverflow => "index entry count exceeds the supported range"@,
        IndexErrorView::CorruptNode { page_id, reason } => "corrupt index node on page "@
            + text::decimal(page_id as nat) + (": "@ + reason + ""@),
    }
}

impl IndexError {
    /// The error as one line of text.
    pub fn message(&self) -> (shown: String)
        ensures
            shown@ == index_message(self@),
    {
        match self {
            IndexError::Storage(cause) => {
                let inner = cause.message();
                join_text("storage error: ", inner.as_str(), "")
            },
            IndexError::KeysNotStrictlyIncreasing => String::from_str(
                "index keys must be supplied in strictly increasing order",
            ),
            IndexError::KeyTooLarge { actual, maximum } => {
                let tail = text_with_number(
                    " bytes; maximum for this node is ",
                    *maximum as u64,
                    "",
                );
                text_with_number("index key is ", *actual as u64, tail.as_str())
            },
            IndexError::EntryCountOverflow => String::from_str(
                "index entry count exceeds the supported range",
            ),
            IndexError::CorruptNode { page_id, reason } => {
                let tail = join_text(": ", reason.as_str(), "");
                text_with_number("corrupt index node on page ", page_id.0, tail.as_str())
            },
        }
    }
}

/// A corrupt-node error with a fixed reason.
pub(crate) fn corrupt(page_id: PageId, reason: &str) -> (error: IndexError)
    ensures
        error@ == (IndexErrorView::CorruptNode { page_id: page_id.0, reason: reason@ }),
{
    IndexError::CorruptNode { page_id, reason: String::from_str(reason) }
}

} // verus!
