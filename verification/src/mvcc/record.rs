//! The record of one version of a key, as it stands in a page.
use crate::bytes;
use crate::bytes::{all_zero, copy_bytes, copy_range, get_le, put_bytes, put_le, put_zeros};
use crate::mvcc::error::{corrupt, TransactionError, TransactionErrorView};
use crate::storage::page::{PageId, MAX_PAGE_PAYLOAD};
use crate::text;
use crate::text::{hex_half_text, join_text, text_with_number};
use vstd::prelude::*;

verus! {

pub const RECORD_HEADER_SIZE: usize = 32;

/// The number of a commit. Commits are ordered by it.
#[derive(Debug, Clone, Copy, Default, PartialEq, Eq, PartialOrd, Ord, Hash, Structural)]
pub struct Timestamp(pub u64);

/// The number of a transaction.
#[derive(Debug, Clone, Copy, PartialEq, Eq, Hash, Structural)]
pub struct TransactionId(pub u64);

/// One version of a key: its value from a commit on, or that it is gone.
#[derive(Debug, Clone, PartialEq, Eq)]
pub struct VersionRecord {
    pub timestamp: Timestamp,
    pub key: Vec<u8>,
    pub value: Option<Vec<u8>>,
}

#[verifier::ext_equal]
pub struct RecordView {
    pub timestamp: u64,
    pub key: Seq<u8>,
    pub value: Option<Seq<u8>>,
}

/// A value as bytes, or none.
pub open spec fn value_view(value: Option<Vec<u8>>) -> Option<Seq<u8>> {
    match value {
        Some(bytes) => Some(bytes@),
        None => None,
    }
}

impl View for VersionRecord {
    type V = RecordView;

    open spec fn view(&self) -> RecordView {
        RecordView {
            timestamp: self.timestamp.0,
            key: self.key@,
            value: value_view(self.value),
        }
    }
}

/// The bytes of a value; a deleted key has none.
pub open spec fn value_bytes(value: Option<Seq<u8>>) -> Seq<u8> {
    match value {
        Some(bytes) => bytes,
        None => Seq::empty(),
    }
}

/// The size of a record.
pub open spec fn record_size(key: Seq<u8>, value: Option<Seq<u8>>) -> nat {
    RECORD_HEADER_SIZE as nat + key.len() + value_bytes(value).len()
}

pub open spec fn record_magic() -> Seq<u8> {
    seq![0x51, 0x4e, 0x4d, 0x56]
}

pub open spec fn record_head(record: RecordView) -> Seq<u8> {
    record_magic() + bytes::le_bytes(1, 2) + bytes::le_bytes(
        if record.value is None {
            1
        } else {
            0
        },
        2,
    ) + bytes::le_bytes(record.timestamp as nat, 8) + bytes::le_bytes(record.key.len(), 4)
        + bytes::le_bytes(value_bytes(record.value).len(), 4) + bytes::zeros(8)
}

/// A record as it stands in a page: a header of 32 bytes, the key and the value.
pub open spec fn record_image(record: RecordView) -> Seq<u8> {
    record_head(record) + record.key + value_bytes(record.value)
}

/// What a page holds as far as records go: nothing of the kind, a record, or a broken record.
pub open spec fn record_decoded(image: Seq<u8>) -> Result<Option<RecordView>, Seq<char>> {
    let version = bytes::le_field(image, 4, 2);
    let flags = bytes::le_field(image, 6, 2) as u16;
    let timestamp = bytes::le_field(image, 8, 8) as u64;
    let key_length = bytes::le_field(image, 16, 4) as int;
    let value_length = bytes::le_field(image, 20, 4) as int;
    if image.len() < 4 || image.subrange(0, 4) != record_magic() {
        Ok(None)
    } else if image.len() < RECORD_HEADER_SIZE {
        Err("record is shorter than its header"@)
    } else if version != 1 {
        Err("unsupported record format version "@ + text::decimal(version) + ""@)
    } else if flags > 1 {
        Err("unknown flags "@ + text::hex_half(flags) + ""@)
    } else if image.subrange(24, 32) != bytes::zeros(8) {
        Err("reserved header bytes are not zero"@)
    } else if timestamp == 0 {
        Err("commit timestamp cannot be zero"@)
    } else if RECORD_HEADER_SIZE + key_length + value_length > usize::MAX {
        Err("record length overflow"@)
    } else if RECORD_HEADER_SIZE + key_length + value_length != image.len() {
        Err(
            "record length mismatch: header declares "@ + text::decimal(
                (RECORD_HEADER_SIZE + key_length + value_length) as nat,
            ) + (", page contains "@ + text::decimal(image.len()) + ""@),
        )
    } else if flags == 1 && value_length != 0 {
        Err("tombstone contains a value"@)
    } else {
        Ok(
            Some(
                RecordView {
                    timestamp,
                    key: image.subrange(32, 32 + key_length),
                    value: if flags == 1 {
                        None
                    } else {
                        Some(image.subrange(32 + key_length, image.len() as int))
                    },
                },
            ),
        )
    }
}

/// A record reads back from its image.
pub proof fn law_record_round_trip(record: RecordView)
    requires
        record.timestamp > 0,
        record_size(record.key, record.value) <= MAX_PAGE_PAYLOAD,
    ensures
        record_decoded(record_image(record)) == Ok::<Option<RecordView>, Seq<char>>(Some(record)),
        record_image(record).len() == record_size(record.key, record.value),
{
    let image = record_image(record);
    let flags: nat = if record.value is None {
        1
    } else {
        0
    };
    let value = value_bytes(record.value);
    bytes::lemma_byte_limits();
    bytes::lemma_le_round_trip(1, 2);
    bytes::lemma_le_round_trip(flags, 2);
    bytes::lemma_le_round_trip(record.timestamp as nat, 8);
    bytes::lemma_le_round_trip(record.key.len(), 4);
    bytes::lemma_le_round_trip(value.len(), 4);
    assert(image.subrange(0, 4) =~= record_magic());
    assert(image.subrange(4, 6) =~= bytes::le_bytes(1, 2));
    assert(image.subrange(6, 8) =~= bytes::le_bytes(flags, 2));
    assert(image.subrange(8, 16) =~= bytes::le_bytes(record.timestamp as nat, 8));
    assert(image.subrange(16, 20) =~= bytes::le_bytes(record.key.len(), 4));
    assert(image.subrange(20, 24) =~= bytes::le_bytes(value.len(), 4));
    assert(image.subrange(24, 32) =~= bytes::zeros(8));
    assert(image.subrange(32, (32 + record.key.len()) as int) =~= record.key);
    assert(image.subrange((32 + record.key.len()) as int, image.len() as int) =~= value);
}

/// A record is 32 bytes, its key and its value: its letters, the version, a flag that says whether the key
/// was deleted, the timestamp of the commit, the lengths of key and value, and eight zero bytes.
pub proof fn law_record_layout(record: RecordView)
    requires
        record_size(record.key, record.value) <= MAX_PAGE_PAYLOAD,
    ensures
        ({
            let image = record_image(record);
            let end = 32 + record.key.len();
            &&& image.len() == end + bytes::le_field(image, 20, 4)
            &&& image.subrange(0, 4) == seq![0x51u8, 0x4eu8, 0x4du8, 0x56u8]
            &&& bytes::le_field(image, 4, 2) == 1
            &&& bytes::le_field(image, 6, 2) == (if record.value is None {
                1nat
            } else {
                0
            })
            &&& bytes::le_field(image, 8, 8) == record.timestamp
            &&& bytes::le_field(image, 16, 4) == record.key.len()
            &&& bytes::le_field(image, 24, 8) == 0
            &&& image.subrange(32, end as int) == record.key
            &&& record.value matches Some(value) ==> image.skip(end as int) == value
            &&& record.value is None ==> image.len() == end
        }),
{
    let image = record_image(record);
    let flags: nat = if record.value is None {
        1
    } else {
        0
    };
    let value = value_bytes(record.value);
    bytes::lemma_byte_limits();
    bytes::lemma_le_round_trip(1, 2);
    bytes::lemma_le_round_trip(flags, 2);
    bytes::lemma_le_round_trip(record.timestamp as nat, 8);
    bytes::lemma_le_round_trip(record.key.len(), 4);
    bytes::lemma_le_round_trip(value.len(), 4);
    bytes::lemma_le_round_trip(0, 8);
    assert(image.subrange(0, 4) =~= record_magic());
    assert(image.subrange(4, 6) =~= bytes::le_bytes(1, 2));
    assert(image.subrange(6, 8) =~= bytes::le_bytes(flags, 2));
    assert(image.subrange(8, 16) =~= bytes::le_bytes(record.timestamp as nat, 8));
    assert(image.subrange(16, 20) =~= bytes::le_bytes(record.key.len(), 4));
    assert(image.subrange(20, 24) =~= bytes::le_bytes(value.len(), 4));
    assert(image.subrange(24, 32) =~= bytes::zeros(8));
    bytes::lemma_zeros(8);
    assert(image.subrange(32, (32 + record.key.len()) as int) =~= record.key);
    assert(image.skip((32 + record.key.len()) as int) =~= value);
}

impl VersionRecord {
    /// Checks that a record of a key and a value fits in a page.
    ///
    /// The reported size of a record that does not fit stops at the largest `usize`.
    pub fn validate_size(key: &[u8], value: Option<&[u8]>) -> (valid: Result<(), TransactionError>)
        ensures
            match valid {
                Ok(_) => record_size(key@, slice_view(value)) <= MAX_PAGE_PAYLOAD,
                Err(error) => {
                    &&& record_size(key@, slice_view(value)) > MAX_PAGE_PAYLOAD
                    &&& error@ == record_too_large(key@, slice_view(value))
                },
            },
    {
        let value_length: usize = match value {
            Some(bytes) => bytes.len(),
            None => 0,
        };
        let key_length: usize = key.len();
        if key_length > usize::MAX - RECORD_HEADER_SIZE || value_length > usize::MAX
            - RECORD_HEADER_SIZE - key_length {
            return Err(
                TransactionError::RecordTooLarge { actual: usize::MAX, maximum: MAX_PAGE_PAYLOAD },
            );
        }
        let actual: usize = RECORD_HEADER_SIZE + key_length + value_length;
        if actual > MAX_PAGE_PAYLOAD {
            return Err(TransactionError::RecordTooLarge { actual, maximum: MAX_PAGE_PAYLOAD });
        }
        Ok(())
    }

    /// What the record accounts for in a cache.
    pub fn approximate_bytes(&self) -> (size: usize)
        requires
            record_size(self@.key, self@.value) <= MAX_PAGE_PAYLOAD,
        ensures
            size == record_size(self@.key, self@.value),
    {
        let value_length: usize = match &self.value {
            Some(bytes) => bytes.len(),
            None => 0,
        };
        RECORD_HEADER_SIZE + self.key.len() + value_length
    }

    /// The record as it stands in a page.
    pub fn encode(&self) -> (image: Result<Vec<u8>, TransactionError>)
        ensures
            match image {
                Ok(image) => record_size(self@.key, self@.value) <= MAX_PAGE_PAYLOAD && image@
                    == record_image(self@),
                Err(error) => record_size(self@.key, self@.value) > MAX_PAGE_PAYLOAD && error@
                    == record_too_large(self@.key, self@.value),
            },
    {
        let empty: Vec<u8> = Vec::new();
        let (flags, tail, value): (u64, &[u8], Option<&[u8]>) = match &self.value {
            Some(bytes) => (0, bytes.as_slice(), Some(bytes.as_slice())),
            None => (1, empty.as_slice(), None),
        };
        match VersionRecord::validate_size(self.key.as_slice(), value) {
            Ok(_) => {},
            Err(error) => {
                return Err(error);
            },
        }
        let mut image: Vec<u8> = Vec::new();
        image.push(0x51);
        image.push(0x4e);
        image.push(0x4d);
        image.push(0x56);
        assert(image@ =~= record_magic());
        put_le(&mut image, 1, 2);
        put_le(&mut image, flags, 2);
        put_le(&mut image, self.timestamp.0, 8);
        put_le(&mut image, self.key.len() as u64, 4);
        put_le(&mut image, tail.len() as u64, 4);
        put_zeros(&mut image, 8);
        assert(tail@ =~= value_bytes(self@.value));
        assert(image@ =~= record_head(self@));
        put_bytes(&mut image, self.key.as_slice());
        put_bytes(&mut image, tail);
        Ok(image)
    }

    /// Reads the record that a page holds, if it holds one.
    pub fn decode(page_id: PageId, image: &[u8]) -> (record: Result<
        Option<VersionRecord>,
        TransactionError,
    >)
        ensures
            match record {
                Ok(None) => record_decoded(image@) == Ok::<Option<RecordView>, Seq<char>>(None),
                Ok(Some(record)) => record_decoded(image@) == Ok::<Option<RecordView>, Seq<char>>(
                    Some(record@),
                ) && record_size(record@.key, record@.value) == image@.len(),
                Err(error) => record_decoded(image@) matches Err(reason) && error@ == (
                TransactionErrorView::CorruptRecord { page_id: page_id.0, reason }),
            },
    {
        proof {
            bytes::lemma_byte_limits();
        }
        if image.len() < 4 {
            return Ok(None);
        }
        let magic_matches = image[0] == 0x51 && image[1] == 0x4e && image[2] == 0x4d && image[3]
            == 0x56;
        assert(magic_matches == (image@.subrange(0, 4) == record_magic())) by {
            if magic_matches {
                assert(image@.subrange(0, 4) =~= record_magic());
            } else {
                assert(image@[0] == image@.subrange(0, 4)[0]);
                assert(image@[1] == image@.subrange(0, 4)[1]);
                assert(image@[2] == image@.subrange(0, 4)[2]);
                assert(image@[3] == image@.subrange(0, 4)[3]);
            }
        }
        if !magic_matches {
            return Ok(None);
        }
        if image.len() < RECORD_HEADER_SIZE {
            return Err(corrupt(page_id, "record is shorter than its header"));
        }
        let version: u64 = get_le(image, 4, 2);
        if version != 1 {
            return Err(
                TransactionError::CorruptRecord {
                    page_id,
                    reason: text_with_number("unsupported record format version ", version, ""),
                },
            );
        }
        let flags: u16 = get_le(image, 6, 2) as u16;
        if flags > 1 {
            let shown = hex_half_text(flags);
            return Err(
                TransactionError::CorruptRecord {
                    page_id,
                    reason: join_text("unknown flags ", shown.as_str(), ""),
                },
            );
        }
        let reserved = copy_range(image, 24, 32);
        if !all_zero(reserved.as_slice()) {
            return Err(corrupt(page_id, "reserved header bytes are not zero"));
        }
        let timestamp: u64 = get_le(image, 8, 8);
        if timestamp == 0 {
            return Err(corrupt(page_id, "commit timestamp cannot be zero"));
        }
        let key_length: u64 = get_le(image, 16, 4);
        let value_length: u64 = get_le(image, 20, 4);
        let declared: u64 = key_length + value_length + 32;
        if declared > usize::MAX as u64 {
            return Err(corrupt(page_id, "record length overflow"));
        }
        let length: usize = image.len();
        if declared != length as u64 {
            let tail = text_with_number(", page contains ", length as u64, "");
            return Err(
                TransactionError::CorruptRecord {
                    page_id,
                    reason: text_with_number(
                        "record length mismatch: header declares ",
                        declared,
                        tail.as_str(),
                    ),
                },
            );
        }
        if flags == 1 && value_length != 0 {
            return Err(corrupt(page_id, "tombstone contains a value"));
        }
        let key_end: usize = 32 + key_length as usize;
        let key = copy_range(image, 32, key_end);
        let value = if flags == 1 {
            None
        } else {
            Some(copy_range(image, key_end, length))
        };
        Ok(Some(VersionRecord { timestamp: Timestamp(timestamp), key, value }))
    }
}

/// Bytes or none.
pub open spec fn slice_view(value: Option<&[u8]>) -> Option<Seq<u8>> {
    match value {
        Some(bytes) => Some(bytes@),
        None => None,
    }
}

/// The refusal of a record that does not fit in a page.
pub open spec fn record_too_large(key: Seq<u8>, value: Option<Seq<u8>>) -> TransactionErrorView {
    TransactionErrorView::RecordTooLarge {
        actual: if record_size(key, value) > usize::MAX {
            usize::MAX
        } else {
            record_size(key, value) as usize
        },
        maximum: MAX_PAGE_PAYLOAD,
    }
}

/// A copy of a value.
pub fn copy_value(value: &Option<Vec<u8>>) -> (copy: Option<Vec<u8>>)
    ensures
        value_view(copy) == value_view(*value),
{
    match value {
        Some(bytes) => Some(copy_bytes(bytes.as_slice())),
        None => None,
    }
}

} // verus!
