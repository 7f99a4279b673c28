//! The write-ahead log: its record format, its scan after a crash, and appending to it.
use crate::bytes;
use crate::bytes::{copy_bytes, copy_range, crc32, get_le, put_bytes, put_le, put_zeros};
use crate::storage::error::{corrupt_wal, StorageError, StorageErrorView};
use crate::storage::page;
use crate::storage::page::{Lsn, PageId, MAX_PAGE_PAYLOAD};
use crate::text;
use crate::text::text_with_number;
use vstd::prelude::*;
use vstd::string::*;

verus! {

pub const WAL_HEADER_SIZE: usize = 40;

const NO_PAGE_ID: u64 = 0xffff_ffff_ffff_ffff;

/// What a log record does.
#[derive(Debug, Clone, PartialEq, Eq)]
pub enum WalKind {
    PageImage { page_id: PageId, payload: Vec<u8> },
    BatchCommit { page_count: u32 },
    Checkpoint,
}

/// One log record.
#[derive(Debug, Clone, PartialEq, Eq)]
pub struct WalRecord {
    pub lsn: Lsn,
    pub kind: WalKind,
}

#[verifier::ext_equal]
pub enum WalKindView {
    PageImage { page_id: u64, payload: Seq<u8> },
    BatchCommit { page_count: u32 },
    Checkpoint,
}

#[verifier::ext_equal]
pub struct WalRecordView {
    pub lsn: u64,
    pub kind: WalKindView,
}

impl View for WalKind {
    type V = WalKindView;

    open spec fn view(&self) -> WalKindView {
        match *self {
            WalKind::PageImage { page_id, payload } => WalKindView::PageImage {
                page_id: page_id.0,
                payload: payload@,
            },
            WalKind::BatchCommit { page_count } => WalKindView::BatchCommit { page_count },
            WalKind::Checkpoint => WalKindView::Checkpoint,
        }
    }
}

impl View for WalRecord {
    type V = WalRecordView;

    open spec fn view(&self) -> WalRecordView {
        WalRecordView { lsn: self.lsn.0, kind: self.kind@ }
    }
}

/// The views of a run of records.
pub open spec fn record_views(records: Seq<WalRecord>) -> Seq<WalRecordView> {
    Seq::new(records.len(), |i: int| records[i]@)
}

pub open spec fn wal_magic() -> Seq<u8> {
    seq![0x51u8, 0x4eu8, 0x57u8, 0x4cu8]
}

pub open spec fn wal_type(kind: WalKindView) -> u8 {
    match kind {
        WalKindView::PageImage { .. } => 1,
        WalKindView::BatchCommit { .. } => 2,
        WalKindView::Checkpoint => 3,
    }
}

pub open spec fn wal_page_id(kind: WalKindView) -> u64 {
    match kind {
        WalKindView::PageImage { page_id, .. } => page_id,
        _ => u64::MAX,
    }
}

pub open spec fn wal_payload(kind: WalKindView) -> Seq<u8> {
    match kind {
        WalKindView::PageImage { payload, .. } => payload,
        WalKindView::BatchCommit { page_count } => bytes::le_bytes(page_count as nat, 4),
        WalKindView::Checkpoint => Seq::empty(),
    }
}

/// A record's header up to the checksum.
pub open spec fn wal_head(record: WalRecordView) -> Seq<u8> {
    let payload = wal_payload(record.kind);
    wal_magic() + bytes::le_bytes(1, 2) + seq![wal_type(record.kind)] + bytes::zeros(1)
        + bytes::le_bytes(WAL_HEADER_SIZE as nat + payload.len(), 4) + bytes::le_bytes(
        payload.len(),
        4,
    ) + bytes::le_bytes(record.lsn as nat, 8) + bytes::le_bytes(
        wal_page_id(record.kind) as nat,
        8,
    )
}

/// A record as it stands in the log.
pub open spec fn wal_bytes(record: WalRecordView) -> Seq<u8> {
    let rest = bytes::zeros(4) + wal_payload(record.kind);
    wal_head(record) + bytes::le_bytes(
        bytes::crc32_of(wal_head(record) + bytes::zeros(4) + rest) as nat,
        4,
    ) + rest
}

/// The bytes of a run of records, one behind the other.
pub open spec fn wal_log(records: Seq<WalRecordView>) -> Seq<u8>
    decreases records.len(),
{
    if records.len() == 0 {
        Seq::empty()
    } else {
        wal_log(records.drop_last()) + wal_bytes(records.last())
    }
}

/// Whether a record is one that the scan gives back: a page image of a nameable page that fits,
/// or the commit of at least one page.
pub open spec fn wal_storable(record: WalRecordView) -> bool {
    &&& record.lsn > 0
    &&& match record.kind {
        WalKindView::PageImage { page_id, payload } => page_id != u64::MAX && page::fits_page(
            payload,
        ),
        WalKindView::BatchCommit { page_count } => page_count > 0,
        WalKindView::Checkpoint => true,
    }
}

/// The bytes that a record's checksum is taken of: the record with the checksum field zeroed.
pub open spec fn wal_summed(record: Seq<u8>) -> Seq<u8> {
    record.subrange(0, 32) + bytes::zeros(4) + record.subrange(36, record.len() as int)
}

/// What the scan finds at one offset.
#[verifier::ext_equal]
pub enum WalStep {
    Record { record: WalRecordView, length: nat },
    Torn,
    Corrupt(StorageErrorView),
}

/// The kind that a record's type, page number and payload spell out.
pub open spec fn wal_kind_decoded(
    record_type: u8,
    page_id: u64,
    payload: Seq<u8>,
    offset: u64,
) -> Result<WalKindView, StorageErrorView> {
    if record_type == 1 && page_id != u64::MAX {
        Ok(WalKindView::PageImage { page_id, payload })
    } else if record_type == 2 && page_id == u64::MAX && payload.len() == 4 {
        if bytes::from_le(payload) == 0 {
            Err(StorageErrorView::CorruptWal { offset, reason: "batch commit cannot be empty"@ })
        } else {
            Ok(WalKindView::BatchCommit { page_count: bytes::from_le(payload) as u32 })
        }
    } else if record_type == 3 && page_id == u64::MAX && payload.len() == 0 {
        Ok(WalKindView::Checkpoint)
    } else {
        Err(
            StorageErrorView::CorruptWal {
                offset,
                reason: "invalid record type "@ + text::decimal(record_type as nat) + ""@,
            },
        )
    }
}

/// What the scan makes of the bytes at `offset`, the record before having LSN `previous`.
pub open spec fn wal_step(log: Seq<u8>, offset: int, previous: u64) -> WalStep {
    let at = offset as u64;
    let head = log.subrange(offset, offset + 40);
    let version = bytes::le_field(head, 4, 2);
    let length = bytes::le_field(head, 8, 4);
    let payload_length = bytes::le_field(head, 12, 4);
    let record = log.subrange(offset, offset + length);
    let lsn = bytes::le_field(head, 16, 8) as u64;
    if log.len() - offset < WAL_HEADER_SIZE {
        WalStep::Torn
    } else if head.subrange(0, 4) != wal_magic() {
        WalStep::Corrupt(
            StorageErrorView::CorruptWal { offset: at, reason: "invalid record magic"@ },
        )
    } else if version != 1 {
        WalStep::Corrupt(
            StorageErrorView::CorruptWal {
                offset: at,
                reason: "unsupported WAL format version "@ + text::decimal(version) + ""@,
            },
        )
    } else if length != WAL_HEADER_SIZE + payload_length || payload_length > MAX_PAGE_PAYLOAD {
        WalStep::Corrupt(
            StorageErrorView::CorruptWal { offset: at, reason: "invalid record length"@ },
        )
    } else if offset + length > log.len() {
        WalStep::Torn
    } else if bytes::le_field(head, 32, 4) != bytes::crc32_of(wal_summed(record)) {
        if offset + length == log.len() {
            WalStep::Torn
        } else {
            WalStep::Corrupt(
                StorageErrorView::CorruptWal { offset: at, reason: "record checksum mismatch"@ },
            )
        }
    } else if lsn == 0 || lsn <= previous {
        WalStep::Corrupt(
            StorageErrorView::CorruptWal {
                offset: at,
                reason: "non-monotonic LSN "@ + text::decimal(lsn as nat) + (" after "@
                    + text::decimal(previous as nat) + ""@),
            },
        )
    } else {
        match wal_kind_decoded(
            head[6],
            bytes::le_field(head, 24, 8) as u64,
            record.subrange(40, length as int),
            at,
        ) {
            Ok(kind) => WalStep::Record { record: WalRecordView { lsn, kind }, length },
            Err(error) => WalStep::Corrupt(error),
        }
    }
}

/// The records from `offset` on and the length up to which the log is sound.
pub open spec fn wal_scan(log: Seq<u8>, offset: int, previous: u64) -> Result<
    (Seq<WalRecordView>, int),
    StorageErrorView,
>
    decreases log.len() - offset,
{
    if offset < 0 || offset >= log.len() {
        Ok((Seq::empty(), offset))
    } else {
        match wal_step(log, offset, previous) {
            WalStep::Torn => Ok((Seq::empty(), offset)),
            WalStep::Corrupt(error) => Err(error),
            WalStep::Record { record, length } => if length == 0 {
                Ok((Seq::empty(), offset))
            } else {
                wal_prepend(seq![record], wal_scan(log, offset + length, record.lsn))
            },
        }
    }
}

/// A scan's result with records put before it.
pub open spec fn wal_prepend(
    before: Seq<WalRecordView>,
    scanned: Result<(Seq<WalRecordView>, int), StorageErrorView>,
) -> Result<(Seq<WalRecordView>, int), StorageErrorView> {
    match scanned {
        Ok((records, end)) => Ok((before + records, end)),
        Err(error) => Err(error),
    }
}

proof fn lemma_prepend_assoc(
    first: Seq<WalRecordView>,
    second: Seq<WalRecordView>,
    scanned: Result<(Seq<WalRecordView>, int), StorageErrorView>,
)
    ensures
        wal_prepend(first, wal_prepend(second, scanned)) == wal_prepend(first + second, scanned),
{
    if let Ok((records, end)) = scanned {
        assert(first + (second + records) =~= (first + second) + records);
    }
}

proof fn lemma_step_length(log: Seq<u8>, offset: int, previous: u64)
    ensures
        wal_step(log, offset, previous) matches WalStep::Record { record, length } ==> {
            &&& 40 <= length <= WAL_HEADER_SIZE + MAX_PAGE_PAYLOAD
            &&& offset + length <= log.len()
            &&& record.lsn > previous
            &&& 0 <= offset ==> wal_storable(record)
        },
{
    if let WalStep::Record { record, length } = wal_step(log, offset, previous) {
        if 0 <= offset {
            let payload = log.subrange(offset, offset + length).subrange(40, length as int);
            bytes::lemma_le_canonical(payload);
            bytes::lemma_byte_limits();
        }
    }
}

/// A record found in a log is found there too when the log ends later, or earlier but not before
/// the record does.
proof fn lemma_step_stable(log: Seq<u8>, other: Seq<u8>, offset: int, previous: u64)
    requires
        0 <= offset,
        wal_step(log, offset, previous) matches WalStep::Record { record, length }
            && offset + length <= other.len() && other.subrange(0, offset + length)
            == log.subrange(0, offset + length),
    ensures
        wal_step(other, offset, previous) == wal_step(log, offset, previous),
{
    let length = wal_step(log, offset, previous)->length;
    lemma_step_length(log, offset, previous);
    let shared = log.subrange(0, offset + length);
    assert(log.subrange(offset, offset + 40) =~= shared.subrange(offset, offset + 40));
    assert(other.subrange(offset, offset + 40) =~= shared.subrange(offset, offset + 40));
    assert(log.subrange(offset, offset + length) =~= shared.subrange(offset, offset + length));
    assert(other.subrange(offset, offset + length) =~= shared.subrange(offset, offset + length));
}

/// The LSN that the next record has to exceed.
pub open spec fn wal_last_lsn(records: Seq<WalRecordView>, previous: u64) -> u64 {
    if records.len() == 0 {
        previous
    } else {
        records.last().lsn
    }
}

/// Whether LSNs rise strictly from `previous` on.
pub open spec fn wal_ordered(records: Seq<WalRecordView>, previous: u64) -> bool {
    &&& forall|i: int| 0 <= i < records.len() ==> (#[trigger] records[i]).lsn > previous
    &&& forall|i: int, j: int|
        0 <= i < j < records.len() ==> (#[trigger] records[i]).lsn < (#[trigger] records[j]).lsn
}

/// What the scan accepts is storable and has rising LSNs, and ends inside the log.
pub proof fn law_scan_is_ordered(log: Seq<u8>, offset: int, previous: u64)
    requires
        0 <= offset <= log.len(),
    ensures
        wal_scan(log, offset, previous) matches Ok((records, end)) ==> {
            &&& wal_ordered(records, previous)
            &&& forall|i: int| 0 <= i < records.len() ==> wal_storable(#[trigger] records[i])
            &&& offset <= end <= log.len()
        },
    decreases log.len() - offset,
{
    if offset < log.len() {
        if let WalStep::Record { record, length } = wal_step(log, offset, previous) {
            lemma_step_length(log, offset, previous);
            law_scan_is_ordered(log, offset + length, record.lsn);
            if let Ok((records, end)) = wal_scan(log, offset + length, record.lsn) {
                let all = seq![record] + records;
                assert forall|i: int, j: int| 0 <= i < j < all.len() implies (
                #[trigger] all[i]).lsn < (#[trigger] all[j]).lsn by {
                    assert(all[j] == records[j - 1]);
                    if i > 0 {
                        assert(all[i] == records[i - 1]);
                    }
                }
                assert forall|i: int| 0 <= i < all.len() implies (#[trigger] all[i]).lsn
                    > previous && wal_storable(all[i]) by {
                    if i > 0 {
                        assert(all[i] == records[i - 1]);
                    }
                }
            }
        }
    }
}

/// Cutting the log where its scan ended loses no record: the repaired log scans to the same.
pub proof fn law_repair_keeps_records(log: Seq<u8>, offset: int, previous: u64)
    requires
        0 <= offset <= log.len(),
        wal_scan(log, offset, previous) is Ok,
    ensures
        wal_scan(log.take(wal_scan(log, offset, previous)->Ok_0.1), offset, previous) == wal_scan(
            log,
            offset,
            previous,
        ),
    decreases log.len() - offset,
{
    law_scan_is_ordered(log, offset, previous);
    let end = wal_scan(log, offset, previous)->Ok_0.1;
    let cut = log.take(end);
    if offset < log.len() {
        if let WalStep::Record { record, length } = wal_step(log, offset, previous) {
            lemma_step_length(log, offset, previous);
            law_repair_keeps_records(log, offset + length, record.lsn);
            law_scan_is_ordered(log, offset + length, record.lsn);
            assert(cut.subrange(0, offset + length) =~= log.subrange(0, offset + length));
            lemma_step_stable(log, cut, offset, previous);
        }
    }
}

/// A sound log scans, with more bytes behind it, to its records and what those bytes hold.
pub proof fn lemma_scan_extend(log: Seq<u8>, more: Seq<u8>, offset: int, previous: u64)
    requires
        0 <= offset <= log.len(),
        wal_scan(log, offset, previous) matches Ok((records, end)) && end == log.len(),
    ensures
        ({
            let records = wal_scan(log, offset, previous)->Ok_0.0;
            wal_scan(log + more, offset, previous) == wal_prepend(
                records,
                wal_scan(log + more, log.len() as int, wal_last_lsn(records, previous)),
            )
        }),
    decreases log.len() - offset,
{
    let all = log + more;
    let records = wal_scan(log, offset, previous)->Ok_0.0;
    if offset == log.len() {
        assert(records =~= Seq::empty());
        let rest = wal_scan(all, offset, previous);
        if let Ok((found, end)) = rest {
            assert(records + found =~= found);
        }
    } else {
        let step = wal_step(log, offset, previous);
        assert(step is Record);
        let record = step->record;
        let length = step->length;
        lemma_step_length(log, offset, previous);
        assert(all.subrange(0, offset + length) =~= log.subrange(0, offset + length));
        lemma_step_stable(log, all, offset, previous);
        lemma_scan_extend(log, more, offset + length, record.lsn);
        let later = wal_scan(log, offset + length, record.lsn)->Ok_0.0;
        assert(records =~= seq![record] + later);
        assert(wal_last_lsn(records, previous) == wal_last_lsn(later, record.lsn)) by {
            if later.len() > 0 {
                assert(records.last() == later.last());
            }
        }
        lemma_prepend_assoc(
            seq![record],
            later,
            wal_scan(all, log.len() as int, wal_last_lsn(later, record.lsn)),
        );
    }
}

/// The length of a record in the log.
pub proof fn lemma_wal_bytes_len(record: WalRecordView)
    ensures
        wal_bytes(record).len() == WAL_HEADER_SIZE + wal_payload(record.kind).len(),
{
    let payload = wal_payload(record.kind);
    bytes::lemma_le_round_trip(1, 2);
    bytes::lemma_le_round_trip(WAL_HEADER_SIZE as nat + payload.len(), 4);
    bytes::lemma_le_round_trip(payload.len(), 4);
    bytes::lemma_le_round_trip(record.lsn as nat, 8);
    bytes::lemma_le_round_trip(wal_page_id(record.kind) as nat, 8);
    bytes::lemma_le_round_trip(
        bytes::crc32_of(wal_head(record) + bytes::zeros(4) + (bytes::zeros(4) + payload)) as nat,
        4,
    );
}

/// A run's log starts with the log of every part of it that is in front.
pub proof fn lemma_wal_log_take(records: Seq<WalRecordView>, count: int)
    requires
        0 <= count <= records.len(),
    ensures
        wal_log(records.take(count)).len() <= wal_log(records).len(),
        count < records.len() ==> wal_log(records.take(count + 1)) == wal_log(records.take(count))
            + wal_bytes(records[count]),
    decreases records.len() - count,
{
    if count < records.len() {
        assert(records.take(count + 1).drop_last() =~= records.take(count));
        lemma_wal_log_take(records, count + 1);
    } else {
        assert(records.take(count) =~= records);
    }
}

pub proof fn lemma_wal_bytes_layout(record: WalRecordView)
    requires
        wal_storable(record),
    ensures
        wal_head(record).len() == 32,
        wal_payload(record.kind).len() <= MAX_PAGE_PAYLOAD,
        wal_bytes(record).len() == WAL_HEADER_SIZE + wal_payload(record.kind).len(),
        wal_bytes(record).subrange(0, 4) == wal_magic(),
        wal_bytes(record)[6] == wal_type(record.kind),
        bytes::le_field(wal_bytes(record), 4, 2) == 1,
        bytes::le_field(wal_bytes(record), 8, 4) == WAL_HEADER_SIZE + wal_payload(
            record.kind,
        ).len(),
        bytes::le_field(wal_bytes(record), 12, 4) == wal_payload(record.kind).len(),
        bytes::le_field(wal_bytes(record), 16, 8) == record.lsn,
        bytes::le_field(wal_bytes(record), 24, 8) == wal_page_id(record.kind),
        bytes::le_field(wal_bytes(record), 32, 4) == bytes::crc32_of(
            wal_summed(wal_bytes(record)),
        ),
        wal_bytes(record).subrange(40, wal_bytes(record).len() as int) == wal_payload(record.kind),
{
    let payload = wal_payload(record.kind);
    if let WalKindView::BatchCommit { page_count } = record.kind {
        bytes::lemma_le_round_trip(page_count as nat, 4);
    }
    bytes::lemma_byte_limits();
    bytes::lemma_le_round_trip(1, 2);
    bytes::lemma_le_round_trip(WAL_HEADER_SIZE as nat + payload.len(), 4);
    bytes::lemma_le_round_trip(payload.len(), 4);
    bytes::lemma_le_round_trip(record.lsn as nat, 8);
    bytes::lemma_le_round_trip(wal_page_id(record.kind) as nat, 8);
    let rest = bytes::zeros(4) + payload;
    let sum = bytes::crc32_of(wal_head(record) + bytes::zeros(4) + rest);
    bytes::lemma_le_round_trip(sum as nat, 4);
    let all = wal_bytes(record);
    assert(all.subrange(0, 4) =~= wal_magic());
    assert(all.subrange(4, 6) =~= bytes::le_bytes(1, 2));
    assert(all.subrange(8, 12) =~= bytes::le_bytes(WAL_HEADER_SIZE as nat + payload.len(), 4));
    assert(all.subrange(12, 16) =~= bytes::le_bytes(payload.len(), 4));
    assert(all.subrange(16, 24) =~= bytes::le_bytes(record.lsn as nat, 8));
    assert(all.subrange(24, 32) =~= bytes::le_bytes(wal_page_id(record.kind) as nat, 8));
    assert(all.subrange(32, 36) =~= bytes::le_bytes(sum as nat, 4));
    assert(all.subrange(40, all.len() as int) =~= payload);
    assert(all.subrange(0, 32) =~= wal_head(record));
    assert(all.subrange(36, all.len() as int) =~= rest);
}

/// A record in the log is 40 bytes and its payload: its letters, the version, its type, a zero byte, its
/// length, the length of the payload, its LSN, the number of its page, the checksum and four zero bytes.
/// The image of a page has type one and the page's number; a commit has type two and the count of its
/// pages as payload; a checkpoint has type three; neither of the last two has a page.
pub proof fn law_record_layout(record: WalRecordView)
    requires
        wal_storable(record),
    ensures
        ({
            let all = wal_bytes(record);
            let payload = all.skip(40);
            &&& all.len() >= 40
            &&& all.subrange(0, 4) == seq![0x51u8, 0x4eu8, 0x57u8, 0x4cu8]
            &&& bytes::le_field(all, 4, 2) == 1
            &&& bytes::le_field(all, 8, 4) == all.len()
            &&& bytes::le_field(all, 12, 4) == payload.len()
            &&& bytes::le_field(all, 16, 8) == record.lsn
            &&& match record.kind {
                WalKindView::PageImage { page_id, payload: content } => all[6] == 1
                    && bytes::le_field(all, 24, 8) == page_id && payload == content,
                WalKindView::BatchCommit { page_count } => all[6] == 2 && bytes::le_field(
                    all,
                    24,
                    8,
                ) == u64::MAX && payload.len() == 4 && bytes::from_le(payload) == page_count,
                WalKindView::Checkpoint => all[6] == 3 && bytes::le_field(all, 24, 8) == u64::MAX
                    && payload.len() == 0,
            }
        }),
{
    let all = wal_bytes(record);
    lemma_wal_bytes_layout(record);
    assert(all.skip(40) =~= all.subrange(40, all.len() as int));
    if let WalKindView::BatchCommit { page_count } = record.kind {
        bytes::lemma_byte_limits();
        bytes::lemma_le_round_trip(page_count as nat, 4);
    }
}

/// A whole record behind a log is found by the scan, whatever follows it.
proof fn lemma_step_of_written(log: Seq<u8>, record: WalRecordView, more: Seq<u8>, previous: u64)
    requires
        wal_storable(record),
        record.lsn > previous,
    ensures
        wal_step(log + wal_bytes(record) + more, log.len() as int, previous) == (WalStep::Record {
            record,
            length: wal_bytes(record).len(),
        }),
{
    lemma_wal_bytes_layout(record);
    let all = log + wal_bytes(record) + more;
    let offset = log.len() as int;
    let whole = wal_bytes(record);
    let head = all.subrange(offset, offset + 40);
    assert(head =~= whole.subrange(0, 40));
    assert(all.subrange(offset, offset + whole.len()) =~= whole);
    assert(head.subrange(0, 4) =~= whole.subrange(0, 4));
    assert(head.subrange(4, 6) =~= whole.subrange(4, 6));
    assert(head.subrange(8, 12) =~= whole.subrange(8, 12));
    assert(head.subrange(12, 16) =~= whole.subrange(12, 16));
    assert(head.subrange(16, 24) =~= whole.subrange(16, 24));
    assert(head.subrange(24, 32) =~= whole.subrange(24, 32));
    assert(head.subrange(32, 36) =~= whole.subrange(32, 36));
    if let WalKindView::BatchCommit { page_count } = record.kind {
        bytes::lemma_le_round_trip(page_count as nat, 4);
        bytes::lemma_byte_limits();
    }
}

/// A log whose every byte belongs to a sound record.
pub open spec fn wal_clean(log: Seq<u8>) -> bool {
    wal_scan(log, 0, 0) matches Ok((records, end)) && end == log.len()
}

/// The records of a log that scans.
pub open spec fn wal_records(log: Seq<u8>) -> Seq<WalRecordView> {
    wal_scan(log, 0, 0)->Ok_0.0
}

/// Appending a record to a sound log leaves a sound log with that record at its end.
pub proof fn law_append_is_scanned(log: Seq<u8>, record: WalRecordView)
    requires
        wal_clean(log),
        wal_storable(record),
        record.lsn > wal_last_lsn(wal_records(log), 0),
    ensures
        wal_clean(log + wal_bytes(record)),
        wal_records(log + wal_bytes(record)) == wal_records(log).push(record),
{
    let all = log + wal_bytes(record);
    let last = wal_last_lsn(wal_records(log), 0);
    lemma_scan_extend(log, wal_bytes(record), 0, 0);
    lemma_wal_bytes_layout(record);
    lemma_step_of_written(log, record, Seq::empty(), last);
    assert(all + Seq::<u8>::empty() =~= all);
    let end = all.len() as int;
    assert(wal_scan(all, end, record.lsn) == Ok::<(Seq<WalRecordView>, int), StorageErrorView>(
        (Seq::empty(), end),
    ));
    assert(wal_scan(all, log.len() as int, last) == wal_prepend(
        seq![record],
        wal_scan(all, end, record.lsn),
    ));
    assert(wal_records(log) + (seq![record] + Seq::<WalRecordView>::empty()) =~= wal_records(
        log,
    ).push(record));
}

/// A record that reached the log only in part is cut off again: every proper prefix of it scans
/// to the records before it, and the log is cut where the record began.
pub proof fn law_torn_tail_is_dropped(log: Seq<u8>, record: WalRecordView, cut: int)
    requires
        wal_clean(log),
        wal_storable(record),
        0 <= cut < wal_bytes(record).len(),
    ensures
        wal_scan(log + wal_bytes(record).take(cut), 0, 0) == Ok::<
            (Seq<WalRecordView>, int),
            StorageErrorView,
        >((wal_records(log), log.len() as int)),
{
    let torn = wal_bytes(record).take(cut);
    let all = log + torn;
    let offset = log.len() as int;
    let last = wal_last_lsn(wal_records(log), 0);
    lemma_scan_extend(log, torn, 0, 0);
    lemma_wal_bytes_layout(record);
    if cut >= WAL_HEADER_SIZE {
        let whole = wal_bytes(record);
        let head = all.subrange(offset, offset + 40);
        assert(head =~= whole.subrange(0, 40));
        assert(head.subrange(0, 4) =~= whole.subrange(0, 4));
        assert(head.subrange(4, 6) =~= whole.subrange(4, 6));
        assert(head.subrange(8, 12) =~= whole.subrange(8, 12));
        assert(head.subrange(12, 16) =~= whole.subrange(12, 16));
    }
    assert(wal_scan(all, offset, last) == Ok::<(Seq<WalRecordView>, int), StorageErrorView>(
        (Seq::empty(), offset),
    ));
    assert(wal_records(log) + Seq::<WalRecordView>::empty() =~= wal_records(log));
}

impl WalKind {
    /// A copy of the kind.
    pub fn duplicate(&self) -> (kind: WalKind)
        ensures
            kind@ == self@,
    {
        match self {
            WalKind::PageImage { page_id, payload } => WalKind::PageImage {
                page_id: *page_id,
                payload: copy_bytes(payload.as_slice()),
            },
            WalKind::BatchCommit { page_count } => WalKind::BatchCommit { page_count: *page_count },
            WalKind::Checkpoint => WalKind::Checkpoint,
        }
    }

    /// The record's type, page number and payload.
    fn parts(&self) -> (parts: (u8, u64, Vec<u8>))
        ensures
            parts.0 == wal_type(self@),
            parts.1 == wal_page_id(self@),
            parts.2@ == wal_payload(self@),
    {
        match self {
            WalKind::PageImage { page_id, payload } => (
                1,
                page_id.0,
                copy_bytes(payload.as_slice()),
            ),
            WalKind::BatchCommit { page_count } => {
                let mut payload: Vec<u8> = Vec::new();
                put_le(&mut payload, *page_count as u64, 4);
                assert(payload@ =~= bytes::le_bytes(*page_count as nat, 4));
                (2, NO_PAGE_ID, payload)
            },
            WalKind::Checkpoint => {
                let payload: Vec<u8> = Vec::new();
                (3, NO_PAGE_ID, payload)
            },
        }
    }
}

/// A record in the form in which it stands in the log.
fn encode_record(lsn: u64, kind: &WalKind) -> (encoded: Vec<u8>)
    requires
        wal_storable(WalRecordView { lsn, kind: kind@ }) || kind@ is PageImage && page::fits_page(
            kind@->payload,
        ),
    ensures
        encoded@ == wal_bytes(WalRecordView { lsn, kind: kind@ }),
{
    let ghost record = WalRecordView { lsn, kind: kind@ };
    let (record_type, page_id, payload) = kind.parts();
    proof {
        if let WalKindView::BatchCommit { page_count } = kind@ {
            bytes::lemma_le_round_trip(page_count as nat, 4);
        }
    }
    let mut head: Vec<u8> = Vec::new();
    head.push(0x51);
    head.push(0x4e);
    head.push(0x57);
    head.push(0x4c);
    assert(head@ =~= wal_magic());
    put_le(&mut head, 1, 2);
    head.push(record_type);
    put_zeros(&mut head, 1);
    put_le(&mut head, (WAL_HEADER_SIZE + payload.len()) as u64, 4);
    put_le(&mut head, payload.len() as u64, 4);
    put_le(&mut head, lsn, 8);
    put_le(&mut head, page_id, 8);
    assert(head@ =~= wal_head(record));

    let mut rest: Vec<u8> = Vec::new();
    put_zeros(&mut rest, 4);
    put_bytes(&mut rest, payload.as_slice());
    assert(rest@ =~= bytes::zeros(4) + wal_payload(record.kind));

    let mut summed = copy_bytes(head.as_slice());
    put_zeros(&mut summed, 4);
    put_bytes(&mut summed, rest.as_slice());
    let checksum: u32 = crc32(summed.as_slice());
    let mut encoded = head;
    put_le(&mut encoded, checksum as u64, 4);
    put_bytes(&mut encoded, rest.as_slice());
    encoded
}

/// The checksum of the record at `offset`, its checksum field taken as zero.
fn record_checksum(log: &[u8], offset: usize, length: usize) -> (checksum: u32)
    requires
        40 <= length,
        offset + length <= log@.len(),
    ensures
        checksum == bytes::crc32_of(wal_summed(log@.subrange(offset as int, offset + length))),
{
    let log_length: usize = log.len();
    let mut summed = copy_range(log, offset, offset + 32);
    put_zeros(&mut summed, 4);
    let rest = copy_range(log, offset + 36, offset + length);
    put_bytes(&mut summed, rest.as_slice());
    proof {
        let record = log@.subrange(offset as int, offset + length);
        assert(record.subrange(0, 32) =~= log@.subrange(offset as int, offset + 32));
        assert(record.subrange(36, length as int) =~= log@.subrange(offset + 36, offset + length));
    }
    crc32(summed.as_slice())
}

/// What stands at one offset of the log.
enum ScanStep {
    Record(WalRecord, usize),
    Torn,
    Corrupt(StorageError),
}

/// The kind that a record's type, page number and payload spell out.
fn decode_kind(record_type: u8, page_id: u64, payload: Vec<u8>, offset: u64) -> (kind: Result<
    WalKind,
    StorageError,
>)
    ensures
        match kind {
            Ok(kind) => wal_kind_decoded(record_type, page_id, payload@, offset) == Ok::<
                WalKindView,
                StorageErrorView,
            >(kind@),
            Err(error) => wal_kind_decoded(record_type, page_id, payload@, offset) == Err::<
                WalKindView,
                StorageErrorView,
            >(error@),
        },
{
    if record_type == 1 && page_id != NO_PAGE_ID {
        return Ok(WalKind::PageImage { page_id: PageId(page_id), payload });
    }
    if record_type == 2 && page_id == NO_PAGE_ID && payload.len() == 4 {
        proof {
            bytes::lemma_byte_limits();
            assert(payload@.subrange(0, 4) =~= payload@);
        }
        let page_count: u64 = get_le(payload.as_slice(), 0, 4);
        if page_count == 0 {
            return Err(corrupt_wal(offset, "batch commit cannot be empty"));
        }
        return Ok(WalKind::BatchCommit { page_count: page_count as u32 });
    }
    if record_type == 3 && page_id == NO_PAGE_ID && payload.len() == 0 {
        return Ok(WalKind::Checkpoint);
    }
    Err(
        StorageError::CorruptWal {
            offset,
            reason: text_with_number("invalid record type ", record_type as u64, ""),
        },
    )
}

fn scan_step(log: &[u8], offset: usize, previous: u64) -> (step: ScanStep)
    requires
        offset < log@.len(),
    ensures
        wal_step(log@, offset as int, previous) == (match step {
            ScanStep::Record(record, length) => WalStep::Record {
                record: record@,
                length: length as nat,
            },
            ScanStep::Torn => WalStep::Torn,
            ScanStep::Corrupt(error) => WalStep::Corrupt(error@),
        }),
{
    if log.len() - offset < WAL_HEADER_SIZE {
        return ScanStep::Torn;
    }
    let at: u64 = offset as u64;
    let header = copy_range(log, offset, offset + WAL_HEADER_SIZE);
    let head = header.as_slice();
    proof {
        bytes::lemma_byte_limits();
    }
    let magic_matches = head[0] == 0x51 && head[1] == 0x4e && head[2] == 0x57 && head[3] == 0x4c;
    assert(magic_matches == (head@.subrange(0, 4) == wal_magic())) by {
        if magic_matches {
            assert(head@.subrange(0, 4) =~= wal_magic());
        } else {
            assert(head@[0] == head@.subrange(0, 4)[0]);
            assert(head@[1] == head@.subrange(0, 4)[1]);
            assert(head@[2] == head@.subrange(0, 4)[2]);
            assert(head@[3] == head@.subrange(0, 4)[3]);
        }
    }
    if !magic_matches {
        return ScanStep::Corrupt(corrupt_wal(at, "invalid record magic"));
    }
    let version: u64 = get_le(head, 4, 2);
    if version != 1 {
        return ScanStep::Corrupt(
            StorageError::CorruptWal {
                offset: at,
                reason: text_with_number("unsupported WAL format version ", version, ""),
            },
        );
    }
    let record_length: u64 = get_le(head, 8, 4);
    let payload_length: u64 = get_le(head, 12, 4);
    if payload_length > MAX_PAGE_PAYLOAD as u64 || record_length != WAL_HEADER_SIZE as u64
        + payload_length {
        return ScanStep::Corrupt(corrupt_wal(at, "invalid record length"));
    }
    let length: usize = record_length as usize;
    if length > log.len() - offset {
        return ScanStep::Torn;
    }
    let stored: u64 = get_le(head, 32, 4);
    let computed: u32 = record_checksum(log, offset, length);
    if stored != computed as u64 {
        if length == log.len() - offset {
            return ScanStep::Torn;
        }
        return ScanStep::Corrupt(corrupt_wal(at, "record checksum mismatch"));
    }
    let lsn: u64 = get_le(head, 16, 8);
    if lsn == 0 || lsn <= previous {
        let tail = text_with_number(" after ", previous, "");
        return ScanStep::Corrupt(
            StorageError::CorruptWal {
                offset: at,
                reason: text_with_number("non-monotonic LSN ", lsn, tail.as_str()),
            },
        );
    }
    let page_id: u64 = get_le(head, 24, 8);
    let payload = copy_range(log, offset + WAL_HEADER_SIZE, offset + length);
    assert(payload@ =~= log@.subrange(offset as int, offset + length).subrange(40, length as int));
    match decode_kind(head[6], page_id, payload, at) {
        Ok(kind) => ScanStep::Record(WalRecord { lsn: Lsn(lsn), kind }, length),
        Err(error) => ScanStep::Corrupt(error),
    }
}

/// Reads every record of a log and finds where its sound part ends.
///
/// A record cut short at the end, or the last one with a wrong checksum, is a torn append: the
/// log is to be cut where it began. Anything else that is not a record is corruption.
pub fn scan_and_repair(log: &[u8]) -> (scanned: Result<(Vec<WalRecord>, usize), StorageError>)
    ensures
        match scanned {
            Ok((records, end)) => wal_scan(log@, 0, 0) == Ok::<
                (Seq<WalRecordView>, int),
                StorageErrorView,
            >((record_views(records@), end as int)) && end <= log@.len(),
            Err(error) => wal_scan(log@, 0, 0) == Err::<
                (Seq<WalRecordView>, int),
                StorageErrorView,
            >(error@),
        },
{
    let mut records: Vec<WalRecord> = Vec::new();
    let mut offset: usize = 0;
    let mut previous: u64 = 0;
    proof {
        let found = wal_scan(log@, 0, 0);
        if let Ok((rest, end)) = found {
            assert(record_views(records@) + rest =~= rest);
        }
    }
    while offset < log.len()
        invariant
            offset <= log@.len(),
            wal_scan(log@, 0, 0) == wal_prepend(
                record_views(records@),
                wal_scan(log@, offset as int, previous),
            ),
        decreases log@.len() - offset,
    {
        proof {
            lemma_step_length(log@, offset as int, previous);
        }
        match scan_step(log, offset, previous) {
            ScanStep::Torn => {
                assert(record_views(records@) + Seq::<WalRecordView>::empty() =~= record_views(
                    records@,
                ));
                return Ok((records, offset));
            },
            ScanStep::Corrupt(error) => {
                return Err(error);
            },
            ScanStep::Record(record, length) => {
                let ghost before = record_views(records@);
                let ghost rest = wal_scan(log@, offset + length, record@.lsn);
                previous = record.lsn.0;
                records.push(record);
                offset = offset + length;
                proof {
                    lemma_prepend_assoc(before, seq![record@], rest);
                    assert(record_views(records@) =~= before + seq![record@]);
                }
            },
        }
    }
    assert(record_views(records@) + Seq::<WalRecordView>::empty() =~= record_views(records@));
    Ok((records, offset))
}

/// An open log.
///
/// Appended records gather in memory, in the form in which they stand in the file, until they
/// are taken out to be written.
pub struct Wal {
    records: Vec<WalRecord>,
    next_lsn: u64,
    size: u64,
    appended: Vec<u8>,
}

#[verifier::ext_equal]
pub struct WalView {
    /// The records since the last checkpoint boundary.
    pub records: Seq<WalRecordView>,
    /// The LSN that the next record gets.
    pub next_lsn: u64,
    /// The length of the log, with what still has to be written.
    pub size: u64,
    /// What still has to be written.
    pub appended: Seq<u8>,
}

impl View for Wal {
    type V = WalView;

    closed spec fn view(&self) -> WalView {
        WalView {
            records: record_views(self.records@),
            next_lsn: self.next_lsn,
            size: self.size,
            appended: self.appended@,
        }
    }
}

/// Whether a record with this payload can still be appended.
pub open spec fn wal_has_room(wal: WalView, payload: nat) -> bool {
    wal.next_lsn < u64::MAX && wal.size + WAL_HEADER_SIZE + payload <= u64::MAX
}

/// The log with one more record.
pub open spec fn wal_appended(wal: WalView, kind: WalKindView) -> WalView {
    let record = WalRecordView { lsn: wal.next_lsn, kind };
    WalView {
        records: wal.records.push(record),
        next_lsn: (wal.next_lsn + 1) as u64,
        size: (wal.size + WAL_HEADER_SIZE + wal_payload(kind).len()) as u64,
        appended: wal.appended + wal_bytes(record),
    }
}

/// Why no record can be appended.
pub open spec fn wal_full(wal: WalView) -> StorageErrorView {
    if wal.next_lsn == u64::MAX {
        StorageErrorView::CorruptWal { offset: wal.size, reason: "LSN space exhausted"@ }
    } else {
        StorageErrorView::CorruptWal { offset: wal.size, reason: "record length overflow"@ }
    }
}

/// The LSN after a scan: one past the last record's.
pub open spec fn wal_resume(records: Seq<WalRecordView>) -> u64 {
    let last = wal_last_lsn(records, 0);
    if last == u64::MAX {
        u64::MAX
    } else {
        (last + 1) as u64
    }
}

/// The records behind the last checkpoint.
pub open spec fn wal_since_checkpoint(records: Seq<WalRecordView>) -> Seq<WalRecordView>
    decreases records.len(),
{
    if records.len() == 0 || records.last().kind is Checkpoint {
        Seq::empty()
    } else {
        wal_since_checkpoint(records.drop_last()).push(records.last())
    }
}

impl Wal {
    /// Opens a log on the bytes of its file.
    ///
    /// The file has to be cut to `size_bytes` where it is longer.
    pub fn open(log: &[u8]) -> (wal: Result<Wal, StorageError>)
        ensures
            match wal {
                Ok(wal) => {
                    &&& wal_scan(log@, 0, 0) matches Ok((records, end)) && wal@ == (WalView {
                        records,
                        next_lsn: wal_resume(records),
                        size: end as u64,
                        appended: Seq::empty(),
                    }) && end <= u64::MAX
                },
                Err(error) => wal_scan(log@, 0, 0) == Err::<
                    (Seq<WalRecordView>, int),
                    StorageErrorView,
                >(error@),
            },
    {
        match scan_and_repair(log) {
            Ok((records, end)) => {
                let mut next_lsn: u64 = 1;
                if records.len() > 0 {
                    let last: u64 = records[records.len() - 1].lsn.0;
                    assert(record_views(records@).last() == records@.last()@);
                    next_lsn = if last == u64::MAX {
                        u64::MAX
                    } else {
                        last + 1
                    };
                }
                let appended: Vec<u8> = Vec::new();
                Ok(Wal { records, next_lsn, size: end as u64, appended })
            },
            Err(error) => Err(error),
        }
    }

    /// Appends one record.
    fn append(&mut self, kind: WalKind) -> (lsn: Result<Lsn, StorageError>)
        requires
            match kind@ {
                WalKindView::PageImage { payload, .. } => page::fits_page(payload),
                WalKindView::BatchCommit { page_count } => page_count > 0,
                WalKindView::Checkpoint => true,
            },
            old(self)@.next_lsn > 0,
        ensures
            match lsn {
                Ok(lsn) => {
                    &&& wal_has_room(old(self)@, wal_payload(kind@).len())
                    &&& lsn.0 == old(self)@.next_lsn
                    &&& final(self)@ == wal_appended(old(self)@, kind@)
                },
                Err(error) => {
                    &&& !wal_has_room(old(self)@, wal_payload(kind@).len())
                    &&& error@ == wal_full(old(self)@)
                    &&& final(self)@ == old(self)@
                },
            },
    {
        let lsn: u64 = self.next_lsn;
        if lsn == u64::MAX {
            return Err(corrupt_wal(self.size, "LSN space exhausted"));
        }
        let encoded = encode_record(lsn, &kind);
        proof {
            lemma_wal_bytes_len(WalRecordView { lsn, kind: kind@ });
        }
        if encoded.len() as u64 > u64::MAX - self.size {
            return Err(corrupt_wal(self.size, "record length overflow"));
        }
        let ghost before = record_views(self.records@);
        self.size = self.size + encoded.len() as u64;
        self.next_lsn = lsn + 1;
        put_bytes(&mut self.appended, encoded.as_slice());
        self.records.push(WalRecord { lsn: Lsn(lsn), kind });
        assert(record_views(self.records@) =~= before.push(WalRecordView { lsn, kind: kind@ }));
        Ok(Lsn(lsn))
    }

    /// Appends the image of one page.
    pub fn append_page(&mut self, page_id: PageId, payload: &[u8]) -> (lsn: Result<
        Lsn,
        StorageError,
    >)
        requires
            old(self)@.next_lsn > 0,
        ensures
            match lsn {
                Ok(lsn) => {
                    &&& page::fits_page(payload@)
                    &&& wal_has_room(old(self)@, payload@.len())
                    &&& lsn.0 == old(self)@.next_lsn
                    &&& final(self)@ == wal_appended(
                        old(self)@,
                        WalKindView::PageImage { page_id: page_id.0, payload: payload@ },
                    )
                },
                Err(error) => {
                    &&& final(self)@ == old(self)@
                    &&& if page::fits_page(payload@) {
                        !wal_has_room(old(self)@, payload@.len()) && error@ == wal_full(old(self)@)
                    } else {
                        error@ == (StorageErrorView::PageTooLarge {
                            actual: payload@.len() as usize,
                            maximum: MAX_PAGE_PAYLOAD,
                        })
                    }
                },
            },
    {
        if payload.len() > MAX_PAGE_PAYLOAD {
            return Err(
                StorageError::PageTooLarge { actual: payload.len(), maximum: MAX_PAGE_PAYLOAD },
            );
        }
        self.append(WalKind::PageImage { page_id, payload: copy_bytes(payload) })
    }

    /// Appends the commit of the `page_count` page images before it.
    pub fn append_batch_commit(&mut self, page_count: usize) -> (lsn: Result<Lsn, StorageError>)
        requires
            old(self)@.next_lsn > 0,
        ensures
            match lsn {
                Ok(lsn) => {
                    &&& 0 < page_count <= u32::MAX
                    &&& wal_has_room(old(self)@, 4)
                    &&& lsn.0 == old(self)@.next_lsn
                    &&& final(self)@ == wal_appended(
                        old(self)@,
                        WalKindView::BatchCommit { page_count: page_count as u32 },
                    )
                },
                Err(error) => {
                    &&& final(self)@ == old(self)@
                    &&& error@ == if page_count == 0 {
                        StorageErrorView::CorruptWal {
                            offset: old(self)@.size,
                            reason: "batch commit cannot be empty"@,
                        }
                    } else if page_count > u32::MAX {
                        StorageErrorView::CorruptWal {
                            offset: old(self)@.size,
                            reason: "batch page count exceeds u32"@,
                        }
                    } else {
                        wal_full(old(self)@)
                    }
                    &&& 0 < page_count <= u32::MAX ==> !wal_has_room(old(self)@, 4)
                },
            },
    {
        if page_count == 0 {
            return Err(corrupt_wal(self.size, "batch commit cannot be empty"));
        }
        if page_count as u64 > u32::MAX as u64 {
            return Err(corrupt_wal(self.size, "batch page count exceeds u32"));
        }
        proof {
            bytes::lemma_le_round_trip(page_count as nat, 4);
        }
        self.append(WalKind::BatchCommit { page_count: page_count as u32 })
    }

    /// Appends a checkpoint.
    pub fn append_checkpoint(&mut self) -> (lsn: Result<Lsn, StorageError>)
        requires
            old(self)@.next_lsn > 0,
        ensures
            match lsn {
                Ok(lsn) => {
                    &&& wal_has_room(old(self)@, 0)
                    &&& lsn.0 == old(self)@.next_lsn
                    &&& final(self)@ == wal_appended(old(self)@, WalKindView::Checkpoint)
                },
                Err(error) => {
                    &&& !wal_has_room(old(self)@, 0)
                    &&& error@ == wal_full(old(self)@)
                    &&& final(self)@ == old(self)@
                },
            },
    {
        self.append(WalKind::Checkpoint)
    }

    /// The records since the last checkpoint boundary.
    pub fn records(&self) -> (records: &[WalRecord])
        ensures
            record_views(records@) == self@.records,
    {
        self.records.as_slice()
    }

    /// Makes every later record's LSN exceed `durable_lsn`.
    pub fn ensure_next_lsn_after(&mut self, durable_lsn: u64) -> (done: Result<(), StorageError>)
        ensures
            match done {
                Ok(_) => durable_lsn < u64::MAX && final(self)@ == (WalView {
                    next_lsn: if old(self)@.next_lsn > durable_lsn {
                        old(self)@.next_lsn
                    } else {
                        (durable_lsn + 1) as u64
                    },
                    ..old(self)@
                }),
                Err(error) => durable_lsn == u64::MAX && final(self)@ == old(self)@ && error@ == (
                StorageErrorView::CorruptWal {
                    offset: old(self)@.size,
                    reason: "LSN space exhausted"@,
                }),
            },
    {
        if durable_lsn == u64::MAX {
            return Err(corrupt_wal(self.size, "LSN space exhausted"));
        }
        if self.next_lsn <= durable_lsn {
            self.next_lsn = durable_lsn + 1;
        }
        Ok(())
    }

    /// Takes out what still has to be written to the end of the file.
    pub fn take_appended(&mut self) -> (appended: Vec<u8>)
        ensures
            appended@ == old(self)@.appended,
            final(self)@ == (WalView { appended: Seq::empty(), ..old(self)@ }),
    {
        let mut appended: Vec<u8> = Vec::new();
        std::mem::swap(&mut appended, &mut self.appended);
        appended
    }

    /// Forgets the log after a checkpoint: nothing before the checkpoint is ever replayed.
    ///
    /// LSNs go on rising, so a page written later always exceeds one written before.
    pub fn reset_after_checkpoint(&mut self)
        ensures
            final(self)@ == (WalView {
                records: Seq::empty(),
                size: 0,
                appended: Seq::empty(),
                ..old(self)@
            }),
    {
        self.records = Vec::new();
        self.appended = Vec::new();
        self.size = 0;
        assert(record_views(self.records@) =~= Seq::empty());
    }

    /// Drops the records that a checkpoint covers from memory.
    pub fn trim_records_to_last_checkpoint(&mut self)
        ensures
            final(self)@ == (WalView {
                records: wal_since_checkpoint(old(self)@.records),
                ..old(self)@
            }),
    {
        let mut start: usize = self.records.len();
        let ghost all = record_views(self.records@);
        assert(all.take(start as int) =~= all);
        assert(wal_since_checkpoint(all) =~= wal_since_checkpoint(all) + all.skip(start as int));
        while start > 0 && !matches!(self.records[start - 1].kind, WalKind::Checkpoint)
            invariant
                start <= self.records@.len(),
                *self == *old(self),
                all == record_views(self.records@),
                wal_since_checkpoint(all) == wal_since_checkpoint(all.take(start as int))
                    + all.skip(start as int),
            decreases start,
        {
            start = start - 1;
            proof {
                let head = all.take(start + 1);
                assert(head.drop_last() =~= all.take(start as int));
                assert(head.last() == all[start as int]);
                assert(wal_since_checkpoint(head) + all.skip(start + 1) =~= wal_since_checkpoint(
                    all.take(start as int),
                ) + all.skip(start as int));
            }
        }
        proof {
            let head = all.take(start as int);
            if start > 0 {
                assert(head.last() == all[start - 1]);
            }
            assert(wal_since_checkpoint(head) =~= Seq::empty());
            assert(wal_since_checkpoint(all) =~= all.skip(start as int));
        }
        let kept = self.records.split_off(start);
        self.records = kept;
        assert(record_views(self.records@) =~= all.skip(start as int));
    }

    /// The length of the log, with what still has to be written.
    pub fn size_bytes(&self) -> (size: u64)
        ensures
            size == self@.size,
    {
        self.size
    }
}

/// Damage inside the log is told, not cut off: the scan fails where a whole record with other records or
/// bytes behind it does not have the checksum that it says, and where something of the length of a
/// header or more does not begin with the letters of a record.
pub proof fn law_damage_inside_the_log_is_told(
    log: Seq<u8>,
    record: WalRecordView,
    damaged: Seq<u8>,
    more: Seq<u8>,
)
    requires
        wal_clean(log),
        wal_storable(record),
    ensures
        damaged.len() == wal_bytes(record).len() && damaged.take(16) == wal_bytes(record).take(16)
            && bytes::le_field(damaged, 32, 4) != bytes::crc32_of(wal_summed(damaged)) && more.len()
            > 0 ==> (wal_scan(log + (damaged + more), 0, 0) matches Err(error) && error is CorruptWal),
        damaged.len() >= 40 && damaged.subrange(0, 4) != seq![0x51u8, 0x4eu8, 0x57u8, 0x4cu8] ==> (
        wal_scan(log + (damaged + more), 0, 0) matches Err(error) && error is CorruptWal),
{
    let rest = damaged + more;
    let all = log + rest;
    let offset = log.len() as int;
    let previous = wal_last_lsn(wal_records(log), 0);
    lemma_scan_extend(log, rest, 0, 0);
    if damaged.len() >= 40 {
        let head = all.subrange(offset, offset + 40);
        assert(head.subrange(0, 4) =~= damaged.subrange(0, 4));
        if damaged.len() == wal_bytes(record).len() && damaged.take(16) == wal_bytes(record).take(16)
            && bytes::le_field(damaged, 32, 4) != bytes::crc32_of(wal_summed(damaged)) && more.len()
            > 0 {
            let good = wal_bytes(record);
            lemma_wal_bytes_layout(record);
            assert(head.subrange(0, 4) =~= damaged.take(16).subrange(0, 4));
            assert(good.subrange(0, 4) =~= good.take(16).subrange(0, 4));
            assert(head.subrange(4, 6) =~= damaged.take(16).subrange(4, 6));
            assert(good.subrange(4, 6) =~= good.take(16).subrange(4, 6));
            assert(head.subrange(8, 12) =~= damaged.take(16).subrange(8, 12));
            assert(good.subrange(8, 12) =~= good.take(16).subrange(8, 12));
            assert(head.subrange(12, 16) =~= damaged.take(16).subrange(12, 16));
            assert(good.subrange(12, 16) =~= good.take(16).subrange(12, 16));
            assert(head.subrange(32, 36) =~= damaged.subrange(32, 36));
            assert(all.subrange(offset, offset + damaged.len()) =~= damaged);
            assert(wal_step(all, offset, previous) is Corrupt);
        }
        if damaged.subrange(0, 4) != seq![0x51u8, 0x4eu8, 0x57u8, 0x4cu8] {
            assert(wal_step(all, offset, previous) is Corrupt);
        }
    } else {
        lemma_wal_bytes_layout(record);
    }
}

} // verus!
