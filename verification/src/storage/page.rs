//! The on-disk page: a checksummed header and a payload.
use crate::bytes;
use crate::bytes::{copy_range, crc32, get_le, put_bytes, put_le, put_zeros};
use crate::storage::error::{corrupt_page, StorageError, StorageErrorView};
use crate::text;
use crate::text::{hex_text, join_text, text_with_number};
use vstd::prelude::*;
use vstd::string::*;

verus! {

pub const PAGE_SIZE: usize = 8192;

pub const PAGE_HEADER_SIZE: usize = 64;

pub const MAX_PAGE_PAYLOAD: usize = 8128;

/// The number of a page in the data file.
#[derive(Debug, Clone, Copy, PartialEq, Eq, PartialOrd, Ord, Hash, Structural)]
pub struct PageId(pub u64);

/// A log sequence number.
#[derive(Debug, Clone, Copy, PartialEq, Eq, PartialOrd, Ord, Hash, Structural)]
pub struct Lsn(pub u64);

/// One page: its number, the log record that wrote it, and what it holds.
#[derive(Debug, Clone, PartialEq, Eq)]
pub struct Page {
    id: PageId,
    lsn: Lsn,
    payload: Vec<u8>,
}

/// What a page says.
#[verifier::ext_equal]
pub struct PageView {
    pub id: u64,
    pub lsn: u64,
    pub payload: Seq<u8>,
}

impl View for Page {
    type V = PageView;

    closed spec fn view(&self) -> PageView {
        PageView { id: self.id.0, lsn: self.lsn.0, payload: self.payload@ }
    }
}

/// The four bytes that every page starts with.
pub open spec fn page_magic() -> Seq<u8> {
    seq![0x51u8, 0x4eu8, 0x50u8, 0x47u8]
}

/// The header up to the checksum.
pub open spec fn page_head(page: PageView) -> Seq<u8> {
    page_magic() + bytes::le_bytes(1, 2) + bytes::zeros(2) + bytes::le_bytes(page.id as nat, 8)
        + bytes::le_bytes(page.lsn as nat, 8) + bytes::le_bytes(page.payload.len(), 4)
}

/// What follows the checksum: the rest of the header, the payload, and zeros up to the page size.
pub open spec fn page_tail(page: PageView) -> Seq<u8> {
    bytes::zeros(32) + page.payload + bytes::zeros((MAX_PAGE_PAYLOAD - page.payload.len()) as nat)
}

/// The page as it stands on disk.
pub open spec fn page_image(page: PageView) -> Seq<u8> {
    page_head(page) + bytes::le_bytes(
        bytes::crc32_of(page_head(page) + bytes::zeros(4) + page_tail(page)) as nat,
        4,
    ) + page_tail(page)
}

/// The bytes that a page's checksum is taken of: the image with the checksum field zeroed.
pub open spec fn page_summed(image: Seq<u8>) -> Seq<u8> {
    image.subrange(0, 28) + bytes::zeros(4) + image.subrange(32, image.len() as int)
}

/// What the store makes of a page image.
pub open spec fn page_decoded(image: Seq<u8>) -> Result<PageView, StorageErrorView> {
    if image.len() != PAGE_SIZE {
        Err(
            StorageErrorView::InvalidPageLength {
                actual: image.len() as usize,
                expected: PAGE_SIZE,
            },
        )
    } else {
        let page_id = bytes::le_field(image, 8, 8) as u64;
        let version = bytes::le_field(image, 4, 2);
        let stored = bytes::le_field(image, 28, 4) as u32;
        let computed = bytes::crc32_of(page_summed(image));
        let length = bytes::le_field(image, 24, 4);
        if image.subrange(0, 4) != page_magic() {
            Err(StorageErrorView::CorruptPage { page_id, reason: "invalid page magic"@ })
        } else if version != 1 {
            Err(
                StorageErrorView::CorruptPage {
                    page_id,
                    reason: "unsupported page format version "@ + text::decimal(version) + ""@,
                },
            )
        } else if stored != computed {
            Err(
                StorageErrorView::CorruptPage {
                    page_id,
                    reason: "checksum mismatch: stored "@ + text::hex_word(stored) + (
                    ", computed "@ + text::hex_word(computed) + ""@),
                },
            )
        } else if length > MAX_PAGE_PAYLOAD {
            Err(
                StorageErrorView::CorruptPage {
                    page_id,
                    reason: "payload length "@ + text::decimal(length) + " exceeds page capacity"@,
                },
            )
        } else {
            Ok(
                PageView {
                    id: page_id,
                    lsn: bytes::le_field(image, 16, 8) as u64,
                    payload: image.subrange(64, (64 + length) as int),
                },
            )
        }
    }
}

/// Whether a payload fits in a page.
pub open spec fn fits_page(payload: Seq<u8>) -> bool {
    payload.len() <= MAX_PAGE_PAYLOAD
}

proof fn lemma_page_layout(page: PageView)
    requires
        fits_page(page.payload),
    ensures
        page_head(page).len() == 28,
        page_tail(page).len() == 8160,
        page_image(page).len() == PAGE_SIZE,
        page_image(page).subrange(0, 28) == page_head(page),
        page_image(page).subrange(32, PAGE_SIZE as int) == page_tail(page),
{
    bytes::lemma_le_round_trip(1, 2);
    bytes::lemma_le_round_trip(page.id as nat, 8);
    bytes::lemma_le_round_trip(page.lsn as nat, 8);
    bytes::lemma_le_round_trip(page.payload.len(), 4);
    bytes::lemma_le_round_trip(
        bytes::crc32_of(page_head(page) + bytes::zeros(4) + page_tail(page)) as nat,
        4,
    );
    assert(page_image(page).subrange(0, 28) =~= page_head(page));
    assert(page_image(page).subrange(32, PAGE_SIZE as int) =~= page_tail(page));
}

/// Decoding what a page was encoded to gives the page back.
pub proof fn law_page_round_trip(page: PageView)
    requires
        fits_page(page.payload),
    ensures
        page_decoded(page_image(page)) == Ok::<PageView, StorageErrorView>(page),
{
    let image = page_image(page);
    lemma_page_layout(page);
    bytes::lemma_byte_limits();
    bytes::lemma_le_round_trip(1, 2);
    bytes::lemma_le_round_trip(page.id as nat, 8);
    bytes::lemma_le_round_trip(page.lsn as nat, 8);
    bytes::lemma_le_round_trip(page.payload.len(), 4);
    let sum = bytes::crc32_of(page_head(page) + bytes::zeros(4) + page_tail(page));
    bytes::lemma_le_round_trip(sum as nat, 4);
    assert(image.subrange(0, 4) =~= page_magic());
    assert(image.subrange(4, 6) =~= bytes::le_bytes(1, 2));
    assert(image.subrange(8, 16) =~= bytes::le_bytes(page.id as nat, 8));
    assert(image.subrange(16, 24) =~= bytes::le_bytes(page.lsn as nat, 8));
    assert(image.subrange(24, 28) =~= bytes::le_bytes(page.payload.len(), 4));
    assert(image.subrange(28, 32) =~= bytes::le_bytes(sum as nat, 4));
    assert(image.subrange(64, (64 + page.payload.len()) as int) =~= page.payload);
}

/// A page on disk is 8192 bytes: its letters, the version, two zero bytes, the number of the page, its
/// LSN, the length of the payload and the checksum in the first 32, then 32 zero bytes, the payload, and
/// zeros up to the end.
pub proof fn law_page_layout(page: PageView, i: int)
    requires
        fits_page(page.payload),
    ensures
        ({
            let image = page_image(page);
            &&& image.len() == 8192
            &&& image.subrange(0, 4) == seq![0x51u8, 0x4eu8, 0x50u8, 0x47u8]
            &&& bytes::le_field(image, 4, 2) == 1
            &&& bytes::le_field(image, 8, 8) == page.id
            &&& bytes::le_field(image, 16, 8) == page.lsn
            &&& bytes::le_field(image, 24, 4) == page.payload.len()
            &&& bytes::le_field(image, 28, 4) == bytes::crc32_of(
                image.subrange(0, 28) + seq![0u8, 0u8, 0u8, 0u8] + image.subrange(32, 8192),
            )
            &&& 6 <= i < 8 || 32 <= i < 64 || 64 + page.payload.len() <= i < 8192 ==> image[i] == 0
            &&& 0 <= i < page.payload.len() ==> image[64 + i] == page.payload[i]
        }),
{
    let image = page_image(page);
    lemma_page_layout(page);
    bytes::lemma_byte_limits();
    bytes::lemma_le_round_trip(1, 2);
    bytes::lemma_le_round_trip(page.id as nat, 8);
    bytes::lemma_le_round_trip(page.lsn as nat, 8);
    bytes::lemma_le_round_trip(page.payload.len(), 4);
    let sum = bytes::crc32_of(page_head(page) + bytes::zeros(4) + page_tail(page));
    bytes::lemma_le_round_trip(sum as nat, 4);
    assert(image.subrange(0, 4) =~= page_magic());
    assert(image.subrange(4, 6) =~= bytes::le_bytes(1, 2));
    assert(image.subrange(8, 16) =~= bytes::le_bytes(page.id as nat, 8));
    assert(image.subrange(16, 24) =~= bytes::le_bytes(page.lsn as nat, 8));
    assert(image.subrange(24, 28) =~= bytes::le_bytes(page.payload.len(), 4));
    assert(image.subrange(28, 32) =~= bytes::le_bytes(sum as nat, 4));
    assert(image.subrange(0, 28) =~= page_head(page));
    assert(image.subrange(32, 8192) =~= page_tail(page));
    assert(seq![0u8, 0u8, 0u8, 0u8] =~= bytes::zeros(4));
}

/// A full-length image whose stored checksum is not that of its bytes is never accepted.
pub proof fn law_page_checksum_guards(image: Seq<u8>)
    requires
        image.len() == PAGE_SIZE,
        bytes::le_field(image, 28, 4) != bytes::crc32_of(page_summed(image)),
    ensures
        page_decoded(image) is Err,
        page_decoded(image)->Err_0 is CorruptPage,
{
    bytes::lemma_le_canonical(image.subrange(28, 32));
    bytes::lemma_byte_limits();
}

/// A page image with one bit turned over is refused, where turning one bit of the bytes that the
/// checksum is taken of gives another checksum.
proof fn lemma_turned_refused(page: PageView, at: int, mask: u8)
    requires
        fits_page(page.payload),
        0 <= at < PAGE_SIZE,
        bytes::is_bit(mask),
        forall|i: int|
            0 <= i < PAGE_SIZE ==> bytes::crc32_of(
                #[trigger] bytes::turned(page_summed(page_image(page)), i, mask),
            ) != bytes::crc32_of(page_summed(page_image(page))),
    ensures
        page_decoded(bytes::turned(page_image(page), at, mask)) matches Err(error)
            && error is CorruptPage,
{
    let image = page_image(page);
    let other = bytes::turned(image, at, mask);
    lemma_page_layout(page);
    law_page_round_trip(page);
    bytes::lemma_byte_limits();
    let byte = image[at];
    assert(byte ^ mask != byte) by (bit_vector)
        requires
            mask != 0,
    ;
    bytes::lemma_le_canonical(image.subrange(28, 32));
    bytes::lemma_le_canonical(other.subrange(28, 32));
    if 28 <= at < 32 {
        assert(page_summed(other) =~= page_summed(image));
        assert(other.subrange(28, 32)[at - 28] != image.subrange(28, 32)[at - 28]);
    } else {
        assert(page_summed(other) =~= bytes::turned(page_summed(image), at, mask));
        assert(other.subrange(28, 32) =~= image.subrange(28, 32));
    }
}

/// A page image is never all zeros, so a written page is never taken for a hole.
pub proof fn lemma_image_not_zero(page: PageView)
    requires
        fits_page(page.payload),
    ensures
        page_image(page) != bytes::zeros(PAGE_SIZE as nat),
{
    lemma_page_layout(page);
    assert(page_image(page)[0] == page_image(page).subrange(0, 28)[0]);
    assert(page_head(page)[0] == 0x51u8);
}

impl Page {
    /// A page that no log record has written yet.
    pub fn new(id: PageId, payload: Vec<u8>) -> (page: Result<Page, StorageError>)
        ensures
            match page {
                Ok(page) => fits_page(payload@) && page@ == (PageView {
                    id: id.0,
                    lsn: 0,
                    payload: payload@,
                }),
                Err(error) => !fits_page(payload@) && error@ == (StorageErrorView::PageTooLarge {
                    actual: payload@.len() as usize,
                    maximum: MAX_PAGE_PAYLOAD,
                }),
            },
    {
        Page::with_lsn(id, Lsn(0), payload)
    }

    /// A page as the log record `lsn` wrote it.
    pub fn with_lsn(id: PageId, lsn: Lsn, payload: Vec<u8>) -> (page: Result<Page, StorageError>)
        ensures
            match page {
                Ok(page) => fits_page(payload@) && page@ == (PageView {
                    id: id.0,
                    lsn: lsn.0,
                    payload: payload@,
                }),
                Err(error) => !fits_page(payload@) && error@ == (StorageErrorView::PageTooLarge {
                    actual: payload@.len() as usize,
                    maximum: MAX_PAGE_PAYLOAD,
                }),
            },
    {
        if payload.len() > MAX_PAGE_PAYLOAD {
            return Err(
                StorageError::PageTooLarge { actual: payload.len(), maximum: MAX_PAGE_PAYLOAD },
            );
        }
        Ok(Page { id, lsn, payload })
    }

    pub fn id(&self) -> (id: PageId)
        ensures
            id.0 == self@.id,
    {
        self.id
    }

    pub fn lsn(&self) -> (lsn: Lsn)
        ensures
            lsn.0 == self@.lsn,
    {
        self.lsn
    }

    pub fn payload(&self) -> (payload: &[u8])
        ensures
            payload@ == self@.payload,
    {
        self.payload.as_slice()
    }

    /// A copy of the page.
    pub fn duplicate(&self) -> (page: Page)
        ensures
            page@ == self@,
    {
        Page { id: self.id, lsn: self.lsn, payload: bytes::copy_bytes(self.payload.as_slice()) }
    }

    /// The page as it stands on disk. No image that differs from it in one bit is taken for a page.
    pub fn encode(&self) -> (image: Vec<u8>)
        requires
            fits_page(self@.payload),
        ensures
            image@ == page_image(self@),
            image@.len() == PAGE_SIZE,
            forall|at: int, mask: u8|
                0 <= at < PAGE_SIZE && bytes::is_bit(mask) ==> (page_decoded(
                    #[trigger] bytes::turned(image@, at, mask),
                ) matches Err(error) && error is CorruptPage),
    {
        proof {
            lemma_page_layout(self@);
        }
        let mut head: Vec<u8> = Vec::new();
        head.push(0x51);
        head.push(0x4e);
        head.push(0x50);
        head.push(0x47);
        assert(head@ =~= page_magic());
        put_le(&mut head, 1, 2);
        put_zeros(&mut head, 2);
        put_le(&mut head, self.id.0, 8);
        put_le(&mut head, self.lsn.0, 8);
        put_le(&mut head, self.payload.len() as u64, 4);
        assert(head@ =~= page_head(self@));

        let mut tail: Vec<u8> = Vec::new();
        put_zeros(&mut tail, 32);
        put_bytes(&mut tail, self.payload.as_slice());
        put_zeros(&mut tail, MAX_PAGE_PAYLOAD - self.payload.len());
        assert(tail@ =~= page_tail(self@));

        let mut summed = bytes::copy_bytes(head.as_slice());
        put_zeros(&mut summed, 4);
        put_bytes(&mut summed, tail.as_slice());
        let checksum: u32 = crc32(summed.as_slice());
        let mut image = head;
        put_le(&mut image, checksum as u64, 4);
        put_bytes(&mut image, tail.as_slice());
        proof {
            assert(page_summed(image@) =~= summed@);
            assert forall|at: int, mask: u8|
                0 <= at < PAGE_SIZE && bytes::is_bit(mask) implies (page_decoded(
                #[trigger] bytes::turned(image@, at, mask),
            ) matches Err(error) && error is CorruptPage) by {
                lemma_turned_refused(self@, at, mask);
            }
        }
        image
    }

    /// Reads a page image, checking its length, magic, version, checksum and payload length.
    pub fn decode(image: &[u8]) -> (page: Result<Page, StorageError>)
        ensures
            match page {
                Ok(page) => page_decoded(image@) == Ok::<PageView, StorageErrorView>(page@),
                Err(error) => page_decoded(image@) == Err::<PageView, StorageErrorView>(error@),
            },
            page matches Ok(page) ==> fits_page(page@.payload),
    {
        if image.len() != PAGE_SIZE {
            return Err(
                StorageError::InvalidPageLength { actual: image.len(), expected: PAGE_SIZE },
            );
        }
        proof {
            bytes::lemma_byte_limits();
        }
        let page_id: u64 = get_le(image, 8, 8);
        let magic_matches = image[0] == 0x51 && image[1] == 0x4e && image[2] == 0x50 && image[3]
            == 0x47;
        assert(magic_matches == (image@.subrange(0, 4) == page_magic())) by {
            if magic_matches {
                assert(image@.subrange(0, 4) =~= page_magic());
            } else {
                assert(image@[0] == image@.subrange(0, 4)[0]);
                assert(image@[1] == image@.subrange(0, 4)[1]);
                assert(image@[2] == image@.subrange(0, 4)[2]);
                assert(image@[3] == image@.subrange(0, 4)[3]);
            }
        }
        if !magic_matches {
            return Err(corrupt_page(page_id, "invalid page magic"));
        }
        let version: u64 = get_le(image, 4, 2);
        if version != 1 {
            return Err(
                StorageError::CorruptPage {
                    page_id: PageId(page_id),
                    reason: text_with_number("unsupported page format version ", version, ""),
                },
            );
        }
        let stored: u32 = get_le(image, 28, 4) as u32;
        let computed: u32 = checksum_with_zeroed_field(image);
        if stored != computed {
            let stored_text = hex_text(stored);
            let computed_text = hex_text(computed);
            let tail = join_text(", computed ", computed_text.as_str(), "");
            return Err(
                StorageError::CorruptPage {
                    page_id: PageId(page_id),
                    reason: join_text(
                        "checksum mismatch: stored ",
                        stored_text.as_str(),
                        tail.as_str(),
                    ),
                },
            );
        }
        let length: u64 = get_le(image, 24, 4);
        if length > MAX_PAGE_PAYLOAD as u64 {
            return Err(
                StorageError::CorruptPage {
                    page_id: PageId(page_id),
                    reason: text_with_number("payload length ", length, " exceeds page capacity"),
                },
            );
        }
        let payload = copy_range(image, PAGE_HEADER_SIZE, PAGE_HEADER_SIZE + length as usize);
        let lsn: u64 = get_le(image, 16, 8);
        Ok(Page { id: PageId(page_id), lsn: Lsn(lsn), payload })
    }
}

/// The checksum of a page image, its checksum field taken as zero.
fn checksum_with_zeroed_field(image: &[u8]) -> (checksum: u32)
    requires
        image@.len() == PAGE_SIZE,
    ensures
        checksum == bytes::crc32_of(page_summed(image@)),
{
    let mut summed = copy_range(image, 0, 28);
    put_zeros(&mut summed, 4);
    let rest = copy_range(image, 32, PAGE_SIZE);
    put_bytes(&mut summed, rest.as_slice());
    crc32(summed.as_slice())
}

} // verus!
