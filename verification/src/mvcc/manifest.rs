//! The manifest of an index generation, as it stands in a page.
use crate::bytes;
use crate::bytes::{all_zero, copy_range, get_le, put_le, put_zeros};
use crate::index::plan::IndexRoot;
use crate::mvcc::error::{corrupt, TransactionError, TransactionErrorView};
use crate::mvcc::record::Timestamp;
use crate::storage::page::PageId;
use crate::text;
use crate::text::{hex_half_text, join_text, text_with_number};
use vstd::prelude::*;

verus! {

pub const MANIFEST_SIZE: usize = 48;

pub const NO_PAGE: u64 = 0xffff_ffff_ffff_ffff;

/// An index over the values that were live at one timestamp.
#[derive(Debug, Clone, Copy, PartialEq, Eq, Structural)]
pub struct IndexGeneration {
    pub timestamp: Timestamp,
    pub root: Option<IndexRoot>,
    pub manifest_page_id: PageId,
}

pub open spec fn manifest_magic() -> Seq<u8> {
    seq![0x51, 0x4e, 0x49, 0x52]
}

pub open spec fn root_page(root: Option<IndexRoot>) -> u64 {
    match root {
        Some(root) => root.page_id.0,
        None => NO_PAGE,
    }
}

pub open spec fn root_height(root: Option<IndexRoot>) -> u16 {
    match root {
        Some(root) => root.height,
        None => 0,
    }
}

pub open spec fn root_count(root: Option<IndexRoot>) -> u64 {
    match root {
        Some(root) => root.entries,
        None => 0,
    }
}

/// A generation as it stands in a page.
pub open spec fn manifest_image(timestamp: u64, root: Option<IndexRoot>) -> Seq<u8> {
    manifest_magic() + bytes::le_bytes(1, 2) + bytes::le_bytes(
        if root is Some {
            1
        } else {
            0
        },
        2,
    ) + bytes::le_bytes(timestamp as nat, 8) + bytes::le_bytes(root_page(root) as nat, 8)
        + bytes::le_bytes(root_height(root) as nat, 2) + bytes::zeros(6) + bytes::le_bytes(
        root_count(root) as nat,
        8,
    ) + bytes::zeros(8)
}

/// What a page holds as far as manifests go: nothing of the kind, a timestamp and a root, or a
/// broken manifest.
pub open spec fn manifest_decoded(image: Seq<u8>) -> Result<
    Option<(u64, Option<IndexRoot>)>,
    Seq<char>,
> {
    let version = bytes::le_field(image, 4, 2);
    let flags = bytes::le_field(image, 6, 2) as u16;
    let timestamp = bytes::le_field(image, 8, 8) as u64;
    let page_id = bytes::le_field(image, 16, 8) as u64;
    let height = bytes::le_field(image, 24, 2) as u16;
    let entries = bytes::le_field(image, 32, 8) as u64;
    if image.len() < 4 || image.subrange(0, 4) != manifest_magic() {
        Ok(None)
    } else if image.len() != MANIFEST_SIZE {
        Err("manifest length is not 48 bytes"@)
    } else if version != 1 {
        Err("unsupported index manifest version "@ + text::decimal(version) + ""@)
    } else if flags > 1 {
        Err("unknown manifest flags "@ + text::hex_half(flags) + ""@)
    } else if image.subrange(26, 32) != bytes::zeros(6) || image.subrange(40, 48) != bytes::zeros(
        8,
    ) {
        Err("reserved manifest bytes are not zero"@)
    } else if flags == 1 {
        if page_id == NO_PAGE || height == 0 || entries == 0 {
            Err("root metadata is incomplete"@)
        } else {
            Ok(Some((timestamp, Some(IndexRoot { page_id: PageId(page_id), height, entries }))))
        }
    } else if page_id != NO_PAGE || height != 0 || entries != 0 {
        Err("empty generation contains root metadata"@)
    } else {
        Ok(Some((timestamp, None)))
    }
}

/// Whether a root can stand in a manifest.
pub open spec fn root_storable(root: Option<IndexRoot>) -> bool {
    match root {
        Some(root) => root.page_id.0 != NO_PAGE && root.height > 0 && root.entries > 0,
        None => true,
    }
}

/// A generation reads back from its image.
pub proof fn law_manifest_round_trip(timestamp: u64, root: Option<IndexRoot>)
    requires
        root_storable(root),
    ensures
        manifest_decoded(manifest_image(timestamp, root)) == Ok::<
            Option<(u64, Option<IndexRoot>)>,
            Seq<char>,
        >(Some((timestamp, root))),
        manifest_image(timestamp, root).len() == MANIFEST_SIZE,
{
    let image = manifest_image(timestamp, root);
    let flags: nat = if root is Some {
        1
    } else {
        0
    };
    bytes::lemma_byte_limits();
    bytes::lemma_le_round_trip(1, 2);
    bytes::lemma_le_round_trip(flags, 2);
    bytes::lemma_le_round_trip(timestamp as nat, 8);
    bytes::lemma_le_round_trip(root_page(root) as nat, 8);
    bytes::lemma_le_round_trip(root_height(root) as nat, 2);
    bytes::lemma_le_round_trip(root_count(root) as nat, 8);
    assert(image.subrange(0, 4) =~= manifest_magic());
    assert(image.subrange(4, 6) =~= bytes::le_bytes(1, 2));
    assert(image.subrange(6, 8) =~= bytes::le_bytes(flags, 2));
    assert(image.subrange(8, 16) =~= bytes::le_bytes(timestamp as nat, 8));
    assert(image.subrange(16, 24) =~= bytes::le_bytes(root_page(root) as nat, 8));
    assert(image.subrange(24, 26) =~= bytes::le_bytes(root_height(root) as nat, 2));
    assert(image.subrange(26, 32) =~= bytes::zeros(6));
    assert(image.subrange(32, 40) =~= bytes::le_bytes(root_count(root) as nat, 8));
    assert(image.subrange(40, 48) =~= bytes::zeros(8));
}

/// A manifest is 48 bytes: its letters, the version, a flag that says whether there is a root, the
/// timestamp, the page of the root, its height, six zero bytes, how many entries the index has, and
/// eight zero bytes. Without a root the page is the largest number, and height and entries are zero.
pub proof fn law_manifest_layout(timestamp: u64, root: Option<IndexRoot>)
    ensures
        ({
            let image = manifest_image(timestamp, root);
            &&& image.len() == 48
            &&& image.subrange(0, 4) == seq![0x51u8, 0x4eu8, 0x49u8, 0x52u8]
            &&& bytes::le_field(image, 4, 2) == 1
            &&& bytes::le_field(image, 8, 8) == timestamp
            &&& match root {
                Some(root) => bytes::le_field(image, 6, 2) == 1 && bytes::le_field(image, 16, 8)
                    == root.page_id.0 && bytes::le_field(image, 24, 2) == root.height
                    && bytes::le_field(image, 32, 8) == root.entries,
                None => bytes::le_field(image, 6, 2) == 0 && bytes::le_field(image, 16, 8)
                    == u64::MAX && bytes::le_field(image, 24, 2) == 0 && bytes::le_field(
                    image,
                    32,
                    8,
                ) == 0,
            }
            &&& bytes::le_field(image, 26, 6) == 0
            &&& bytes::le_field(image, 40, 8) == 0
        }),
{
    let image = manifest_image(timestamp, root);
    let flags: nat = if root is Some {
        1
    } else {
        0
    };
    bytes::lemma_byte_limits();
    bytes::lemma_le_round_trip(1, 2);
    bytes::lemma_le_round_trip(flags, 2);
    bytes::lemma_le_round_trip(timestamp as nat, 8);
    bytes::lemma_le_round_trip(root_page(root) as nat, 8);
    bytes::lemma_le_round_trip(root_height(root) as nat, 2);
    bytes::lemma_le_round_trip(root_count(root) as nat, 8);
    assert(image.subrange(0, 4) =~= manifest_magic());
    assert(image.subrange(4, 6) =~= bytes::le_bytes(1, 2));
    assert(image.subrange(6, 8) =~= bytes::le_bytes(flags, 2));
    assert(image.subrange(8, 16) =~= bytes::le_bytes(timestamp as nat, 8));
    assert(image.subrange(16, 24) =~= bytes::le_bytes(root_page(root) as nat, 8));
    assert(image.subrange(24, 26) =~= bytes::le_bytes(root_height(root) as nat, 2));
    assert(image.subrange(26, 32) =~= bytes::zeros(6));
    assert(image.subrange(32, 40) =~= bytes::le_bytes(root_count(root) as nat, 8));
    assert(image.subrange(40, 48) =~= bytes::zeros(8));
    bytes::lemma_zeros(6);
    bytes::lemma_zeros(8);
}

impl IndexGeneration {
    /// The generation as it stands in a page.
    pub fn encode(self) -> (image: Vec<u8>)
        ensures
            image@ == manifest_image(self.timestamp.0, self.root),
            image@.len() == MANIFEST_SIZE,
    {
        let (flags, page_id, height, entries): (u64, u64, u16, u64) = match self.root {
            Some(root) => (1, root.page_id.0, root.height, root.entries),
            None => (0, NO_PAGE, 0, 0),
        };
        proof {
            bytes::lemma_le_round_trip(1, 2);
            bytes::lemma_le_round_trip(flags as nat, 2);
            bytes::lemma_le_round_trip(self.timestamp.0 as nat, 8);
            bytes::lemma_le_round_trip(page_id as nat, 8);
            bytes::lemma_le_round_trip(height as nat, 2);
            bytes::lemma_le_round_trip(entries as nat, 8);
        }
        let mut image: Vec<u8> = Vec::new();
        image.push(0x51);
        image.push(0x4e);
        image.push(0x49);
        image.push(0x52);
        assert(image@ =~= manifest_magic());
        put_le(&mut image, 1, 2);
        put_le(&mut image, flags, 2);
        put_le(&mut image, self.timestamp.0, 8);
        put_le(&mut image, page_id, 8);
        put_le(&mut image, height as u64, 2);
        put_zeros(&mut image, 6);
        put_le(&mut image, entries, 8);
        put_zeros(&mut image, 8);
        image
    }

    /// Reads the generation that a page holds, if it holds one.
    pub fn decode(page_id: PageId, image: &[u8]) -> (generation: Result<
        Option<IndexGeneration>,
        TransactionError,
    >)
        ensures
            match generation {
                Ok(None) => manifest_decoded(image@) == Ok::<
                    Option<(u64, Option<IndexRoot>)>,
                    Seq<char>,
                >(None),
                Ok(Some(generation)) => manifest_decoded(image@) == Ok::<
                    Option<(u64, Option<IndexRoot>)>,
                    Seq<char>,
                >(Some((generation.timestamp.0, generation.root)))
                    && generation.manifest_page_id == page_id,
                Err(error) => manifest_decoded(image@) matches Err(reason) && error@ == (
                TransactionErrorView::CorruptRecord { page_id: page_id.0, reason }),
            },
    {
        proof {
            bytes::lemma_byte_limits();
        }
        if image.len() < 4 {
            return Ok(None);
        }
        let magic_matches = image[0] == 0x51 && image[1] == 0x4e && image[2] == 0x49 && image[3]
            == 0x52;
        assert(magic_matches == (image@.subrange(0, 4) == manifest_magic())) by {
            if magic_matches {
                assert(image@.subrange(0, 4) =~= manifest_magic());
            } else {
                assert(image@[0] == image@.subrange(0, 4)[0]);
                assert(image@[1] == image@.subrange(0, 4)[1]);
                assert(image@[2] == image@.subrange(0, 4)[2]);
                assert(image@[3] == image@.subrange(0, 4)[3]);
            }
        }
        if !magic_matches {
            return Ok(None);
        }
        if image.len() != MANIFEST_SIZE {
            return Err(corrupt(page_id, "manifest length is not 48 bytes"));
        }
        let version: u64 = get_le(image, 4, 2);
        if version != 1 {
            return Err(
                TransactionError::CorruptRecord {
                    page_id,
                    reason: text_with_number("unsupported index manifest version ", version, ""),
                },
            );
        }
        let flags: u16 = get_le(image, 6, 2) as u16;
        if flags > 1 {
            let shown = hex_half_text(flags);
            return Err(
                TransactionError::CorruptRecord {
                    page_id,
                    reason: join_text("unknown manifest flags ", shown.as_str(), ""),
                },
            );
        }
        let first_reserved = copy_range(image, 26, 32);
        let second_reserved = copy_range(image, 40, 48);
        if !all_zero(first_reserved.as_slice()) || !all_zero(second_reserved.as_slice()) {
            return Err(corrupt(page_id, "reserved manifest bytes are not zero"));
        }
        let timestamp = Timestamp(get_le(image, 8, 8));
        let root_page_id: u64 = get_le(image, 16, 8);
        let height: u16 = get_le(image, 24, 2) as u16;
        let entries: u64 = get_le(image, 32, 8);
        let root = if flags == 1 {
            if root_page_id == NO_PAGE || height == 0 || entries == 0 {
                return Err(corrupt(page_id, "root metadata is incomplete"));
            }
            Some(IndexRoot { page_id: PageId(root_page_id), height, entries })
        } else {
            if root_page_id != NO_PAGE || height != 0 || entries != 0 {
                return Err(corrupt(page_id, "empty generation contains root metadata"));
            }
            None
        };
        Ok(Some(IndexGeneration { timestamp, root, manifest_page_id: page_id }))
    }
}

} // verus!
