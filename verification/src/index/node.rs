//! The nodes of a tree and their form in a page.
use crate::bytes;
use crate::bytes::{copy_bytes, copy_range, get_le, put_bytes, put_le, put_zeros};
use crate::index::error::{corrupt, IndexError, IndexErrorView};
use crate::index::key;
use crate::index::key::{order_keys, KeyOrder};
use crate::storage::page::{PageId, MAX_PAGE_PAYLOAD};
use crate::text;
use crate::text::text_with_number;
use vstd::prelude::*;
use vstd::string::*;

verus! {

pub const NODE_HEADER_SIZE: usize = 32;

/// What an entry takes besides its key: the key's length and the value.
pub const ENTRY_OVERHEAD: usize = 12;

const NO_PAGE: u64 = 0xffff_ffff_ffff_ffff;

/// A key and the page that it leads to.
#[derive(Debug, Clone, PartialEq, Eq)]
pub struct IndexEntry {
    pub key: Vec<u8>,
    pub value: PageId,
}

#[verifier::ext_equal]
pub struct EntryView {
    pub key: Seq<u8>,
    pub value: u64,
}

impl View for IndexEntry {
    type V = EntryView;

    open spec fn view(&self) -> EntryView {
        EntryView { key: self.key@, value: self.value.0 }
    }
}

pub open spec fn entry_views(entries: Seq<IndexEntry>) -> Seq<EntryView> {
    Seq::new(entries.len(), |i: int| entries[i]@)
}

impl IndexEntry {
    /// A copy of the entry.
    pub fn duplicate(&self) -> (copy: IndexEntry)
        ensures
            copy@ == self@,
    {
        IndexEntry { key: copy_bytes(self.key.as_slice()), value: self.value }
    }
}

/// Copies of `entries[start..end]`.
pub fn copy_entries(entries: &Vec<IndexEntry>, start: usize, end: usize) -> (copy: Vec<IndexEntry>)
    requires
        start <= end <= entries@.len(),
    ensures
        entry_views(copy@) == entry_views(entries@).subrange(start as int, end as int),
        copy@.len() == end - start,
{
    let mut copy: Vec<IndexEntry> = Vec::new();
    let mut index: usize = start;
    let ghost all = entry_views(entries@);
    while index < end
        invariant
            start <= index <= end <= entries@.len(),
            all == entry_views(entries@),
            copy@.len() == index - start,
            entry_views(copy@) == all.subrange(start as int, index as int),
        decreases end - index,
    {
        let ghost done = entry_views(copy@);
        let next = entries[index].duplicate();
        copy.push(next);
        proof {
            assert(entry_views(copy@) =~= done.push(next@));
            assert(entry_views(copy@) =~= all.subrange(start as int, index + 1));
        }
        index = index + 1;
    }
    copy
}

/// A node: entries in key order, or children parted by separators.
///
/// A separator's key is a lower bound of the keys under its child, and above those to the left.
#[derive(Debug, Clone, PartialEq, Eq)]
pub enum Node {
    Leaf { entries: Vec<IndexEntry>, next: Option<PageId> },
    Internal { level: u16, first_child: PageId, separators: Vec<IndexEntry> },
}

#[verifier::ext_equal]
pub enum NodeView {
    Leaf { entries: Seq<EntryView>, next: Option<u64> },
    Internal { level: u16, first_child: u64, separators: Seq<EntryView> },
}

impl View for Node {
    type V = NodeView;

    open spec fn view(&self) -> NodeView {
        match *self {
            Node::Leaf { entries, next } => NodeView::Leaf {
                entries: entry_views(entries@),
                next: match next {
                    Some(page_id) => Some(page_id.0),
                    None => None,
                },
            },
            Node::Internal { level, first_child, separators } => NodeView::Internal {
                level,
                first_child: first_child.0,
                separators: entry_views(separators@),
            },
        }
    }
}

pub open spec fn node_level(node: NodeView) -> u16 {
    match node {
        NodeView::Leaf { .. } => 0,
        NodeView::Internal { level, .. } => level,
    }
}

/// The entries of a leaf or the separators of an internal node.
pub open spec fn node_items(node: NodeView) -> Seq<EntryView> {
    match node {
        NodeView::Leaf { entries, .. } => entries,
        NodeView::Internal { separators, .. } => separators,
    }
}

/// Whether keys rise strictly.
pub open spec fn keys_rise(entries: Seq<EntryView>) -> bool {
    forall|i: int, j: int|
        0 <= i < j < entries.len() ==> key::key_lt(
            (#[trigger] entries[i]).key,
            (#[trigger] entries[j]).key,
        )
}

/// The bytes that entries take in a page.
pub open spec fn items_size(entries: Seq<EntryView>) -> nat
    decreases entries.len(),
{
    if entries.len() == 0 {
        0
    } else {
        items_size(entries.drop_last()) + ENTRY_OVERHEAD as nat + entries.last().key.len()
    }
}

/// The bytes that a node takes in a page.
pub open spec fn node_size(node: NodeView) -> nat {
    NODE_HEADER_SIZE as nat + items_size(node_items(node))
}

pub open spec fn node_magic() -> Seq<u8> {
    seq![0x51u8, 0x4eu8, 0x49u8, 0x58u8]
}

pub open spec fn entry_bytes(entry: EntryView) -> Seq<u8> {
    bytes::le_bytes(entry.key.len(), 4) + entry.key + bytes::le_bytes(entry.value as nat, 8)
}

pub open spec fn items_bytes(entries: Seq<EntryView>) -> Seq<u8>
    decreases entries.len(),
{
    if entries.len() == 0 {
        Seq::empty()
    } else {
        items_bytes(entries.drop_last()) + entry_bytes(entries.last())
    }
}

pub open spec fn node_kind(node: NodeView) -> u8 {
    match node {
        NodeView::Leaf { .. } => 1,
        NodeView::Internal { .. } => 2,
    }
}

pub open spec fn node_auxiliary(node: NodeView) -> u64 {
    match node {
        NodeView::Leaf { next, .. } => match next {
            Some(page_id) => page_id,
            None => u64::MAX,
        },
        NodeView::Internal { first_child, .. } => first_child,
    }
}

pub open spec fn node_head(node: NodeView) -> Seq<u8> {
    node_magic() + bytes::le_bytes(1, 2) + seq![node_kind(node)] + bytes::zeros(1)
        + bytes::le_bytes(node_items(node).len(), 4) + bytes::le_bytes(node_level(node) as nat, 2)
        + bytes::zeros(2) + bytes::le_bytes(node_auxiliary(node) as nat, 8) + bytes::zeros(8)
}

/// A node as it stands in a page.
pub open spec fn node_image(node: NodeView) -> Seq<u8> {
    node_head(node) + items_bytes(node_items(node))
}

/// Whether a node is one that a page can hold and give back.
pub open spec fn node_storable(node: NodeView) -> bool {
    &&& node_size(node) <= MAX_PAGE_PAYLOAD
    &&& keys_rise(node_items(node))
    &&& match node {
        NodeView::Leaf { next, .. } => next != Some(u64::MAX),
        NodeView::Internal { level, first_child, separators } => level > 0 && first_child
            != u64::MAX && forall|i: int|
            0 <= i < separators.len() ==> (#[trigger] separators[i]).value != u64::MAX,
    }
}

/// The refusal of a node that does not fit in a page. The size in it stops at the largest `usize`.
pub open spec fn node_refused(node: NodeView) -> IndexErrorView {
    IndexErrorView::KeyTooLarge {
        actual: if node_size(node) > usize::MAX {
            usize::MAX
        } else {
            node_size(node) as usize
        },
        maximum: MAX_PAGE_PAYLOAD,
    }
}

/// One entry at `cursor` and where it ends, or why there is none.
pub open spec fn entry_decoded(image: Seq<u8>, cursor: int) -> Result<
    (EntryView, int),
    Seq<char>,
> {
    let length = bytes::le_field(image, cursor, 4);
    if cursor + 4 > image.len() {
        Err("node ends inside a 32-bit field"@)
    } else if cursor + 4 + length > image.len() {
        Err("key extends past node boundary"@)
    } else if cursor + 12 + length > image.len() {
        Err("node ends inside a 64-bit field"@)
    } else {
        Ok(
            (
                EntryView {
                    key: image.subrange(cursor + 4, cursor + 4 + length),
                    value: bytes::le_field(image, cursor + 4 + length, 8) as u64,
                },
                cursor + 12 + length,
            ),
        )
    }
}

/// `count` entries from `cursor` on and where they end, or why there are none.
pub open spec fn items_decoded(image: Seq<u8>, cursor: int, count: nat, internal: bool) -> Result<
    (Seq<EntryView>, int),
    Seq<char>,
>
    decreases count,
{
    if count == 0 {
        Ok((Seq::empty(), cursor))
    } else {
        match entry_decoded(image, cursor) {
            Err(reason) => Err(reason),
            Ok((entry, next)) => if internal && entry.value == u64::MAX {
                Err("separator has no child"@)
            } else {
                items_prepended(
                    seq![entry],
                    items_decoded(image, next, (count - 1) as nat, internal),
                )
            },
        }
    }
}

pub open spec fn items_prepended(
    before: Seq<EntryView>,
    decoded: Result<(Seq<EntryView>, int), Seq<char>>,
) -> Result<(Seq<EntryView>, int), Seq<char>> {
    match decoded {
        Ok((entries, end)) => Ok((before + entries, end)),
        Err(reason) => Err(reason),
    }
}

/// All entries of a node, which have to fill the image and rise.
pub open spec fn all_items_decoded(image: Seq<u8>, internal: bool) -> Result<
    Seq<EntryView>,
    Seq<char>,
> {
    match items_decoded(image, 32, bytes::le_field(image, 8, 4), internal) {
        Err(reason) => Err(reason),
        Ok((entries, end)) => if end != image.len() {
            Err("node contains "@ + text::decimal((image.len() - end) as nat) + " trailing bytes"@)
        } else if !keys_rise(entries) {
            Err("node keys are not strictly increasing"@)
        } else {
            Ok(entries)
        },
    }
}

/// The node that an image spells out, or why it spells none.
pub open spec fn node_decoded(image: Seq<u8>) -> Result<NodeView, Seq<char>> {
    let version = bytes::le_field(image, 4, 2);
    let level = bytes::le_field(image, 12, 2) as u16;
    let auxiliary = bytes::le_field(image, 16, 8) as u64;
    if image.len() < NODE_HEADER_SIZE {
        Err("node is shorter than its header"@)
    } else if image.subrange(0, 4) != node_magic() {
        Err("invalid node magic"@)
    } else if version != 1 {
        Err("unsupported node format version "@ + text::decimal(version) + ""@)
    } else if image[7] != 0 || image.subrange(14, 16) != bytes::zeros(2) || image.subrange(24, 32)
        != bytes::zeros(8) {
        Err("reserved header bytes are not zero"@)
    } else if image[6] == 1 {
        if level != 0 {
            Err("leaf level must be zero"@)
        } else {
            match all_items_decoded(image, false) {
                Err(reason) => Err(reason),
                Ok(entries) => Ok(
                    NodeView::Leaf {
                        entries,
                        next: if auxiliary == u64::MAX {
                            None
                        } else {
                            Some(auxiliary)
                        },
                    },
                ),
            }
        }
    } else if image[6] == 2 {
        if level == 0 {
            Err("internal level must be positive"@)
        } else if auxiliary == u64::MAX {
            Err("internal node has no first child"@)
        } else {
            match all_items_decoded(image, true) {
                Err(reason) => Err(reason),
                Ok(separators) => Ok(
                    NodeView::Internal { level, first_child: auxiliary, separators },
                ),
            }
        }
    } else {
        Err("unknown node kind "@ + text::decimal(image[6] as nat) + ""@)
    }
}

proof fn lemma_items_prepend(
    first: Seq<EntryView>,
    second: Seq<EntryView>,
    decoded: Result<(Seq<EntryView>, int), Seq<char>>,
)
    ensures
        items_prepended(first, items_prepended(second, decoded)) == items_prepended(
            first + second,
            decoded,
        ),
{
    if let Ok((entries, end)) = decoded {
        assert(first + (second + entries) =~= (first + second) + entries);
    }
}

pub proof fn lemma_items_bytes_len(entries: Seq<EntryView>)
    ensures
        items_bytes(entries).len() == items_size(entries),
        items_size(entries) >= ENTRY_OVERHEAD * entries.len(),
    decreases entries.len(),
{
    if entries.len() > 0 {
        lemma_items_bytes_len(entries.drop_last());
        bytes::lemma_le_round_trip(entries.last().key.len(), 4);
        bytes::lemma_le_round_trip(entries.last().value as nat, 8);
    }
}

/// An entry reads back from where it was written.
proof fn lemma_entry_read(image: Seq<u8>, cursor: int, entry: EntryView)
    requires
        0 <= cursor,
        cursor + entry_bytes(entry).len() <= image.len(),
        image.subrange(cursor, cursor + entry_bytes(entry).len()) == entry_bytes(entry),
        entry.key.len() < 0x1_0000_0000,
    ensures
        entry_bytes(entry).len() == ENTRY_OVERHEAD + entry.key.len(),
        entry_decoded(image, cursor) == Ok::<(EntryView, int), Seq<char>>(
            (entry, cursor + entry_bytes(entry).len()),
        ),
{
    let all = entry_bytes(entry);
    let length = entry.key.len() as int;
    bytes::lemma_byte_limits();
    bytes::lemma_le_round_trip(entry.key.len(), 4);
    bytes::lemma_le_round_trip(entry.value as nat, 8);
    let part = image.subrange(cursor, cursor + all.len());
    assert(image.subrange(cursor, cursor + 4) =~= part.subrange(0, 4));
    assert(all.subrange(0, 4) =~= bytes::le_bytes(entry.key.len(), 4));
    assert(image.subrange(cursor + 4, cursor + 4 + length) =~= part.subrange(4, 4 + length));
    assert(all.subrange(4, 4 + length) =~= entry.key);
    assert(image.subrange(cursor + 4 + length, cursor + 4 + length + 8) =~= part.subrange(
        4 + length,
        12 + length,
    ));
    assert(all.subrange(4 + length, 12 + length) =~= bytes::le_bytes(entry.value as nat, 8));
}

/// Entries read back from where they were written.
proof fn lemma_items_read(image: Seq<u8>, cursor: int, entries: Seq<EntryView>, internal: bool)
    requires
        0 <= cursor,
        cursor + items_bytes(entries).len() <= image.len(),
        image.subrange(cursor, cursor + items_bytes(entries).len()) == items_bytes(entries),
        items_size(entries) < 0x1_0000_0000,
        internal ==> forall|i: int|
            0 <= i < entries.len() ==> (#[trigger] entries[i]).value != u64::MAX,
    ensures
        items_decoded(image, cursor, entries.len(), internal) == Ok::<
            (Seq<EntryView>, int),
            Seq<char>,
        >((entries, cursor + items_bytes(entries).len())),
    decreases entries.len(),
{
    if entries.len() > 0 {
        let first = entries[0];
        let rest = entries.drop_first();
        lemma_items_front(entries);
        lemma_items_bytes_len(rest);
        lemma_items_bytes_len(entries);
        let head = entry_bytes(first);
        let all = items_bytes(entries);
        bytes::lemma_le_round_trip(first.key.len(), 4);
        bytes::lemma_le_round_trip(first.value as nat, 8);
        assert(head.len() == ENTRY_OVERHEAD + first.key.len());
        let part = image.subrange(cursor, cursor + all.len());
        assert(image.subrange(cursor, cursor + head.len()) =~= part.subrange(
            0,
            head.len() as int,
        ));
        assert(all.subrange(0, head.len() as int) =~= head);
        lemma_entry_read(image, cursor, first);
        let next = cursor + head.len();
        assert(image.subrange(next, next + items_bytes(rest).len()) =~= part.subrange(
            head.len() as int,
            all.len() as int,
        ));
        assert(all.subrange(head.len() as int, all.len() as int) =~= items_bytes(rest));
        assert forall|i: int| 0 <= i < rest.len() && internal implies (#[trigger] rest[i]).value
            != u64::MAX by {
            assert(rest[i] == entries[i + 1]);
        }
        lemma_items_read(image, next, rest, internal);
        assert(seq![first] + rest =~= entries);
    } else {
        assert(entries =~= Seq::empty());
    }
}

/// Entries written one behind the other start with the first.
proof fn lemma_items_front(entries: Seq<EntryView>)
    requires
        entries.len() > 0,
    ensures
        items_bytes(entries) == entry_bytes(entries[0]) + items_bytes(entries.drop_first()),
        items_size(entries) == ENTRY_OVERHEAD + entries[0].key.len() + items_size(
            entries.drop_first(),
        ),
    decreases entries.len(),
{
    let rest = entries.drop_first();
    if entries.len() == 1 {
        assert(rest =~= Seq::empty());
        assert(entries.drop_last() =~= Seq::empty());
        reveal_with_fuel(items_bytes, 2);
        reveal_with_fuel(items_size, 2);
        assert(items_bytes(entries) =~= entry_bytes(entries[0]) + items_bytes(rest));
    } else {
        lemma_items_front(entries.drop_last());
        assert(entries.drop_last().drop_first() =~= rest.drop_last());
        assert(rest.last() == entries.last());
        assert(items_bytes(entries) =~= entry_bytes(entries[0]) + items_bytes(rest));
    }
}

/// A node is 32 bytes and its entries: its letters, the version, its kind, a zero byte, how many entries
/// it has, its level, two zero bytes, the next leaf or the first child, and eight zero bytes; then each
/// entry as the length of its key, the key and its number.
pub proof fn law_node_layout(node: NodeView, entry: EntryView)
    requires
        node_items(node).len() < 0x1_0000_0000,
        entry.key.len() < 0x1_0000_0000,
    ensures
        ({
            let image = node_image(node);
            &&& image.subrange(0, 4) == seq![0x51u8, 0x4eu8, 0x49u8, 0x58u8]
            &&& bytes::le_field(image, 4, 2) == 1
            &&& bytes::le_field(image, 8, 4) == node_items(node).len()
            &&& match node {
                NodeView::Leaf { entries, next } => image[6] == 1 && bytes::le_field(image, 12, 2)
                    == 0 && bytes::le_field(image, 16, 8) == (match next {
                    Some(page) => page,
                    None => u64::MAX,
                }),
                NodeView::Internal { level, first_child, separators } => image[6] == 2
                    && bytes::le_field(image, 12, 2) == level && bytes::le_field(image, 16, 8)
                    == first_child,
            }
            &&& image.skip(32) == items_bytes(node_items(node))
        }),
        ({
            let bytes_of = entry_bytes(entry);
            let end = 4 + entry.key.len();
            &&& bytes_of.len() == end + 8
            &&& bytes::le_field(bytes_of, 0, 4) == entry.key.len()
            &&& bytes_of.subrange(4, end as int) == entry.key
            &&& bytes::le_field(bytes_of, end as int, 8) == entry.value
        }),
{
    let image = node_image(node);
    bytes::lemma_byte_limits();
    bytes::lemma_le_round_trip(1, 2);
    bytes::lemma_le_round_trip(node_items(node).len(), 4);
    bytes::lemma_le_round_trip(node_level(node) as nat, 2);
    bytes::lemma_le_round_trip(node_auxiliary(node) as nat, 8);
    assert(image.subrange(0, 4) =~= node_magic());
    assert(image.subrange(4, 6) =~= bytes::le_bytes(1, 2));
    assert(image.subrange(8, 12) =~= bytes::le_bytes(node_items(node).len(), 4));
    assert(image.subrange(12, 14) =~= bytes::le_bytes(node_level(node) as nat, 2));
    assert(image.subrange(16, 24) =~= bytes::le_bytes(node_auxiliary(node) as nat, 8));
    assert(image.skip(32) =~= items_bytes(node_items(node)));
    let bytes_of = entry_bytes(entry);
    let end = 4 + entry.key.len();
    bytes::lemma_le_round_trip(entry.key.len(), 4);
    bytes::lemma_le_round_trip(entry.value as nat, 8);
    assert(bytes_of.subrange(0, 4) =~= bytes::le_bytes(entry.key.len(), 4));
    assert(bytes_of.subrange(4, end as int) =~= entry.key);
    assert(bytes_of.subrange(end as int, end as int + 8) =~= bytes::le_bytes(
        entry.value as nat,
        8,
    ));
}

/// Decoding what a node was encoded to gives the node back.
pub proof fn law_node_round_trip(node: NodeView)
    requires
        node_storable(node),
    ensures
        node_decoded(node_image(node)) == Ok::<NodeView, Seq<char>>(node),
        node_image(node).len() == node_size(node),
{
    let image = node_image(node);
    let items = node_items(node);
    lemma_items_bytes_len(items);
    bytes::lemma_byte_limits();
    bytes::lemma_le_round_trip(1, 2);
    bytes::lemma_le_round_trip(items.len(), 4);
    bytes::lemma_le_round_trip(node_level(node) as nat, 2);
    bytes::lemma_le_round_trip(node_auxiliary(node) as nat, 8);
    assert(node_head(node).len() == 32);
    assert(image.subrange(0, 4) =~= node_magic());
    assert(image.subrange(4, 6) =~= bytes::le_bytes(1, 2));
    assert(image.subrange(8, 12) =~= bytes::le_bytes(items.len(), 4));
    assert(image.subrange(12, 14) =~= bytes::le_bytes(node_level(node) as nat, 2));
    assert(image.subrange(14, 16) =~= bytes::zeros(2));
    assert(image.subrange(16, 24) =~= bytes::le_bytes(node_auxiliary(node) as nat, 8));
    assert(image.subrange(24, 32) =~= bytes::zeros(8));
    assert(image.subrange(32, (32 + items_bytes(items).len()) as int) =~= items_bytes(items));
    assert(image[6] == node_kind(node));
    assert(image[7] == 0);
    lemma_items_read(image, 32, items, node is Internal);
}

proof fn lemma_items_decoded_values(image: Seq<u8>, cursor: int, count: nat)
    ensures
        items_decoded(image, cursor, count, true) matches Ok((entries, end)) ==> forall|i: int|
            0 <= i < entries.len() ==> (#[trigger] entries[i]).value != u64::MAX,
    decreases count,
{
    if count > 0 {
        if let Ok((entry, next)) = entry_decoded(image, cursor) {
            lemma_items_decoded_values(image, next, (count - 1) as nat);
        }
    }
}

proof fn lemma_items_decoded_len(image: Seq<u8>, cursor: int, count: nat, internal: bool)
    requires
        0 <= cursor <= image.len(),
    ensures
        items_decoded(image, cursor, count, internal) matches Ok((entries, end)) ==> {
            &&& entries.len() == count
            &&& end == cursor + items_size(entries)
            &&& end <= image.len()
        },
    decreases count,
{
    if count > 0 {
        if let Ok((entry, next)) = entry_decoded(image, cursor) {
            lemma_items_decoded_len(image, next, (count - 1) as nat, internal);
            if let Ok((rest, end)) = items_decoded(image, next, (count - 1) as nat, internal) {
                let all = seq![entry] + rest;
                lemma_items_front(all);
                assert(all.drop_first() =~= rest);
            }
        }
    }
}

/// What decodes is storable, and takes the bytes that it came from.
pub proof fn law_decoded_is_storable(image: Seq<u8>)
    requires
        image.len() <= MAX_PAGE_PAYLOAD,
    ensures
        node_decoded(image) matches Ok(node) ==> node_storable(node) && node_size(node)
            == image.len(),
{
    if let Ok(node) = node_decoded(image) {
        let count = bytes::le_field(image, 8, 4);
        lemma_items_decoded_len(image, 32, count, node is Internal);
        lemma_items_decoded_values(image, 32, count);
    }
}

/// An entry that was read takes the bytes that it was read from.
proof fn lemma_entry_canonical(image: Seq<u8>, cursor: int)
    requires
        0 <= cursor <= image.len(),
    ensures
        entry_decoded(image, cursor) matches Ok((entry, next)) ==> cursor <= next <= image.len()
            && entry_bytes(entry) == image.subrange(cursor, next),
{
    if let Ok((entry, next)) = entry_decoded(image, cursor) {
        let length = bytes::le_field(image, cursor, 4) as int;
        bytes::lemma_byte_limits();
        bytes::lemma_le_canonical(image.subrange(cursor, cursor + 4));
        bytes::lemma_le_canonical(image.subrange(cursor + 4 + length, cursor + 12 + length));
        assert(entry.key.len() == length);
        assert(entry_bytes(entry) =~= image.subrange(cursor, cursor + 4) + image.subrange(
            cursor + 4,
            cursor + 4 + length,
        ) + image.subrange(cursor + 4 + length, cursor + 12 + length));
        assert(image.subrange(cursor, next) =~= image.subrange(cursor, cursor + 4)
            + image.subrange(cursor + 4, cursor + 4 + length) + image.subrange(
            cursor + 4 + length,
            cursor + 12 + length,
        ));
    }
}

/// Entries that were read take the bytes that they were read from.
proof fn lemma_items_canonical(image: Seq<u8>, cursor: int, count: nat, internal: bool)
    requires
        0 <= cursor <= image.len(),
    ensures
        items_decoded(image, cursor, count, internal) matches Ok((entries, end)) ==> cursor <= end
            <= image.len() && items_bytes(entries) == image.subrange(cursor, end),
    decreases count,
{
    if count == 0 {
        assert(image.subrange(cursor, cursor) =~= Seq::empty());
    } else {
        lemma_entry_canonical(image, cursor);
        if let Ok((entry, next)) = entry_decoded(image, cursor) {
            lemma_items_canonical(image, next, (count - 1) as nat, internal);
            if let Ok((rest, end)) = items_decoded(image, next, (count - 1) as nat, internal) {
                let all = seq![entry] + rest;
                lemma_items_front(all);
                assert(all.drop_first() =~= rest);
                assert(image.subrange(cursor, end) =~= image.subrange(cursor, next)
                    + image.subrange(next, end));
            }
        }
    }
}

/// A node has one image: what decodes to a node is what the node is encoded to.
pub proof fn law_decoded_is_canonical(image: Seq<u8>, node: NodeView)
    requires
        node_decoded(image) == Ok::<NodeView, Seq<char>>(node),
    ensures
        node_image(node) == image,
        keys_rise(node_items(node)),
        match node {
            NodeView::Leaf { next, .. } => node_level(node) == 0 && next != Some(u64::MAX),
            NodeView::Internal { level, first_child, separators } => level >= 1 && first_child
                != u64::MAX && forall|i: int|
                0 <= i < separators.len() ==> (#[trigger] separators[i]).value != u64::MAX,
        },
{
    let count = bytes::le_field(image, 8, 4);
    lemma_items_canonical(image, 32, count, node is Internal);
    lemma_items_decoded_len(image, 32, count, node is Internal);
    lemma_items_decoded_values(image, 32, count);
    bytes::lemma_byte_limits();
    bytes::lemma_le_canonical(image.subrange(4, 6));
    bytes::lemma_le_canonical(image.subrange(8, 12));
    bytes::lemma_le_canonical(image.subrange(12, 14));
    bytes::lemma_le_canonical(image.subrange(16, 24));
    let head = node_head(node);
    assert(head =~= image.subrange(0, 4) + image.subrange(4, 6) + image.subrange(6, 7)
        + image.subrange(7, 8) + image.subrange(8, 12) + image.subrange(12, 14) + image.subrange(
        14,
        16,
    ) + image.subrange(16, 24) + image.subrange(24, 32));
    assert(head =~= image.subrange(0, 32));
    assert(image =~= image.subrange(0, 32) + image.subrange(32, image.len() as int));
}

/// Keys that rise from each to the next rise throughout.
pub proof fn lemma_keys_rise_push(entries: Seq<EntryView>, entry: EntryView)
    requires
        keys_rise(entries),
        entries.len() > 0 ==> key::key_lt(entries.last().key, entry.key),
    ensures
        keys_rise(entries.push(entry)),
{
    let all = entries.push(entry);
    assert forall|i: int, j: int| 0 <= i < j < all.len() implies key::key_lt(
        (#[trigger] all[i]).key,
        (#[trigger] all[j]).key,
    ) by {
        if j == entries.len() {
            if i < entries.len() - 1 {
                assert(key::key_lt(entries[i].key, entries[entries.len() - 1].key));
                key::lemma_key_transitive(entries[i].key, entries.last().key, entry.key);
            }
        } else {
            assert(all[i] == entries[i] && all[j] == entries[j]);
        }
    }
}

/// Whether keys rise strictly.
pub fn rises(entries: &Vec<IndexEntry>) -> (rising: bool)
    ensures
        rising == keys_rise(entry_views(entries@)),
{
    let ghost all = entry_views(entries@);
    let mut index: usize = 1;
    if entries.len() < 2 {
        return true;
    }
    proof {
        assert(keys_rise(all.take(1)));
    }
    while index < entries.len()
        invariant
            1 <= index <= entries@.len(),
            all == entry_views(entries@),
            keys_rise(all.take(index as int)),
        decreases entries@.len() - index,
    {
        let order = order_keys(entries[index - 1].key.as_slice(), entries[index].key.as_slice());
        if !matches!(order, KeyOrder::Before) {
            proof {
                assert(!key::key_lt(all[index - 1].key, all[index as int].key));
            }
            return false;
        }
        proof {
            lemma_keys_rise_push(all.take(index as int), all[index as int]);
            assert(all.take(index + 1) =~= all.take(index as int).push(all[index as int]));
        }
        index = index + 1;
    }
    assert(all.take(index as int) =~= all);
    true
}

/// The bytes that entries take, or nothing where that exceeds a page's payload.
fn measure(entries: &Vec<IndexEntry>) -> (size: Option<usize>)
    ensures
        match size {
            Some(size) => size == items_size(entry_views(entries@)) && size + NODE_HEADER_SIZE
                <= MAX_PAGE_PAYLOAD,
            None => items_size(entry_views(entries@)) + NODE_HEADER_SIZE > MAX_PAGE_PAYLOAD,
        },
{
    let ghost all = entry_views(entries@);
    let mut size: usize = 0;
    let mut index: usize = 0;
    assert(all.take(0) =~= Seq::empty());
    while index < entries.len()
        invariant
            index <= entries@.len(),
            all == entry_views(entries@),
            size == items_size(all.take(index as int)),
            size + NODE_HEADER_SIZE <= MAX_PAGE_PAYLOAD,
        decreases entries@.len() - index,
    {
        proof {
            assert(all.take(index + 1).drop_last() =~= all.take(index as int));
            lemma_items_take(all, index + 1);
        }
        let length: usize = entries[index].key.len();
        if length > MAX_PAGE_PAYLOAD || size + NODE_HEADER_SIZE + ENTRY_OVERHEAD + length
            > MAX_PAGE_PAYLOAD {
            return None;
        }
        size = size + ENTRY_OVERHEAD + length;
        index = index + 1;
    }
    assert(all.take(index as int) =~= all);
    Some(size)
}

pub proof fn lemma_items_take(entries: Seq<EntryView>, count: int)
    requires
        0 <= count <= entries.len(),
    ensures
        items_size(entries.take(count)) <= items_size(entries),
    decreases entries.len() - count,
{
    if count < entries.len() {
        assert(entries.take(count + 1).drop_last() =~= entries.take(count));
        lemma_items_take(entries, count + 1);
    } else {
        assert(entries.take(count) =~= entries);
    }
}

fn put_items(out: &mut Vec<u8>, entries: &Vec<IndexEntry>)
    ensures
        final(out)@ == old(out)@ + items_bytes(entry_views(entries@)),
{
    let ghost all = entry_views(entries@);
    let mut index: usize = 0;
    proof {
        assert(all.take(0) =~= Seq::empty());
        assert(out@ + Seq::<u8>::empty() =~= out@);
    }
    while index < entries.len()
        invariant
            index <= entries@.len(),
            all == entry_views(entries@),
            out@ == old(out)@ + items_bytes(all.take(index as int)),
        decreases entries@.len() - index,
    {
        let entry = &entries[index];
        let ghost before = out@;
        put_le(out, entry.key.len() as u64, 4);
        put_bytes(out, entry.key.as_slice());
        put_le(out, entry.value.0, 8);
        proof {
            assert(all.take(index + 1).drop_last() =~= all.take(index as int));
            assert(out@ =~= before + entry_bytes(entry@));
            assert(out@ =~= old(out)@ + items_bytes(all.take(index + 1)));
        }
        index = index + 1;
    }
    assert(all.take(index as int) =~= all);
}

impl Node {
    pub fn level(&self) -> (level: u16)
        ensures
            level == node_level(self@),
    {
        match self {
            Node::Leaf { .. } => 0,
            Node::Internal { level, .. } => *level,
        }
    }

    /// A copy of the node.
    pub fn duplicate(&self) -> (copy: Node)
        ensures
            copy@ == self@,
    {
        match self {
            Node::Leaf { entries, next } => {
                let copied = copy_entries(entries, 0, entries.len());
                assert(entry_views(copied@) =~= entry_views(entries@));
                Node::Leaf { entries: copied, next: *next }
            },
            Node::Internal { level, first_child, separators } => {
                let copied = copy_entries(separators, 0, separators.len());
                assert(entry_views(copied@) =~= entry_views(separators@));
                Node::Internal { level: *level, first_child: *first_child, separators: copied }
            },
        }
    }

    /// What the node accounts for in a cache.
    pub fn approximate_bytes(&self) -> (size: usize)
        ensures
            size == if node_size(self@) <= MAX_PAGE_PAYLOAD {
                node_size(self@)
            } else {
                usize::MAX as nat
            },
    {
        let measured = match self {
            Node::Leaf { entries, .. } => measure(entries),
            Node::Internal { separators, .. } => measure(separators),
        };
        match measured {
            Some(size) => size + NODE_HEADER_SIZE,
            None => usize::MAX,
        }
    }

    /// The node as it stands in a page.
    pub fn encode(&self) -> (image: Result<Vec<u8>, IndexError>)
        ensures
            match image {
                Ok(image) => node_size(self@) <= MAX_PAGE_PAYLOAD && image@ == node_image(self@)
                    && image@.len() == node_size(self@),
                Err(error) => node_size(self@) > MAX_PAGE_PAYLOAD && error@ == node_refused(self@),
            },
    {
        let items = match self {
            Node::Leaf { entries, .. } => entries,
            Node::Internal { separators, .. } => separators,
        };
        match measure(items) {
            Some(_) => {},
            None => {
                return Err(
                    IndexError::KeyTooLarge {
                        actual: capped_size(items),
                        maximum: MAX_PAGE_PAYLOAD,
                    },
                );
            },
        }
        proof {
            lemma_items_bytes_len(node_items(self@));
            bytes::lemma_le_round_trip(1, 2);
            bytes::lemma_le_round_trip(node_items(self@).len(), 4);
            bytes::lemma_le_round_trip(node_level(self@) as nat, 2);
            bytes::lemma_le_round_trip(node_auxiliary(self@) as nat, 8);
        }
        let (kind, auxiliary): (u8, u64) = match self {
            Node::Leaf { next, .. } => (
                1,
                match next {
                    Some(page_id) => page_id.0,
                    None => NO_PAGE,
                },
            ),
            Node::Internal { first_child, .. } => (2, first_child.0),
        };
        let mut image: Vec<u8> = Vec::new();
        image.push(0x51);
        image.push(0x4e);
        image.push(0x49);
        image.push(0x58);
        assert(image@ =~= node_magic());
        put_le(&mut image, 1, 2);
        image.push(kind);
        put_zeros(&mut image, 1);
        put_le(&mut image, items.len() as u64, 4);
        put_le(&mut image, self.level() as u64, 2);
        put_zeros(&mut image, 2);
        put_le(&mut image, auxiliary, 8);
        put_zeros(&mut image, 8);
        assert(image@ =~= node_head(self@));
        put_items(&mut image, items);
        Ok(image)
    }

    /// Reads the node that a page holds.
    pub fn decode(page_id: PageId, image: &[u8]) -> (node: Result<Node, IndexError>)
        ensures
            match node {
                Ok(node) => node_decoded(image@) == Ok::<NodeView, Seq<char>>(node@),
                Err(error) => node_decoded(image@) matches Err(reason) && error@ == (
                IndexErrorView::CorruptNode { page_id: page_id.0, reason }),
            },
    {
        if image.len() < NODE_HEADER_SIZE {
            return Err(corrupt(page_id, "node is shorter than its header"));
        }
        proof {
            bytes::lemma_byte_limits();
        }
        let magic_matches = image[0] == 0x51 && image[1] == 0x4e && image[2] == 0x49 && image[3]
            == 0x58;
        assert(magic_matches == (image@.subrange(0, 4) == node_magic())) by {
            if magic_matches {
                assert(image@.subrange(0, 4) =~= node_magic());
            } else {
                assert(image@[0] == image@.subrange(0, 4)[0]);
                assert(image@[1] == image@.subrange(0, 4)[1]);
                assert(image@[2] == image@.subrange(0, 4)[2]);
                assert(image@[3] == image@.subrange(0, 4)[3]);
            }
        }
        if !magic_matches {
            return Err(corrupt(page_id, "invalid node magic"));
        }
        let version: u64 = get_le(image, 4, 2);
        if version != 1 {
            return Err(
                IndexError::CorruptNode {
                    page_id,
                    reason: text_with_number("unsupported node format version ", version, ""),
                },
            );
        }
        let level_padding = copy_range(image, 14, 16);
        let tail_padding = copy_range(image, 24, 32);
        if image[7] != 0 || !bytes::all_zero(level_padding.as_slice()) || !bytes::all_zero(
            tail_padding.as_slice(),
        ) {
            return Err(corrupt(page_id, "reserved header bytes are not zero"));
        }
        let kind: u8 = image[6];
        let count: u64 = get_le(image, 8, 4);
        let level: u16 = get_le(image, 12, 2) as u16;
        let auxiliary: u64 = get_le(image, 16, 8);
        if kind == 1 {
            if level != 0 {
                return Err(corrupt(page_id, "leaf level must be zero"));
            }
            match decode_items(page_id, image, count, false) {
                Err(error) => Err(error),
                Ok(entries) => Ok(
                    Node::Leaf {
                        entries,
                        next: if auxiliary == NO_PAGE {
                            None
                        } else {
                            Some(PageId(auxiliary))
                        },
                    },
                ),
            }
        } else if kind == 2 {
            if level == 0 {
                return Err(corrupt(page_id, "internal level must be positive"));
            }
            if auxiliary == NO_PAGE {
                return Err(corrupt(page_id, "internal node has no first child"));
            }
            match decode_items(page_id, image, count, true) {
                Err(error) => Err(error),
                Ok(separators) => Ok(
                    Node::Internal { level, first_child: PageId(auxiliary), separators },
                ),
            }
        } else {
            Err(
                IndexError::CorruptNode {
                    page_id,
                    reason: text_with_number("unknown node kind ", kind as u64, ""),
                },
            )
        }
    }
}

/// The size of a node with these entries, stopping at the largest `usize`.
fn capped_size(entries: &Vec<IndexEntry>) -> (size: usize)
    ensures
        size == if NODE_HEADER_SIZE + items_size(entry_views(entries@)) > usize::MAX {
            usize::MAX as nat
        } else {
            NODE_HEADER_SIZE as nat + items_size(entry_views(entries@))
        },
{
    let ghost all = entry_views(entries@);
    let mut size: usize = NODE_HEADER_SIZE;
    let mut index: usize = 0;
    assert(all.take(0) =~= Seq::empty());
    while index < entries.len()
        invariant
            index <= entries@.len(),
            all == entry_views(entries@),
            size == NODE_HEADER_SIZE + items_size(all.take(index as int)),
        decreases entries@.len() - index,
    {
        proof {
            assert(all.take(index + 1).drop_last() =~= all.take(index as int));
            lemma_items_take(all, index + 1);
        }
        let length: usize = entries[index].key.len();
        if length > usize::MAX - ENTRY_OVERHEAD || size > usize::MAX - ENTRY_OVERHEAD - length {
            return usize::MAX;
        }
        size = size + ENTRY_OVERHEAD + length;
        index = index + 1;
    }
    assert(all.take(index as int) =~= all);
    size
}

/// Reads the entries behind a node's header.
fn decode_items(page_id: PageId, image: &[u8], count: u64, internal: bool) -> (items: Result<
    Vec<IndexEntry>,
    IndexError,
>)
    requires
        image@.len() >= NODE_HEADER_SIZE,
        count == bytes::le_field(image@, 8, 4),
    ensures
        match items {
            Ok(items) => all_items_decoded(image@, internal) == Ok::<Seq<EntryView>, Seq<char>>(
                entry_views(items@),
            ),
            Err(error) => all_items_decoded(image@, internal) matches Err(reason) && error@ == (
            IndexErrorView::CorruptNode { page_id: page_id.0, reason }),
        },
{
    let length: usize = image.len();
    let mut items: Vec<IndexEntry> = Vec::new();
    let mut cursor: usize = NODE_HEADER_SIZE;
    let mut left: u64 = count;
    proof {
        let rest = items_decoded(image@, 32, count as nat, internal);
        if let Ok((entries, end)) = rest {
            assert(entry_views(items@) + entries =~= entries);
        }
        bytes::lemma_byte_limits();
    }
    while left > 0
        invariant
            cursor <= length == image@.len(),
            left <= count,
            count == bytes::le_field(image@, 8, 4),
            items_decoded(image@, 32, count as nat, internal) == items_prepended(
                entry_views(items@),
                items_decoded(image@, cursor as int, left as nat, internal),
            ),
            byte_limits_known(),
        decreases left,
    {
        if length - cursor < 4 {
            return Err(corrupt(page_id, "node ends inside a 32-bit field"));
        }
        let key_length: u64 = get_le(image, cursor, 4);
        if key_length > (length - cursor - 4) as u64 {
            return Err(corrupt(page_id, "key extends past node boundary"));
        }
        let key_end: usize = cursor + 4 + key_length as usize;
        if length - key_end < 8 {
            return Err(corrupt(page_id, "node ends inside a 64-bit field"));
        }
        let key = copy_range(image, cursor + 4, key_end);
        let value: u64 = get_le(image, key_end, 8);
        if internal && value == NO_PAGE {
            return Err(corrupt(page_id, "separator has no child"));
        }
        let entry = IndexEntry { key, value: PageId(value) };
        proof {
            let before = entry_views(items@);
            let rest = items_decoded(image@, key_end + 8, (left - 1) as nat, internal);
            lemma_items_prepend(before, seq![entry@], rest);
            assert(entry_views(items@.push(entry)) =~= before + seq![entry@]);
        }
        items.push(entry);
        cursor = key_end + 8;
        left = left - 1;
    }
    assert(entry_views(items@) + Seq::<EntryView>::empty() =~= entry_views(items@));
    if cursor != length {
        return Err(
            IndexError::CorruptNode {
                page_id,
                reason: text_with_number(
                    "node contains ",
                    (length - cursor) as u64,
                    " trailing bytes",
                ),
            },
        );
    }
    if !rises(&items) {
        return Err(corrupt(page_id, "node keys are not strictly increasing"));
    }
    Ok(items)
}

spec fn byte_limits_known() -> bool {
    bytes::byte_limit(4) == 0x1_0000_0000 && bytes::byte_limit(8) == 0x1_0000_0000_0000_0000
}

} // verus!
