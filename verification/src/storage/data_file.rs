//! The data file: one slot per page, holes where nothing was ever written.
use crate::bytes;
use crate::bytes::{all_zero, copy_range};
use crate::storage::error::{StorageError, StorageErrorView};
use crate::storage::page;
use crate::storage::page::{Page, PageId, PageView, PAGE_SIZE};
use crate::text;
use crate::text::text_with_number;
use std::collections::HashMap;
use vstd::prelude::*;
use vstd::string::*;

verus! {

broadcast use vstd::std_specs::hash::group_hash_axioms;

/// The contents of a data file, kept in step with the file on disk.
pub struct DataFile {
    slots: HashMap<u64, Vec<u8>>,
    page_count: u64,
}

/// The slots that hold something, and the length of the file in pages.
#[verifier::ext_equal]
pub struct DataView {
    pub slots: Map<u64, Seq<u8>>,
    pub page_count: u64,
}

/// One past the last page whose place in the file has a 64-bit offset.
pub const PAGE_LIMIT: u64 = 0x8_0000_0000_0000;

impl DataView {
    /// Every slot is one page long and inside the file.
    pub open spec fn wf(self) -> bool {
        &&& self.page_count <= PAGE_LIMIT
        &&& forall|id: u64| #[trigger]
            self.slots.contains_key(id) ==> id < self.page_count && self.slots[id].len()
                == PAGE_SIZE
    }

    /// The bytes of a slot inside the file.
    pub open spec fn slot(self, id: u64) -> Seq<u8> {
        if self.slots.contains_key(id) {
            self.slots[id]
        } else {
            bytes::zeros(PAGE_SIZE as nat)
        }
    }
}

/// Whether a page's place in the file has a 64-bit offset.
pub open spec fn has_offset(id: u64) -> bool {
    id * PAGE_SIZE <= u64::MAX
}

/// What reading a page gives: nothing beyond the end or where all is zero, the page if its image
/// is sound and names it, and an error otherwise.
pub open spec fn data_read(data: DataView, id: u64) -> Result<Option<PageView>, StorageErrorView> {
    if !has_offset(id) {
        Err(StorageErrorView::CorruptDataFile("page offset overflow"@))
    } else if id >= data.page_count || data.slot(id) == bytes::zeros(PAGE_SIZE as nat) {
        Ok(None)
    } else {
        match page::page_decoded(data.slot(id)) {
            Err(error) => Err(error),
            Ok(found) => if found.id != id {
                Err(
                    StorageErrorView::CorruptPage {
                        page_id: id,
                        reason: "page header contains ID "@ + text::decimal(found.id as nat) + ""@,
                    },
                )
            } else {
                Ok(Some(found))
            },
        }
    }
}

/// The file with one page written.
pub open spec fn data_written(data: DataView, written: PageView) -> DataView {
    DataView {
        slots: data.slots.insert(written.id, page::page_image(written)),
        page_count: if data.page_count > written.id {
            data.page_count
        } else {
            (written.id + 1) as u64
        },
    }
}

/// The highest LSN of the pages below `end`, or the first error in reading them.
pub open spec fn data_max_lsn(data: DataView, end: nat) -> Result<u64, StorageErrorView>
    decreases end,
{
    if end == 0 {
        Ok(0)
    } else {
        match data_max_lsn(data, (end - 1) as nat) {
            Err(error) => Err(error),
            Ok(highest) => match data_read(data, (end - 1) as u64) {
                Err(error) => Err(error),
                Ok(None) => Ok(highest),
                Ok(Some(found)) => Ok(
                    if found.lsn > highest {
                        found.lsn
                    } else {
                        highest
                    },
                ),
            },
        }
    }
}

/// The file that bytes spell out: whole pages, a partial last one left off.
pub open spec fn data_of_bytes(file: Seq<u8>) -> DataView {
    let count = file.len() as int / (PAGE_SIZE as int);
    DataView {
        slots: Map::new(
            |id: u64|
                id < count && file.subrange(id * PAGE_SIZE, (id + 1) * PAGE_SIZE) != bytes::zeros(
                    PAGE_SIZE as nat,
                ),
            |id: u64| file.subrange(id * PAGE_SIZE, (id + 1) * PAGE_SIZE),
        ),
        page_count: count as u64,
    }
}

/// Reading a page right after writing it gives it back; no other page reads differently.
pub proof fn law_write_then_read(data: DataView, written: PageView)
    requires
        data.wf(),
        has_offset(written.id),
        page::fits_page(written.payload),
    ensures
        data_written(data, written).wf(),
        data_read(data_written(data, written), written.id) == Ok::<
            Option<PageView>,
            StorageErrorView,
        >(Some(written)),
        forall|id: u64|
            id != written.id ==> #[trigger] data_read(data_written(data, written), id)
                == data_read(data, id),
{
    let after = data_written(data, written);
    page::law_page_round_trip(written);
    page::lemma_image_not_zero(written);
    assert(after.slot(written.id) == page::page_image(written));
    assert(page::page_image(written).len() == PAGE_SIZE) by {
        assert(page::page_decoded(page::page_image(written)) is Ok);
    }
    assert forall|id: u64| id != written.id implies #[trigger] data_read(after, id) == data_read(
        data,
        id,
    ) by {
        assert(after.slot(id) == data.slot(id));
        if id >= data.page_count && id < after.page_count {
            assert(!data.slots.contains_key(id));
        }
    }
}

/// The place of a page in the data file.
pub fn page_offset(page_id: PageId) -> (offset: Result<u64, StorageError>)
    ensures
        match offset {
            Ok(offset) => has_offset(page_id.0) && offset == page_id.0 * PAGE_SIZE,
            Err(error) => !has_offset(page_id.0) && error@ == StorageErrorView::CorruptDataFile(
                "page offset overflow"@,
            ),
        },
{
    match page_id.0.checked_mul(PAGE_SIZE as u64) {
        Some(offset) => Ok(offset),
        None => Err(StorageError::CorruptDataFile(String::from_str("page offset overflow"))),
    }
}

impl View for DataFile {
    type V = DataView;

    closed spec fn view(&self) -> DataView {
        DataView {
            slots: Map::new(
                |id: u64| self.slots@.contains_key(id),
                |id: u64| self.slots@[id]@,
            ),
            page_count: self.page_count,
        }
    }
}

impl DataFile {
    /// Opens a data file on its bytes.
    ///
    /// A partial last page can only be a torn append, so it is left off; the file has to be cut
    /// to whole pages.
    pub fn open(file: &[u8]) -> (data: DataFile)
        ensures
            data@ == data_of_bytes(file@),
            data@.wf(),
    {
        let length: usize = file.len();
        let count: usize = length / PAGE_SIZE;
        let mut slots: HashMap<u64, Vec<u8>> = HashMap::new();
        let mut index: usize = 0;
        while index < count
            invariant
                index <= count,
                length == file@.len(),
                count == length / PAGE_SIZE,
                forall|id: u64| #[trigger]
                    slots@.contains_key(id) <==> id < index && file@.subrange(
                        id * PAGE_SIZE,
                        (id + 1) * PAGE_SIZE,
                    ) != bytes::zeros(PAGE_SIZE as nat),
                forall|id: u64| #[trigger]
                    slots@.contains_key(id) ==> slots@[id]@ == file@.subrange(
                        id * PAGE_SIZE,
                        (id + 1) * PAGE_SIZE,
                    ),
            decreases count - index,
        {
            assert((index + 1) * PAGE_SIZE <= length);
            let start: usize = index * PAGE_SIZE;
            let slot = copy_range(file, start, start + PAGE_SIZE);
            assert(slot@ == file@.subrange(index * PAGE_SIZE, (index + 1) * PAGE_SIZE));
            if !all_zero(slot.as_slice()) {
                slots.insert(index as u64, slot);
            }
            index = index + 1;
        }
        let data = DataFile { slots, page_count: count as u64 };
        proof {
            let expected = data_of_bytes(file@);
            assert(data@.slots =~= expected.slots);
        }
        data
    }

    /// Reads one page.
    pub fn read(&self, page_id: PageId) -> (found: Result<Option<Page>, StorageError>)
        requires
            self@.wf(),
        ensures
            match found {
                Ok(None) => data_read(self@, page_id.0) == Ok::<Option<PageView>, StorageErrorView>(
                    None,
                ),
                Ok(Some(found)) => data_read(self@, page_id.0) == Ok::<
                    Option<PageView>,
                    StorageErrorView,
                >(Some(found@)) && page::fits_page(found@.payload),
                Err(error) => data_read(self@, page_id.0) == Err::<
                    Option<PageView>,
                    StorageErrorView,
                >(error@),
            },
    {
        match page_offset(page_id) {
            Ok(_) => {},
            Err(error) => {
                return Err(error);
            },
        }
        if page_id.0 >= self.page_count {
            return Ok(None);
        }
        match self.slots.get(&page_id.0) {
            None => {
                assert(self@.slot(page_id.0) == bytes::zeros(PAGE_SIZE as nat));
                Ok(None)
            },
            Some(slot) => {
                assert(self@.slots.contains_key(page_id.0));
                assert(self@.slot(page_id.0) == slot@);
                if all_zero(slot.as_slice()) {
                    return Ok(None);
                }
                match Page::decode(slot.as_slice()) {
                    Err(error) => Err(error),
                    Ok(found) => {
                        if found.id().0 != page_id.0 {
                            return Err(
                                StorageError::CorruptPage {
                                    page_id,
                                    reason: text_with_number(
                                        "page header contains ID ",
                                        found.id().0,
                                        "",
                                    ),
                                },
                            );
                        }
                        Ok(Some(found))
                    },
                }
            },
        }
    }

    /// Puts a page in its slot and returns the image that has to be written at its offset.
    pub fn write(&mut self, written: &Page) -> (image: Result<Vec<u8>, StorageError>)
        requires
            old(self)@.wf(),
            page::fits_page(written@.payload),
        ensures
            final(self)@.wf(),
            match image {
                Ok(image) => {
                    &&& has_offset(written@.id)
                    &&& image@ == page::page_image(written@)
                    &&& final(self)@ == data_written(old(self)@, written@)
                },
                Err(error) => {
                    &&& !has_offset(written@.id)
                    &&& error@ == StorageErrorView::CorruptDataFile("page offset overflow"@)
                    &&& final(self)@ == old(self)@
                },
            },
    {
        let page_id = written.id();
        match page_offset(page_id) {
            Ok(_) => {},
            Err(error) => {
                return Err(error);
            },
        }
        let image = written.encode();
        let slot = bytes::copy_bytes(image.as_slice());
        proof {
            law_write_then_read(self@, written@);
        }
        self.slots.insert(page_id.0, slot);
        if self.page_count <= page_id.0 {
            self.page_count = page_id.0 + 1;
        }
        assert(self@.slots =~= data_written(old(self)@, written@).slots);
        Ok(image)
    }

    /// The length of the file in pages.
    pub fn page_count(&self) -> (count: u64)
        ensures
            count == self@.page_count,
    {
        self.page_count
    }

    /// The highest LSN that any page carries.
    pub fn max_lsn(&self) -> (highest: Result<u64, StorageError>)
        requires
            self@.wf(),
        ensures
            match highest {
                Ok(highest) => data_max_lsn(self@, self@.page_count as nat) == Ok::<
                    u64,
                    StorageErrorView,
                >(highest),
                Err(error) => data_max_lsn(self@, self@.page_count as nat) == Err::<
                    u64,
                    StorageErrorView,
                >(error@),
            },
    {
        let mut highest: u64 = 0;
        let mut index: u64 = 0;
        while index < self.page_count
            invariant
                self@.wf(),
                index <= self@.page_count == self.page_count,
                data_max_lsn(self@, index as nat) == Ok::<u64, StorageErrorView>(highest),
            decreases self.page_count - index,
        {
            match self.read(PageId(index)) {
                Err(error) => {
                    proof {
                        lemma_max_lsn_error(self@, (index + 1) as nat, self@.page_count as nat);
                    }
                    return Err(error);
                },
                Ok(None) => {},
                Ok(Some(found)) => {
                    if found.lsn().0 > highest {
                        highest = found.lsn().0;
                    }
                },
            }
            index = index + 1;
        }
        Ok(highest)
    }
}

proof fn lemma_max_lsn_error(data: DataView, start: nat, end: nat)
    requires
        start <= end,
        data_max_lsn(data, start) is Err,
    ensures
        data_max_lsn(data, end) == data_max_lsn(data, start),
    decreases end,
{
    if start < end {
        lemma_max_lsn_error(data, start, (end - 1) as nat);
    }
}

/// The highest LSN is at least that of every page, and some page carries it.
pub proof fn lemma_max_lsn_bounds(data: DataView, end: nat)
    requires
        data_max_lsn(data, end) is Ok,
        end <= u64::MAX,
    ensures
        forall|id: u64|
            id < end ==> (#[trigger] data_read(data, id)) is Ok && (data_read(
                data,
                id,
            ) matches Ok(Some(found)) ==> found.lsn <= data_max_lsn(data, end)->Ok_0),
    decreases end,
{
    if end > 0 {
        lemma_max_lsn_bounds(data, (end - 1) as nat);
    }
}

/// Where every page reads and stays below a bound, so does the highest LSN.
pub proof fn lemma_max_lsn_below(data: DataView, end: nat, bound: u64)
    requires
        end <= u64::MAX,
        forall|id: u64|
            id < end ==> (#[trigger] data_read(data, id)) is Ok && (data_read(
                data,
                id,
            ) matches Ok(Some(found)) ==> found.lsn <= bound),
    ensures
        data_max_lsn(data, end) matches Ok(highest) && highest <= bound,
    decreases end,
{
    if end > 0 {
        lemma_max_lsn_below(data, (end - 1) as nat, bound);
        assert(data_read(data, (end - 1) as u64) is Ok);
    }
}

/// A page that reads has a payload that fits.
pub proof fn lemma_read_fits(data: DataView, id: u64)
    requires
        data.wf(),
    ensures
        data_read(data, id) matches Ok(Some(found)) ==> page::fits_page(found.payload),
{
}

/// A page that the file does not reach, or whose place is all zero, is not there. Anything else in its
/// place is the page or is told: a page is never read from the place of another.
pub proof fn law_pages_are_read_from_their_places(data: DataView, id: u64)
    requires
        has_offset(id),
    ensures
        id >= data.page_count ==> data_read(data, id) == Ok::<Option<PageView>, StorageErrorView>(
            None,
        ),
        id < data.page_count && !data.slots.contains_key(id) ==> data_read(data, id) == Ok::<
            Option<PageView>,
            StorageErrorView,
        >(None),
        data_read(data, id) matches Ok(Some(found)) ==> found.id == id && id < data.page_count,
        data_read(data, id) is Ok && id < data.page_count && data_read(data, id)->Ok_0 is None
            ==> data.slot(id) == bytes::zeros(PAGE_SIZE as nat),
{
}

/// The place of a page in the file is that of its number, counted in pages.
pub proof fn law_places_are_counted_in_pages(file: Seq<u8>, id: u64, i: int)
    requires
        file.len() <= u64::MAX,
        (id + 1) * 8192 <= file.len(),
        0 <= i < 8192,
    ensures
        data_of_bytes(file).page_count == file.len() / 8192,
        id < data_of_bytes(file).page_count,
        data_of_bytes(file).slot(id).len() == 8192,
        data_of_bytes(file).slot(id)[i] == file[id * 8192 + i],
{
    let part = file.subrange(id * PAGE_SIZE, (id + 1) * PAGE_SIZE);
    assert(part[i] == file[id * 8192 + i]);
    if part == bytes::zeros(PAGE_SIZE as nat) {
        assert(bytes::zeros(PAGE_SIZE as nat)[i] == 0);
    }
}

} // verus!
