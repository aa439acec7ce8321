//! Leaf pages: a fixed-length byte buffer with a header and packed record
//! slots.

use vstd::prelude::*;
use vstd::slice::slice_subrange;
use crate::bytes::{
    be_bytes, be_encode, be_value, lemma_be_bytes_len, lemma_be_value_of_bytes,
    lemma_pow256_values, overwrite, read_be,
};
use crate::data::{same_point, Descriptor};
use crate::error::Error;
use crate::layout;
use crate::record::{
    decode_record, lemma_record_roundtrip, record_bytes, record_size, RecordView, TreeRecord,
};

verus! {

/// The tag byte that opens a page.
#[derive(Debug, Clone, Copy, PartialEq, Eq, Structural)]
pub enum PageType {
    Node,
    Leaf,
}

impl PageType {
    /// The stored tag: one for a node page, two for a leaf page.
    pub fn tag(self) -> (t: u8)
        ensures
            t == (match self {
                PageType::Node => 1u8,
                PageType::Leaf => 2u8,
            }),
    {
        match self {
            PageType::Node => 1,
            PageType::Leaf => 2,
        }
    }
}

/// Slots in a page of `page_length` bytes for descriptors of `desc_length`
/// coordinates.
pub open spec fn capacity_of(page_length: nat, desc_length: nat) -> nat {
    ((page_length - 6) / (record_size(desc_length) as int)) as nat
}

/// Pages of this shape can be held: the header fits, a slot's size is a
/// `usize`, and the slot count fits the four bytes of the tail field.
pub open spec fn valid_geometry(page_length: nat, desc_length: nat) -> bool {
    &&& 6 <= page_length <= usize::MAX
    &&& record_size(desc_length) <= usize::MAX
    &&& capacity_of(page_length, desc_length) <= u32::MAX
}

/// Offset of slot `i`.
pub open spec fn slot_start(i: nat, desc_length: nat) -> nat {
    6 + i * record_size(desc_length)
}

/// The bytes of slot `i`.
pub open spec fn slot_bytes(data: Seq<u8>, i: nat, desc_length: nat) -> Seq<u8> {
    data.subrange(
        slot_start(i, desc_length) as int,
        (slot_start(i, desc_length) + record_size(desc_length)) as int,
    )
}

/// The records in the first `tail` slots.
pub open spec fn page_records(data: Seq<u8>, tail: nat, desc_length: nat) -> Seq<RecordView> {
    Seq::new(tail, |i: int| decode_record(slot_bytes(data, i as nat, desc_length), desc_length))
}

/// True when `data` is a leaf page of the given shape: right length, leaf
/// tag, and a tail count within the capacity.
pub open spec fn page_readable(data: Seq<u8>, page_length: nat, desc_length: nat) -> bool {
    &&& valid_geometry(page_length, desc_length)
    &&& data.len() == page_length
    &&& data[0] == 2
    &&& be_value(data.subrange(1, 5)) <= capacity_of(page_length, desc_length)
}

/// The views of a vector of records.
pub open spec fn record_views(v: Seq<TreeRecord>) -> Seq<RecordView> {
    Seq::new(v.len(), |i: int| v[i]@)
}

/// Every slot below the capacity lies inside the page.
pub proof fn lemma_slot_inside(page_length: nat, desc_length: nat, i: nat)
    requires
        page_length >= 6,
        i < capacity_of(page_length, desc_length),
    ensures
        slot_start(i, desc_length) + record_size(desc_length) <= page_length,
        i * record_size(desc_length) <= page_length - 6,
{
    let rs = record_size(desc_length) as int;
    let room = page_length - 6;
    let cap = room / rs;
    assert(rs >= 8);
    assert(cap * rs <= room) by (nonlinear_arith)
        requires
            rs > 0,
            room >= 0,
            cap == room / rs,
    ;
    assert((i + 1) * rs <= cap * rs) by (nonlinear_arith)
        requires
            i + 1 <= cap,
            rs > 0,
    ;
    assert((i + 1) * rs == i * rs + rs) by (nonlinear_arith);
}

/// Slot `i` ends where slot `j` begins or before, for `i < j`.
pub proof fn lemma_slots_apart(desc_length: nat, i: nat, j: nat)
    requires
        i < j,
    ensures
        slot_start(i, desc_length) + record_size(desc_length) <= slot_start(j, desc_length),
{
    let rs = record_size(desc_length) as int;
    assert((i + 1) * rs <= j * rs) by (nonlinear_arith)
        requires
            i + 1 <= j,
            rs > 0,
    ;
    assert((i + 1) * rs == i * rs + rs) by (nonlinear_arith);
}

/// Whether pages of this shape can be held.
pub fn geometry_is_valid(page_length: usize, desc_length: usize) -> (r: bool)
    ensures
        r == valid_geometry(page_length as nat, desc_length as nat),
{
    if page_length < layout::PAGE_DATA_START {
        return false;
    }
    if desc_length > (usize::MAX - layout::INDEX_SIZE) / 4 {
        return false;
    }
    let rs: usize = layout::INDEX_SIZE + desc_length * 4;
    let cap: usize = (page_length - layout::PAGE_DATA_START) / rs;
    cap as u64 <= u32::MAX as u64
}

/// A leaf page.
#[derive(Debug)]
pub struct RecordPage {
    pub data: Vec<u8>,
    pub tail: usize,
    pub desc_length: usize,
    pub page_length: usize,
}

impl View for RecordPage {
    type V = Seq<RecordView>;

    open spec fn view(&self) -> Seq<RecordView> {
        page_records(self.data@, self.tail as nat, self.desc_length as nat)
    }
}

impl RecordPage {
    /// The buffer is a readable page and `tail` is its stored count.
    pub open spec fn wf(&self) -> bool {
        &&& page_readable(self.data@, self.page_length as nat, self.desc_length as nat)
        &&& be_value(self.data@.subrange(1, 5)) == self.tail
    }

    /// Slots in this page.
    pub open spec fn capacity(&self) -> nat {
        capacity_of(self.page_length as nat, self.desc_length as nat)
    }

    /// An empty leaf page.
    pub fn new(page_length: usize, desc_length: usize) -> (page: Self)
        requires
            valid_geometry(page_length as nat, desc_length as nat),
        ensures
            page.wf(),
            page@ == Seq::<RecordView>::empty(),
            page.tail == 0,
            page.page_length == page_length,
            page.desc_length == desc_length,
            page.data@ == Seq::new(
                page_length as nat,
                |i: int|
                    if i == 0 {
                        2u8
                    } else {
                        0u8
                    },
            ),
    {
        let mut data: Vec<u8> = vec![0u8; page_length];
        data[layout::PAGE_TYPE_OFFSET] = PageType::Leaf.tag();
        let page = RecordPage { data, tail: 0, desc_length, page_length };
        proof {
            assert(page.data@ =~= Seq::new(
                page_length as nat,
                |i: int|
                    if i == 0 {
                        2u8
                    } else {
                        0u8
                    },
            ));
            let field = page.data@.subrange(1, 5);
            assert(field =~= seq![0u8, 0u8, 0u8, 0u8]);
            reveal_with_fuel(be_value, 5);
            assert(page@ =~= Seq::<RecordView>::empty());
        }
        page
    }

    /// The page's bytes.
    pub fn get_data(&self) -> (data: &Vec<u8>)
        ensures
            data@ == self.data@,
    {
        &self.data
    }

    /// The page that `arr` holds; `CorruptPage` when `arr` is not a leaf
    /// page of the given shape.
    pub fn from_arr(arr: &[u8], page_length: usize, desc_length: usize) -> (r: Result<Self, Error>)
        ensures
            r.is_ok() <==> page_readable(arr@, page_length as nat, desc_length as nat),
            r.is_ok() ==> r.unwrap().wf() && r.unwrap().data@ == arr@ && r.unwrap().page_length
                == page_length && r.unwrap().desc_length == desc_length,
            r.is_err() ==> r == Err::<Self, Error>(Error::CorruptPage),
    {
        if !geometry_is_valid(page_length, desc_length) || arr.len() != page_length {
            return Err(Error::CorruptPage);
        }
        if arr[layout::PAGE_TYPE_OFFSET] != PageType::Leaf.tag() {
            return Err(Error::CorruptPage);
        }
        let stored: u64 = read_be(arr, layout::TAIL_OFFSET, layout::TAIL_SIZE);
        let rs: usize = TreeRecord::compute_record_size(desc_length);
        let cap: usize = (page_length - layout::PAGE_DATA_START) / rs;
        if stored > cap as u64 {
            return Err(Error::CorruptPage);
        }
        let mut data: Vec<u8> = Vec::with_capacity(page_length);
        data.extend_from_slice(arr);
        proof {
            assert(data@ =~= arr@);
        }
        Ok(RecordPage { data, tail: stored as usize, desc_length, page_length })
    }

    /// Whether some stored descriptor holds the same numbers as
    /// `query_desc`.
    pub fn descriptor_in_page(&self, query_desc: &Descriptor) -> (found: bool)
        requires
            self.wf(),
        ensures
            found == exists|i: int|
                0 <= i < self@.len() && same_point((#[trigger] self@[i]).descriptor, query_desc@),
    {
        let records = self.get_records();
        let mut i: usize = 0;
        while i < records.len()
            invariant
                i <= records@.len(),
                record_views(records@) == self@,
                forall|j: int| 0 <= j < i ==> !same_point((#[trigger] self@[j]).descriptor, query_desc@),
            decreases records@.len() - i,
        {
            proof {
                assert(record_views(records@)[i as int] == records@[i as int]@);
            }
            if records[i].descriptor.same_as(query_desc) {
                return true;
            }
            i += 1;
        }
        false
    }

    /// The stored records, in slot order.
    pub fn get_records(&self) -> (v: Vec<TreeRecord>)
        requires
            self.wf(),
        ensures
            record_views(v@) == self@,
            forall|i: int| 0 <= i < v@.len() ==> (#[trigger] v@[i]).wf() && v@[i].length == self.desc_length,
    {
        let mut v: Vec<TreeRecord> = Vec::with_capacity(self.tail);
        let mut offset: usize = 0;
        while offset < self.tail
            invariant
                offset <= self.tail,
                self.wf(),
                v@.len() == offset,
                forall|i: int| 0 <= i < offset ==> (#[trigger] v@[i])@ == self@[i],
                forall|i: int|
                    0 <= i < offset ==> (#[trigger] v@[i]).wf() && v@[i].length == self.desc_length,
            decreases self.tail - offset,
        {
            match self.get_record_at(offset) {
                Ok(record) => v.push(record),
                Err(_) => {},
            }
            offset += 1;
        }
        proof {
            assert(record_views(v@) =~= self@);
        }
        v
    }

    /// Writes `record` into the next free slot; `PageFull` when there is
    /// none, `DimensionMismatch` when the record is of another length.
    pub fn add_record(&mut self, record: &TreeRecord) -> (r: Result<(), Error>)
        requires
            old(self).wf(),
            record.wf(),
        ensures
            final(self).wf(),
            final(self).page_length == old(self).page_length,
            final(self).desc_length == old(self).desc_length,
            record.length != old(self).desc_length ==> r == Err::<(), Error>(
                Error::DimensionMismatch,
            ),
            record.length == old(self).desc_length && old(self).tail >= old(self).capacity() ==> r
                == Err::<(), Error>(Error::PageFull),
            record.length == old(self).desc_length && old(self).tail < old(self).capacity()
                ==> r.is_ok(),
            r.is_ok() ==> final(self)@ == old(self)@.push(record@) && final(self).tail == old(self).tail + 1,
            r.is_err() ==> *final(self) == *old(self),
    {
        if record.length != self.desc_length {
            return Err(Error::DimensionMismatch);
        }
        if self.is_full() {
            return Err(Error::PageFull);
        }
        let ghost before = self.data@;
        let ghost tail = self.tail as nat;
        let ghost d = self.desc_length as nat;
        proof {
            lemma_slot_inside(self.page_length as nat, d, tail);
        }
        let size: usize = record.get_record_size();
        let start: usize = layout::PAGE_DATA_START + self.tail * size;
        let bytes = record.to_vec();
        overwrite(&mut self.data, start, bytes.as_slice());
        let ghost middle = self.data@;
        self.tail = self.tail + 1;
        let coerced_tail = be_encode(self.tail as u64, layout::TAIL_SIZE);
        proof {
            lemma_be_bytes_len(self.tail as nat, 4);
        }
        overwrite(&mut self.data, layout::TAIL_OFFSET, coerced_tail.as_slice());
        proof {
            let after = self.data@;
            lemma_pow256_values();
            lemma_be_value_of_bytes(self.tail as nat, 4);
            assert(after.subrange(1, 5) =~= be_bytes(self.tail as nat, 4));
            assert(after[0] == before[0]);
            lemma_record_roundtrip(record@);
            assert(slot_bytes(after, tail, d) =~= record_bytes(record@));
            assert forall|i: int| 0 <= i < tail implies #[trigger] slot_bytes(after, i as nat, d)
                == slot_bytes(before, i as nat, d) by {
                lemma_slots_apart(d, i as nat, tail);
                assert(slot_bytes(after, i as nat, d) =~= slot_bytes(before, i as nat, d));
            }
            assert(self@ =~= old(self)@.push(record@));
        }
        Ok(())
    }

    /// The record in slot `offset`; `KeyNotFound` when the slot is free.
    pub fn get_record_at(&self, offset: usize) -> (r: Result<TreeRecord, Error>)
        requires
            self.wf(),
        ensures
            r.is_ok() <==> offset < self.tail,
            r.is_ok() ==> r.unwrap()@ == self@[offset as int] && r.unwrap().wf()
                && r.unwrap().length == self.desc_length,
            r.is_err() ==> r == Err::<TreeRecord, Error>(Error::KeyNotFound),
    {
        if offset >= self.tail {
            return Err(Error::KeyNotFound);
        }
        proof {
            lemma_slot_inside(self.page_length as nat, self.desc_length as nat, offset as nat);
        }
        let size: usize = TreeRecord::compute_record_size(self.desc_length);
        let start: usize = layout::PAGE_DATA_START + offset * size;
        let slice = slice_subrange(self.data.as_slice(), start, start + size);
        match TreeRecord::from_slice(slice, self.desc_length) {
            Ok(record) => Ok(record),
            Err(_) => Err(Error::KeyNotFound),
        }
    }

    /// Whether every slot is taken.
    pub fn is_full(&self) -> (full: bool)
        requires
            self.wf(),
        ensures
            full == (self.tail >= self.capacity()),
    {
        self.tail >= self.get_capacity()
    }

    /// Slots in this page.
    pub fn get_capacity(&self) -> (n: usize)
        requires
            self.wf(),
        ensures
            n == self.capacity(),
    {
        (self.page_length - layout::PAGE_DATA_START) / TreeRecord::compute_record_size(
            self.desc_length,
        )
    }

    /// Slots taken.
    pub fn len(&self) -> (n: usize)
        ensures
            n == self.tail,
    {
        self.tail
    }
}

impl Clone for RecordPage {
    fn clone(&self) -> (page: Self)
        ensures
            page.data@ == self.data@,
            page.tail == self.tail,
            page.desc_length == self.desc_length,
            page.page_length == self.page_length,
    {
        let data: Vec<u8> = self.data.clone();
        proof {
            assert(data@ =~= self.data@);
        }
        RecordPage {
            data,
            tail: self.tail,
            desc_length: self.desc_length,
            page_length: self.page_length,
        }
    }
}

} // verus!
