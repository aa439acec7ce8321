//! The payload of a leaf slot and its byte form.

use vstd::prelude::*;
use crate::bytes::{
    be_bytes, be_encode, be_value, byteorder_write_u32, lemma_be_bytes_len,
    lemma_be_value_of_bytes, lemma_pow256_values, read_be,
};
use crate::data::{scalars_at, CompoundIndex, Descriptor, Parser};
use crate::error::Error;
use crate::layout;

verus! {

/// What a leaf slot holds: the compound's index and its descriptor.
#[derive(Debug, PartialEq, Eq)]
pub struct TreeRecord {
    pub index: CompoundIndex,
    pub descriptor: Descriptor,
    pub length: usize,
}

/// What a `TreeRecord` holds.
pub struct RecordView {
    pub index: u64,
    pub descriptor: Seq<u32>,
}

impl View for TreeRecord {
    type V = RecordView;

    open spec fn view(&self) -> RecordView {
        RecordView { index: self.index, descriptor: self.descriptor@ }
    }
}

/// Bytes in a slot for a descriptor of `length` coordinates.
pub open spec fn record_size(length: nat) -> nat {
    8 + 4 * length
}

/// The coordinates, four big-endian bytes each.
pub open spec fn scalars_bytes(d: Seq<u32>) -> Seq<u8>
    decreases d.len(),
{
    if d.len() == 0 {
        Seq::empty()
    } else {
        scalars_bytes(d.drop_last()) + be_bytes(d.last() as nat, 4)
    }
}

/// The slot bytes of a record: the index as eight big-endian bytes, then
/// the coordinates.
pub open spec fn record_bytes(r: RecordView) -> Seq<u8> {
    be_bytes(r.index as nat, 8) + scalars_bytes(r.descriptor)
}

/// The record that the first `record_size(length)` bytes of a slot spell.
pub open spec fn decode_record(slot: Seq<u8>, length: nat) -> RecordView {
    RecordView {
        index: be_value(slot.subrange(0, 8)) as u64,
        descriptor: scalars_at(slot.subrange(8, 8 + 4 * (length as int)), length),
    }
}

pub proof fn lemma_scalars_bytes_len(d: Seq<u32>)
    ensures
        scalars_bytes(d).len() == 4 * d.len(),
    decreases d.len(),
{
    if d.len() > 0 {
        lemma_scalars_bytes_len(d.drop_last());
        lemma_be_bytes_len(d.last() as nat, 4);
    }
}

/// Reading the coordinates back from their bytes gives the coordinates.
pub proof fn lemma_scalars_roundtrip(d: Seq<u32>)
    ensures
        scalars_at(scalars_bytes(d), d.len()) == d,
    decreases d.len(),
{
    lemma_scalars_bytes_len(d);
    if d.len() > 0 {
        let front = d.drop_last();
        lemma_scalars_roundtrip(front);
        lemma_scalars_bytes_len(front);
        lemma_be_bytes_len(d.last() as nat, 4);
        lemma_pow256_values();
        lemma_be_value_of_bytes(d.last() as nat, 4);
        let bytes = scalars_bytes(d);
        assert forall|i: int| 0 <= i < d.len() implies scalars_at(bytes, d.len())[i] == d[i] by {
            if i < d.len() - 1 {
                assert(bytes.subrange(4 * i, 4 * i + 4) =~= scalars_bytes(front).subrange(
                    4 * i,
                    4 * i + 4,
                ));
                assert(scalars_at(scalars_bytes(front), front.len())[i] == front[i]);
            } else {
                assert(bytes.subrange(4 * i, 4 * i + 4) =~= be_bytes(d.last() as nat, 4));
            }
        }
        assert(scalars_at(bytes, d.len()) =~= d);
    } else {
        assert(scalars_at(scalars_bytes(d), d.len()) =~= d);
    }
}

/// Decoding the slot bytes of a record gives the record back.
pub proof fn lemma_record_roundtrip(r: RecordView)
    ensures
        record_bytes(r).len() == record_size(r.descriptor.len()),
        decode_record(record_bytes(r), r.descriptor.len()) == r,
{
    lemma_be_bytes_len(r.index as nat, 8);
    lemma_scalars_bytes_len(r.descriptor);
    lemma_scalars_roundtrip(r.descriptor);
    lemma_pow256_values();
    lemma_be_value_of_bytes(r.index as nat, 8);
    let slot = record_bytes(r);
    assert(slot.subrange(0, 8) =~= be_bytes(r.index as nat, 8));
    assert(slot.subrange(8, 8 + 4 * (r.descriptor.len() as int)) =~= scalars_bytes(r.descriptor));
}

impl TreeRecord {
    /// The descriptor has `length` coordinates.
    pub open spec fn wf(&self) -> bool {
        self.descriptor@.len() == self.length && self.descriptor.length == self.length
    }

    /// The record with index zero at the origin.
    pub fn default(length: usize) -> (r: Self)
        ensures
            r.index == 0,
            r.descriptor@ == Seq::new(length as nat, |i: int| 0u32),
            r.length == length,
            r.wf(),
    {
        let data: Vec<u32> = vec![0u32; length];
        proof {
            assert(data@ =~= Seq::new(length as nat, |i: int| 0u32));
        }
        TreeRecord { index: 0, descriptor: Descriptor { data, length }, length }
    }

    /// Bytes that the coordinates take in a slot.
    pub fn get_descriptor_size(&self) -> (n: usize)
        requires
            4 * self.length <= usize::MAX,
        ensures
            n == 4 * self.length,
    {
        self.length * 4
    }

    /// Bytes that this record takes in a slot.
    pub fn get_record_size(&self) -> (n: usize)
        requires
            record_size(self.length as nat) <= usize::MAX,
        ensures
            n == record_size(self.length as nat),
    {
        layout::INDEX_SIZE + self.get_descriptor_size()
    }

    /// Bytes that a record of `length` coordinates takes in a slot.
    pub fn compute_record_size(length: usize) -> (n: usize)
        requires
            record_size(length as nat) <= usize::MAX,
        ensures
            n == record_size(length as nat),
    {
        layout::INDEX_SIZE + (length * 4)
    }

    /// The record stored at the start of `record_slice`; `CorruptPage`
    /// when the slice is shorter than a slot of `length` coordinates.
    pub fn from_slice(record_slice: &[u8], length: usize) -> (r: Result<Self, Error>)
        ensures
            r.is_ok() <==> record_slice@.len() >= record_size(length as nat),
            r.is_ok() ==> r.unwrap()@ == decode_record(record_slice@, length as nat)
                && r.unwrap().length == length && r.unwrap().wf(),
            r.is_err() ==> r == Err::<Self, Error>(Error::CorruptPage),
    {
        if record_slice.len() < layout::INDEX_SIZE {
            return Err(Error::CorruptPage);
        }
        let index: u64 = read_be(record_slice, layout::INDEX_START, layout::INDEX_SIZE);
        match Parser::get_descriptor_from_array(record_slice, layout::DESCRIPTOR_START, length) {
            Ok(descriptor) => Ok(TreeRecord { index, descriptor, length }),
            Err(_) => Err(Error::CorruptPage),
        }
    }

    /// The slot bytes of this record.
    pub fn to_vec(&self) -> (out: Vec<u8>)
        requires
            self.wf(),
        ensures
            out@ == record_bytes(self@),
            out@.len() == record_size(self.length as nat),
    {
        let mut vec: Vec<u8> = be_encode(self.index, 8);
        let mut i: usize = 0;
        proof {
            assert(self.descriptor@.subrange(0, 0) =~= Seq::<u32>::empty());
            assert(vec@ + scalars_bytes(Seq::<u32>::empty()) =~= vec@);
        }
        while i < self.length
            invariant
                i <= self.length,
                self.wf(),
                vec@ == be_bytes(self.index as nat, 8) + scalars_bytes(
                    self.descriptor@.subrange(0, i as int),
                ),
            decreases self.length - i,
        {
            let word: [u8; 4] = byteorder_write_u32(self.descriptor.data[i]);
            let ghost before = vec@;
            let mut k: usize = 0;
            while k < 4
                invariant
                    k <= 4,
                    vec@ == before + word@.subrange(0, k as int),
                decreases 4 - k,
            {
                vec.push(word[k]);
                proof {
                    assert(vec@ =~= before + word@.subrange(0, k + 1));
                }
                k += 1;
            }
            proof {
                let next = self.descriptor@.subrange(0, i + 1);
                assert(next.drop_last() =~= self.descriptor@.subrange(0, i as int));
                assert(word@.subrange(0, 4) =~= word@);
                assert(vec@ =~= be_bytes(self.index as nat, 8) + scalars_bytes(next));
            }
            i += 1;
        }
        proof {
            assert(self.descriptor@.subrange(0, self.length as int) =~= self.descriptor@);
            lemma_record_roundtrip(self@);
        }
        vec
    }
}

impl Clone for TreeRecord {
    fn clone(&self) -> (r: Self)
        ensures
            r@ == self@,
            r.length == self.length,
            r.descriptor.length == self.descriptor.length,
    {
        TreeRecord { index: self.index, descriptor: self.descriptor.clone(), length: self.length }
    }
}

} // verus!
