//! Byte offsets and sizes of the on-disk formats.

use vstd::prelude::*;
use crate::bytes::{be_value, read_be};
use crate::error::Error;

verus! {

/// Width of a stored index.
pub const PTR_SIZE: usize = 8;

// Internal node record.
pub const LEFT_CHILD_INDEX_START: usize = 0;
pub const LEFT_CHILD_INDEX_SIZE: usize = 8;
pub const LEFT_CHILD_TYPE_START: usize = 8;
pub const LEFT_CHILD_TYPE_SIZE: usize = 1;
pub const RIGHT_CHILD_INDEX_START: usize = 9;
pub const RIGHT_CHILD_INDEX_SIZE: usize = 8;
pub const RIGHT_CHILD_TYPE_START: usize = 17;
pub const RIGHT_CHILD_TYPE_SIZE: usize = 1;
pub const SPLIT_AXIS_OFFSET: usize = 18;
pub const SPLIT_AXIS_SIZE: usize = 1;
pub const SPLIT_VALUE_OFFSET: usize = 19;
pub const SPLIT_VALUE_SIZE: usize = 4;
/// End of the last field of a node record.
pub const NODE_FIELDS_END: usize = 23;
/// Stride of node records in the node file; the bytes after the last field
/// are reserved and written as zero.
pub const NODE_SIZE: usize = 27;

// Tree record inside a leaf page.
pub const INDEX_START: usize = 0;
pub const INDEX_SIZE: usize = 8;
pub const DESCRIPTOR_START: usize = 8;

// Leaf page header.
pub const PAGE_TYPE_OFFSET: usize = 0;
pub const PAGE_TYPE_SIZE: usize = 1;
pub const TAIL_OFFSET: usize = 1;
pub const TAIL_SIZE: usize = 4;
pub const IS_EMPTY_OFFSET: usize = 5;
pub const IS_EMPTY_SIZE: usize = 1;
pub const PAGE_DATA_START: usize = 6;

// Header of the node file and of the leaf page file.
pub const HEADER_CURSOR_START: usize = 0;
pub const HEADER_CURSOR_SIZE: usize = 8;
pub const FILE_DATA_START: usize = 8;

/// An index read from a stored field.
pub struct Value(pub usize);

impl Value {
    /// The index that eight stored bytes spell, most significant first;
    /// `CorruptPage` when it is beyond this machine's indices.
    pub fn from_pointer(arr: [u8; 8]) -> (r: Result<Value, Error>)
        ensures
            r.is_ok() <==> be_value(arr@) <= usize::MAX,
            r.is_ok() ==> r.unwrap().0 == be_value(arr@),
            r.is_err() ==> r == Err::<Value, Error>(Error::CorruptPage),
    {
        let v: u64 = read_be(arr.as_slice(), 0, 8);
        proof {
            assert(arr@.subrange(0, 8) =~= arr@);
        }
        if v > usize::MAX as u64 {
            return Err(Error::CorruptPage);
        }
        Ok(Value(v as usize))
    }

    /// The index that one stored byte spells.
    pub fn from_byte(arr: [u8; 1]) -> (r: Result<Value, Error>)
        ensures
            r.is_ok(),
            r.unwrap().0 == be_value(arr@),
    {
        let v: u64 = read_be(arr.as_slice(), 0, 1);
        proof {
            assert(arr@.subrange(0, 1) =~= arr@);
            crate::bytes::lemma_be_value_bound(arr@);
            crate::bytes::lemma_pow256_values();
        }
        Ok(Value(v as usize))
    }
}

} // verus!
