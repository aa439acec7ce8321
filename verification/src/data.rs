//! Descriptors, identifiers and the records that enter and leave the tree.

use vstd::prelude::*;
use vstd::slice::slice_subrange;
use vstd::utf8::encode_utf8;
use ascii::AsciiString;
use rand::Rng;
use crate::bytes::{be_value, byteorder_read_u32};
use crate::error::Error;
use crate::layout::Value;
use crate::record::TreeRecord;
use crate::scalar::{is_nan, same, scalar_is_nan, scalar_same};

verus! {

/// Sequence number that the content database gives a compound.
pub type CompoundIndex = u64;

/// Width of a stored identifier.
pub const IDENTIFIER_SIZE: usize = 30;

/// Width of a stored SMILES string.
pub const MAX_SMILES_LENGTH: usize = 100;

/// Width of a stored identifier.
pub const MAX_IDENTIFIER_LENGTH: usize = 30;

/// A point: `length` coordinates, each the bit pattern of a
/// single-precision number.
#[derive(Debug, PartialEq, Eq)]
pub struct Descriptor {
    pub data: Vec<u32>,
    pub length: usize,
}

impl View for Descriptor {
    type V = Seq<u32>;

    open spec fn view(&self) -> Seq<u32> {
        self.data@
    }
}

/// True when some coordinate encodes no number.
pub open spec fn has_nan(d: Seq<u32>) -> bool {
    exists|i: int| 0 <= i < d.len() && is_nan(#[trigger] d[i])
}

/// Coordinate by coordinate equality of the encoded numbers.
pub open spec fn same_point(a: Seq<u32>, b: Seq<u32>) -> bool {
    a.len() == b.len() && forall|i: int| 0 <= i < a.len() ==> same(#[trigger] a[i], b[i])
}

impl Descriptor {
    /// The stated length is the number of coordinates.
    pub open spec fn wf(&self) -> bool {
        self.data@.len() == self.length
    }

    /// A descriptor over the given coordinates.
    pub fn from_vec(v: Vec<u32>, length: usize) -> (d: Self)
        requires
            v@.len() == length,
        ensures
            d@ == v@,
            d.length == length,
            d.wf(),
    {
        Descriptor { data: v, length }
    }

    /// Whether some coordinate encodes no number.
    pub fn contains_nan(&self) -> (r: bool)
        ensures
            r == has_nan(self@),
    {
        let mut i: usize = 0;
        while i < self.data.len()
            invariant
                i <= self.data@.len(),
                forall|j: int| 0 <= j < i ==> !is_nan(#[trigger] self.data@[j]),
            decreases self.data@.len() - i,
        {
            if scalar_is_nan(self.data[i]) {
                return true;
            }
            i += 1;
        }
        false
    }

    /// Whether both hold the same numbers, coordinate by coordinate.
    pub fn same_as(&self, other: &Descriptor) -> (r: bool)
        ensures
            r == same_point(self@, other@),
    {
        if self.data.len() != other.data.len() {
            return false;
        }
        let mut i: usize = 0;
        while i < self.data.len()
            invariant
                i <= self.data@.len(),
                self.data@.len() == other.data@.len(),
                forall|j: int| 0 <= j < i ==> same(#[trigger] self.data@[j], other.data@[j]),
            decreases self.data@.len() - i,
        {
            if !scalar_same(self.data[i], other.data[i]) {
                return false;
            }
            i += 1;
        }
        true
    }
}

impl Clone for Descriptor {
    fn clone(&self) -> (d: Self)
        ensures
            d@ == self@,
            d.length == self.length,
    {
        let data: Vec<u32> = self.data.clone();
        proof {
            assert(data@ =~= self.data@);
        }
        Descriptor { data, length: self.length }
    }
}

/// A compound's name: thirty bytes, the text first and zeros after it.
#[derive(Debug, Clone, Copy, PartialEq, Eq)]
pub struct CompoundIdentifier(pub [u8; 30]);

impl View for CompoundIdentifier {
    type V = Seq<u8>;

    open spec fn view(&self) -> Seq<u8> {
        self.0@
    }
}

/// `text` followed by zeros up to `width` bytes.
pub open spec fn zero_padded(text: Seq<u8>, width: nat) -> Seq<u8> {
    Seq::new(
        width,
        |i: int|
            if i < text.len() {
                text[i]
            } else {
                0u8
            },
    )
}

/// Every byte is an ASCII code.
pub open spec fn all_ascii(s: Seq<u8>) -> bool {
    forall|i: int| 0 <= i < s.len() ==> #[trigger] s[i] < 128
}

/// The text whose characters have the given ASCII codes.
pub open spec fn ascii_text(s: Seq<u8>) -> Seq<char> {
    Seq::new(s.len(), |i: int| s[i] as char)
}

/// `AsciiString::from_ascii` of the ascii crate, followed by the conversion
/// of its result into a `String`. The crate accepts the bytes exactly when
/// each is below 128, and the string then has one character per byte, with
/// that byte as its code.
#[verifier::external_body]
pub(crate) fn ascii_to_string(bytes: &[u8]) -> (r: Option<String>)
    ensures
        r.is_some() <==> all_ascii(bytes@),
        r.is_some() ==> r.unwrap()@ == ascii_text(bytes@),
{
    match AsciiString::from_ascii(bytes) {
        Ok(s) => Some(String::from(s)),
        Err(_) => None,
    }
}

/// `Rng::gen_range` of the rand crate on the thread's generator, over the
/// bytes from `low` up to but not including `high`. The crate panics on an
/// empty range, so those are left out. Which byte comes back is chance.
#[verifier::external_body]
pub(crate) fn random_byte(low: u8, high: u8) -> (b: u8)
    requires
        low < high,
    ensures
        low <= b < high,
{
    rand::thread_rng().gen_range(low..high)
}

impl CompoundIdentifier {
    /// Every byte is an ASCII code.
    pub open spec fn is_ascii(&self) -> bool {
        all_ascii(self@)
    }

    /// The identifier for a name, or `PayloadTooLarge` when the name has
    /// more than thirty bytes.
    pub fn from_string(s: String) -> (r: Result<Self, Error>)
        ensures
            r.is_ok() <==> encode_utf8(s@).len() <= 30,
            r.is_ok() ==> r.unwrap()@ == zero_padded(encode_utf8(s@), 30),
            r.is_err() ==> r == Err::<Self, Error>(Error::PayloadTooLarge),
    {
        Self::from_str(s.as_str())
    }

    /// The identifier for a name, or `PayloadTooLarge` when the name has
    /// more than thirty bytes.
    pub fn from_str(data: &str) -> (r: Result<Self, Error>)
        ensures
            r.is_ok() <==> encode_utf8(data@).len() <= 30,
            r.is_ok() ==> r.unwrap()@ == zero_padded(encode_utf8(data@), 30),
            r.is_err() ==> r == Err::<Self, Error>(Error::PayloadTooLarge),
    {
        let bytes = data.as_bytes();
        if bytes.len() > IDENTIFIER_SIZE {
            return Err(Error::PayloadTooLarge);
        }
        Ok(Self::from_padded(bytes))
    }

    /// The identifier whose text is `bytes`.
    pub fn from_padded(bytes: &[u8]) -> (id: Self)
        requires
            bytes@.len() <= 30,
        ensures
            id@ == zero_padded(bytes@, 30),
    {
        let mut fill: [u8; 30] = [0u8; 30];
        let mut i: usize = 0;
        while i < bytes.len()
            invariant
                i <= bytes@.len() <= 30,
                forall|j: int| 0 <= j < i ==> fill@[j] == bytes@[j],
                forall|j: int| i <= j < 30 ==> fill@[j] == 0u8,
            decreases bytes@.len() - i,
        {
            fill[i] = bytes[i];
            i += 1;
        }
        proof {
            assert(fill@ =~= zero_padded(bytes@, 30));
        }
        CompoundIdentifier(fill)
    }

    /// The identifier stored in the thirty bytes of `data` that start at
    /// `offset`; `CorruptPage` when `length` is not thirty or the field
    /// runs past the end of `data`.
    pub fn from_ascii_array(data: &[u8], offset: usize, length: usize) -> (r: Result<Self, Error>)
        ensures
            r.is_ok() <==> length == 30 && offset + length <= data@.len(),
            r.is_ok() ==> r.unwrap()@ == data@.subrange(offset as int, offset + 30),
            r.is_err() ==> r == Err::<Self, Error>(Error::CorruptPage),
    {
        if length != IDENTIFIER_SIZE || offset > data.len() || data.len() - offset < length {
            return Err(Error::CorruptPage);
        }
        let total: usize = data.len();
        let mut fill: [u8; 30] = [0u8; 30];
        let mut i: usize = 0;
        while i < IDENTIFIER_SIZE
            invariant
                i <= 30,
                total == data@.len(),
                offset + 30 <= data@.len(),
                forall|j: int| 0 <= j < i ==> fill@[j] == data@[offset + j],
            decreases 30 - i,
        {
            fill[i] = data[offset + i];
            i += 1;
        }
        proof {
            assert(fill@ =~= data@.subrange(offset as int, offset + 30));
        }
        Ok(CompoundIdentifier(fill))
    }

    /// Thirty capital letters drawn at random.
    pub fn random() -> (id: Self)
        ensures
            forall|i: int| 0 <= i < 30 ==> 65 <= #[trigger] id@[i] < 91,
    {
        let mut bytes: [u8; 30] = [0u8; 30];
        let mut i: usize = 0;
        while i < IDENTIFIER_SIZE
            invariant
                i <= 30,
                forall|j: int| 0 <= j < i ==> 65 <= #[trigger] bytes@[j] < 91,
            decreases 30 - i,
        {
            bytes[i] = random_byte(65, 91);
            i += 1;
        }
        CompoundIdentifier(bytes)
    }

    /// Whether every byte is an ASCII code.
    pub fn check_ascii(&self) -> (r: bool)
        ensures
            r == self.is_ascii(),
    {
        let mut i: usize = 0;
        while i < IDENTIFIER_SIZE
            invariant
                i <= 30,
                forall|j: int| 0 <= j < i ==> #[trigger] self.0@[j] < 128,
            decreases 30 - i,
        {
            if self.0[i] >= 128 {
                return false;
            }
            i += 1;
        }
        true
    }

    /// The thirty bytes as text, padding included.
    pub fn to_string(&self) -> (s: String)
        requires
            self.is_ascii(),
        ensures
            s@ == ascii_text(self@),
    {
        match ascii_to_string(self.0.as_slice()) {
            Some(s) => s,
            None => String::new(),
        }
    }

    /// Whether both hold the same thirty bytes.
    pub fn same_as(&self, other: &CompoundIdentifier) -> (r: bool)
        ensures
            r == (self@ == other@),
    {
        let mut i: usize = 0;
        while i < IDENTIFIER_SIZE
            invariant
                i <= 30,
                forall|j: int| 0 <= j < i ==> self.0@[j] == other.0@[j],
            decreases 30 - i,
        {
            if self.0[i] != other.0[i] {
                return false;
            }
            i += 1;
        }
        proof {
            assert(self@ =~= other@);
        }
        true
    }
}

/// An item as callers see it: SMILES text, identifier and descriptor.
#[derive(Debug, PartialEq, Eq)]
pub struct CompoundRecord {
    pub smiles: String,
    pub compound_identifier: CompoundIdentifier,
    pub descriptor: Descriptor,
    pub length: usize,
}

/// What a `CompoundRecord` holds.
pub struct CompoundView {
    pub smiles: Seq<char>,
    pub identifier: Seq<u8>,
    pub descriptor: Seq<u32>,
}

impl View for CompoundRecord {
    type V = CompoundView;

    open spec fn view(&self) -> CompoundView {
        CompoundView {
            smiles: self.smiles@,
            identifier: self.compound_identifier@,
            descriptor: self.descriptor@,
        }
    }
}

impl CompoundRecord {
    /// The stated lengths are the number of coordinates, and that number
    /// is `dim`.
    pub open spec fn fits(&self, dim: usize) -> bool {
        self.length == dim && self.descriptor.length == dim && self.descriptor@.len() == dim
    }

    /// A record that a tree of `dim` coordinates takes in unless its leaf
    /// cannot be divided: it fits, every coordinate is a number, and the
    /// SMILES text has at most a hundred bytes.
    pub open spec fn acceptable(&self, dim: usize) -> bool {
        self.fits(dim) && !has_nan(self.descriptor@) && encode_utf8(self.smiles@).len() <= 100
    }

    /// The record of the given parts. The data set tag is not stored.
    pub fn new(
        dataset_identifier: u8,
        smiles: String,
        compound_identifier: CompoundIdentifier,
        descriptor: Descriptor,
        length: usize,
    ) -> (r: Self)
        ensures
            r.smiles@ == smiles@,
            r.compound_identifier == compound_identifier,
            r.descriptor == descriptor,
            r.length == length,
    {
        CompoundRecord { smiles, compound_identifier, descriptor, length }
    }

    /// The leaf payload of this record under the index `idx`.
    pub fn get_tree_record(&self, idx: &CompoundIndex) -> (t: TreeRecord)
        ensures
            t.index == *idx,
            t.descriptor@ == self.descriptor@,
            t.descriptor.length == self.descriptor.length,
            t.length == self.length,
    {
        TreeRecord { index: *idx, descriptor: self.descriptor.clone(), length: self.length }
    }
}

impl Clone for CompoundRecord {
    fn clone(&self) -> (r: Self)
        ensures
            r@ == self@,
            r.length == self.length,
            r.descriptor.length == self.descriptor.length,
    {
        CompoundRecord {
            smiles: self.smiles.clone(),
            compound_identifier: self.compound_identifier,
            descriptor: self.descriptor.clone(),
            length: self.length,
        }
    }
}

/// The coordinates stored in `4 * n` bytes, four big-endian bytes each.
pub open spec fn scalars_at(bytes: Seq<u8>, n: nat) -> Seq<u32> {
    Seq::new(n, |i: int| be_value(bytes.subrange(4 * i, 4 * i + 4)) as u32)
}

/// Readers of stored fields.
pub struct Parser {}

impl Parser {
    /// The big-endian index of `length` bytes at `offset`. `CorruptPage`
    /// unless `length` is one or eight, the field lies inside `data` and
    /// its value is a `usize`.
    pub fn get_usize_from_array(data: &[u8], offset: usize, length: usize) -> (r: Result<
        usize,
        Error,
    >)
        ensures
            r.is_ok() <==> (length == 1 || length == 8) && offset + length <= data@.len()
                && be_value(data@.subrange(offset as int, offset + length)) <= usize::MAX,
            r.is_ok() ==> r.unwrap() == be_value(data@.subrange(offset as int, offset + length)),
            r.is_err() ==> r == Err::<usize, Error>(Error::CorruptPage),
    {
        if length != 1 && length != 8 {
            return Err(Error::CorruptPage);
        }
        if offset > data.len() || data.len() - offset < length {
            return Err(Error::CorruptPage);
        }
        let bytes = slice_subrange(data, offset, offset + length);
        let attempted_usize = if length == 1 {
            Value::from_byte(coerce_byte(bytes))
        } else {
            Value::from_pointer(coerce_pointer(bytes))
        };
        match attempted_usize {
            Ok(Value(value)) => Ok(value),
            Err(_) => Err(Error::CorruptPage),
        }
    }

    /// The coordinate stored in the four bytes at `offset`; `CorruptPage`
    /// when the field runs past the end of `data`.
    pub fn get_scalar_from_array(data: &[u8], offset: usize) -> (r: Result<u32, Error>)
        ensures
            r.is_ok() <==> offset + 4 <= data@.len(),
            r.is_ok() ==> r.unwrap() == be_value(data@.subrange(offset as int, offset + 4)),
            r.is_err() ==> r == Err::<u32, Error>(Error::CorruptPage),
    {
        if offset > data.len() || data.len() - offset < 4 {
            return Err(Error::CorruptPage);
        }
        let field = slice_subrange(data, offset, offset + 4);
        let known_size_array = coerce_scalar(field);
        let v = byteorder_read_u32(known_size_array.as_slice());
        proof {
            assert(known_size_array@.subrange(0, 4) =~= data@.subrange(offset as int, offset + 4));
        }
        Ok(v)
    }

    /// The descriptor of `length` coordinates stored from `offset` on;
    /// `CorruptPage` when it runs past the end of `data`.
    pub fn get_descriptor_from_array(data: &[u8], offset: usize, length: usize) -> (r: Result<
        Descriptor,
        Error,
    >)
        ensures
            r.is_ok() <==> offset + 4 * length <= data@.len(),
            r.is_ok() ==> r.unwrap()@ == scalars_at(
                data@.subrange(offset as int, offset + 4 * length),
                length as nat,
            ) && r.unwrap().length == length,
            r.is_err() ==> r == Err::<Descriptor, Error>(Error::CorruptPage),
    {
        if offset > data.len() || (data.len() - offset) / 4 < length {
            return Err(Error::CorruptPage);
        }
        let total: usize = data.len();
        let mut vec: Vec<u32> = Vec::with_capacity(length);
        let mut curr_offset: usize = offset;
        let ghost field = data@.subrange(offset as int, offset + 4 * length);
        let mut i: usize = 0;
        while i < length
            invariant
                i <= length,
                total == data@.len(),
                offset + 4 * length <= data@.len(),
                curr_offset == offset + 4 * i,
                field == data@.subrange(offset as int, offset + 4 * length),
                vec@ == scalars_at(field, i as nat),
            decreases length - i,
        {
            let v = match Self::get_scalar_from_array(data, curr_offset) {
                Ok(v) => v,
                Err(e) => {
                    return Err(e);
                },
            };
            proof {
                assert(field.subrange(4 * i, 4 * i + 4) =~= data@.subrange(
                    curr_offset as int,
                    curr_offset + 4,
                ));
            }
            vec.push(v);
            proof {
                assert(vec@ =~= scalars_at(field, (i + 1) as nat));
            }
            curr_offset += 4;
            i += 1;
        }
        Ok(Descriptor { data: vec, length })
    }
}

/// The one byte of `value` as an array.
pub fn coerce_byte(value: &[u8]) -> (out: [u8; 1])
    requires
        value@.len() == 1,
    ensures
        out@ == value@,
{
    let out: [u8; 1] = [value[0]];
    proof {
        assert(out@ =~= value@);
    }
    out
}

/// The eight bytes of `value` as an array.
pub fn coerce_pointer(value: &[u8]) -> (out: [u8; 8])
    requires
        value@.len() == 8,
    ensures
        out@ == value@,
{
    let out: [u8; 8] = [
        value[0],
        value[1],
        value[2],
        value[3],
        value[4],
        value[5],
        value[6],
        value[7],
    ];
    proof {
        assert(out@ =~= value@);
    }
    out
}

/// The four bytes of `value` as an array.
pub fn coerce_scalar(value: &[u8]) -> (out: [u8; 4])
    requires
        value@.len() == 4,
    ensures
        out@ == value@,
{
    let out: [u8; 4] = [value[0], value[1], value[2], value[3]];
    proof {
        assert(out@ =~= value@);
    }
    out
}

} // verus!
