//! The content database: an append-only file of fixed-width entries that
//! maps a compound's index to its SMILES text and identifier.
//!
//! Entry `i` lies at offset `138 * i`: eight reserved bytes, a hundred
//! bytes of SMILES text and thirty bytes of identifier, text first and
//! zeros after it. The first eight bytes of the file, which are the
//! reserved bytes of entry zero, hold the number of entries, least
//! significant byte first.

use vstd::prelude::*;
use vstd::slice::slice_subrange;
use vstd::utf8::{encode_utf8, is_ascii_chars, is_ascii_chars_encode_utf8};
use rand::distributions::Alphanumeric;
use rand::Rng;
use crate::bytes::{
    append_bytes, le_bytes, le_encode, le_value, lemma_le_bytes_len, lemma_le_value_of_bytes,
    lemma_pow256_values, overwrite, read_le,
};
use crate::data::{
    all_ascii, ascii_text, ascii_to_string, zero_padded, CompoundIdentifier, CompoundRecord,
};
use crate::error::Error;

verus! {

pub const ENTRIES_START: usize = 0;
pub const ENTRIES_SIZE: usize = 8;
pub const SMILES_START: usize = 8;
pub const SMILES_SIZE: usize = 100;
pub const ID_START: usize = 108;
pub const ID_SIZE: usize = 30;
pub const DATABASE_ENTRY_SIZE: usize = 138;

/// What the database keeps of a compound.
#[derive(Debug, PartialEq, Eq)]
pub struct DatabaseRecord {
    pub smiles: String,
    pub identifier: CompoundIdentifier,
}

/// What a `DatabaseRecord` holds.
pub struct EntryView {
    pub smiles: Seq<char>,
    pub identifier: Seq<u8>,
}

impl View for DatabaseRecord {
    type V = EntryView;

    open spec fn view(&self) -> EntryView {
        EntryView { smiles: self.smiles@, identifier: self.identifier@ }
    }
}

/// Length of `s` without the zeros at its end.
pub open spec fn trimmed_len(s: Seq<u8>) -> nat
    decreases s.len(),
{
    if s.len() == 0 {
        0
    } else if s.last() != 0 {
        s.len()
    } else {
        trimmed_len(s.drop_last())
    }
}

/// `s` without the zeros at its end.
pub open spec fn trimmed(s: Seq<u8>) -> Seq<u8> {
    s.subrange(0, trimmed_len(s) as int)
}

/// The stored form of an entry.
pub open spec fn entry_bytes(smiles: Seq<u8>, identifier: Seq<u8>) -> Seq<u8> {
    zero_padded(Seq::empty(), 8) + zero_padded(smiles, 100) + identifier
}

/// True when the stored SMILES text is ASCII.
pub open spec fn entry_readable(entry: Seq<u8>) -> bool {
    all_ascii(trimmed(entry.subrange(8, 108)))
}

/// What a stored entry holds.
pub open spec fn decode_entry(entry: Seq<u8>) -> EntryView {
    EntryView {
        smiles: ascii_text(trimmed(entry.subrange(8, 108))),
        identifier: entry.subrange(108, 138),
    }
}

/// The bytes of entry `i`.
pub open spec fn entry_slot(file: Seq<u8>, i: int) -> Seq<u8> {
    file.subrange(138 * i, 138 * i + 138)
}

/// A record that fits the entry's fields and can be read back unchanged:
/// ASCII text of at most a hundred characters that does not end in the
/// zero character.
pub open spec fn storable_text(smiles: Seq<char>) -> bool {
    &&& is_ascii_chars(smiles)
    &&& smiles.len() <= 100
    &&& (smiles.len() > 0 ==> smiles.last() != '\0')
}

pub proof fn lemma_trimmed_len_bound(s: Seq<u8>)
    ensures
        trimmed_len(s) <= s.len(),
        forall|i: int| trimmed_len(s) <= i < s.len() ==> s[i] == 0,
        trimmed_len(s) > 0 ==> s[trimmed_len(s) - 1] != 0,
    decreases s.len(),
{
    if s.len() > 0 && s.last() == 0 {
        let front = s.drop_last();
        lemma_trimmed_len_bound(front);
        assert forall|i: int| trimmed_len(s) <= i < s.len() implies s[i] == 0 by {
            if i < front.len() {
                assert(front[i] == s[i]);
            }
        }
        if trimmed_len(s) > 0 {
            assert(front[trimmed_len(s) - 1] == s[trimmed_len(s) - 1]);
        }
    }
}

/// Cutting a zero off the end of a prefix does not change where the text
/// ends.
proof fn lemma_trimmed_step(s: Seq<u8>, n: int)
    requires
        0 <= n <= s.len(),
    ensures
        n > 0 && s[n - 1] == 0 ==> trimmed_len(s.subrange(0, n)) == trimmed_len(
            s.subrange(0, n - 1),
        ),
        n == 0 || s[n - 1] != 0 ==> trimmed_len(s.subrange(0, n)) == n,
{
    let prefix = s.subrange(0, n);
    if n > 0 {
        assert(prefix.last() == s[n - 1]);
        assert(prefix.drop_last() =~= s.subrange(0, n - 1));
    }
}

/// Text without a zero at its end, padded with zeros, is trimmed back to
/// itself.
pub proof fn lemma_trim_padded(text: Seq<u8>, width: nat)
    requires
        text.len() <= width,
        text.len() > 0 ==> text.last() != 0,
    ensures
        trimmed(zero_padded(text, width)) == text,
    decreases width - text.len(),
{
    let p = zero_padded(text, width);
    if width == text.len() {
        assert(p =~= text);
        if text.len() > 0 {
            assert(trimmed_len(p) == p.len());
        }
        assert(trimmed(p) =~= text);
    } else {
        assert(p.last() == 0);
        assert(p.drop_last() =~= zero_padded(text, (width - 1) as nat));
        lemma_trim_padded(text, (width - 1) as nat);
        lemma_trimmed_len_bound(p.drop_last());
        assert(trimmed(p) =~= trimmed(p.drop_last()));
    }
}

/// An entry written from storable text and an identifier is read back as
/// the same text and identifier.
pub proof fn lemma_entry_roundtrip(smiles: Seq<char>, identifier: Seq<u8>)
    requires
        storable_text(smiles),
        identifier.len() == 30,
    ensures
        entry_bytes(encode_utf8(smiles), identifier).len() == 138,
        entry_readable(entry_bytes(encode_utf8(smiles), identifier)),
        decode_entry(entry_bytes(encode_utf8(smiles), identifier)) == (EntryView {
            smiles,
            identifier,
        }),
{
    is_ascii_chars_encode_utf8(smiles);
    let text = encode_utf8(smiles);
    let entry = entry_bytes(text, identifier);
    assert(entry.subrange(8, 108) =~= zero_padded(text, 100));
    assert(entry.subrange(108, 138) =~= identifier);
    if text.len() > 0 {
        assert(text.last() == smiles.last() as u8);
    }
    lemma_trim_padded(text, 100);
    assert(ascii_text(text) =~= smiles);
}

/// An entry is decoded from its bytes after the reserved ones.
pub proof fn lemma_decode_entry_ignores_reserved(a: Seq<u8>, b: Seq<u8>)
    requires
        a.len() == 138,
        b.len() == 138,
        a.subrange(8, 138) == b.subrange(8, 138),
    ensures
        decode_entry(a) == decode_entry(b),
        entry_readable(a) == entry_readable(b),
{
    assert(a.subrange(8, 108) =~= a.subrange(8, 138).subrange(0, 100));
    assert(b.subrange(8, 108) =~= b.subrange(8, 138).subrange(0, 100));
    assert(a.subrange(108, 138) =~= a.subrange(8, 138).subrange(100, 130));
    assert(b.subrange(108, 138) =~= b.subrange(8, 138).subrange(100, 130));
}

/// `Rng::sample_iter` of the rand crate on the thread's generator with
/// the `Alphanumeric` distribution, taking `count` samples as characters.
/// Every sample is an ASCII letter or digit; which ones come is chance.
#[verifier::external_body]
pub(crate) fn random_alphanumeric(count: usize) -> (s: String)
    ensures
        s@.len() == count,
        forall|i: int|
            0 <= i < count ==> ('0' <= #[trigger] s@[i] <= '9') || ('A' <= s@[i] <= 'Z') || ('a'
                <= s@[i] <= 'z'),
{
    rand::thread_rng().sample_iter(&Alphanumeric).take(count).map(char::from).collect()
}

/// Number of bytes of `field` before the zeros at its end.
fn trimmed_length(field: &[u8]) -> (n: usize)
    ensures
        n == trimmed_len(field@),
{
    let mut n: usize = field.len();
    proof {
        assert(field@.subrange(0, n as int) =~= field@);
    }
    while n > 0
        invariant
            n <= field@.len(),
            trimmed_len(field@) == trimmed_len(field@.subrange(0, n as int)),
        ensures
            n <= field@.len(),
            trimmed_len(field@) == n,
        decreases n,
    {
        proof {
            lemma_trimmed_step(field@, n as int);
        }
        if field[n - 1] != 0 {
            break ;
        }
        n -= 1;
    }
    proof {
        lemma_trimmed_step(field@, n as int);
    }
    n
}

impl DatabaseRecord {
    /// What the database keeps of `record`.
    pub fn from(record: CompoundRecord) -> (r: Self)
        ensures
            r.smiles@ == record.smiles@,
            r.identifier@ == record.compound_identifier@,
    {
        DatabaseRecord { smiles: record.smiles, identifier: record.compound_identifier }
    }

    /// The stored form of this record; `PayloadTooLarge` when the SMILES
    /// text has more than a hundred bytes.
    pub fn to_arr(&self) -> (r: Result<[u8; 138], Error>)
        ensures
            r.is_ok() <==> encode_utf8(self.smiles@).len() <= 100,
            r.is_ok() ==> r.unwrap()@ == entry_bytes(encode_utf8(self.smiles@), self.identifier@),
            r.is_err() ==> r == Err::<[u8; 138], Error>(Error::PayloadTooLarge),
    {
        let bytes = self.smiles.as_str().as_bytes();
        if bytes.len() > SMILES_SIZE {
            return Err(Error::PayloadTooLarge);
        }
        let mut arr: [u8; 138] = [0u8; 138];
        let mut i: usize = 0;
        while i < bytes.len()
            invariant
                i <= bytes@.len() <= 100,
                forall|j: int| 0 <= j < i ==> arr@[8 + j] == bytes@[j],
                forall|j: int| 0 <= j < 8 ==> arr@[j] == 0u8,
                forall|j: int| 8 + i <= j < 138 ==> arr@[j] == 0u8,
            decreases bytes@.len() - i,
        {
            arr[SMILES_START + i] = bytes[i];
            i += 1;
        }
        let mut k: usize = 0;
        while k < ID_SIZE
            invariant
                k <= 30,
                bytes@.len() <= 100,
                forall|j: int| 0 <= j < bytes@.len() ==> arr@[8 + j] == bytes@[j],
                forall|j: int| 0 <= j < 8 ==> arr@[j] == 0u8,
                forall|j: int| 8 + bytes@.len() <= j < 108 ==> arr@[j] == 0u8,
                forall|j: int| 0 <= j < k ==> arr@[108 + j] == self.identifier.0@[j],
            decreases 30 - k,
        {
            arr[ID_START + k] = self.identifier.0[k];
            k += 1;
        }
        proof {
            assert(arr@ =~= entry_bytes(bytes@, self.identifier@));
        }
        Ok(arr)
    }

    /// The record that a stored entry holds; `CorruptPage` when its SMILES
    /// text is not ASCII.
    pub fn from_arr(arr: [u8; 138]) -> (r: Result<Self, Error>)
        ensures
            r.is_ok() <==> entry_readable(arr@),
            r.is_ok() ==> r.unwrap()@ == decode_entry(arr@),
            r.is_err() ==> r == Err::<Self, Error>(Error::CorruptPage),
    {
        let field = slice_subrange(arr.as_slice(), SMILES_START, SMILES_START + SMILES_SIZE);
        let used: usize = trimmed_length(field);
        proof {
            lemma_trimmed_len_bound(field@);
        }
        let text = slice_subrange(field, 0, used);
        let identifier = match CompoundIdentifier::from_ascii_array(
            arr.as_slice(),
            ID_START,
            ID_SIZE,
        ) {
            Ok(identifier) => identifier,
            Err(e) => {
                return Err(e);
            },
        };
        match ascii_to_string(text) {
            Some(smiles) => Ok(DatabaseRecord { smiles, identifier }),
            None => Err(Error::CorruptPage),
        }
    }

    /// A record with twenty random letters and digits as SMILES text and a
    /// random identifier.
    pub fn random() -> (r: Self)
        ensures
            r.smiles@.len() == 20,
            storable_text(r.smiles@),
            forall|i: int| 0 <= i < 30 ==> 65 <= #[trigger] r.identifier@[i] < 91,
    {
        let smiles = random_alphanumeric(20);
        let identifier = CompoundIdentifier::random();
        DatabaseRecord { smiles, identifier }
    }
}

impl Clone for DatabaseRecord {
    fn clone(&self) -> (r: Self)
        ensures
            r@ == self@,
    {
        DatabaseRecord { smiles: self.smiles.clone(), identifier: self.identifier }
    }
}

/// True when `file` is a content database file of `count` entries.
pub open spec fn is_database_file(file: Seq<u8>, count: nat) -> bool {
    &&& file.len() == (if count == 0 {
        8
    } else {
        138 * count
    })
    &&& le_value(file.subrange(0, 8)) == count
}

/// The entries of a database file.
pub open spec fn database_entries(file: Seq<u8>, count: nat) -> Seq<EntryView> {
    Seq::new(count, |i: int| decode_entry(entry_slot(file, i)))
}

/// The file after `entry` is appended to a file of `count` entries.
pub open spec fn file_after_append(file: Seq<u8>, count: nat, entry: Seq<u8>) -> Seq<u8> {
    let body = if count == 0 {
        entry
    } else {
        file + entry
    };
    Seq::new(
        body.len(),
        |i: int|
            if i < 8 {
                le_bytes(count + 1, 8)[i]
            } else {
                body[i]
            },
    )
}

/// Appending an entry leaves the entries before it as they were and adds
/// the new one.
pub proof fn lemma_append_entry(file: Seq<u8>, count: nat, entry: Seq<u8>)
    requires
        is_database_file(file, count),
        entry.len() == 138,
        count + 1 <= u64::MAX,
    ensures
        is_database_file(file_after_append(file, count, entry), count + 1),
        database_entries(file_after_append(file, count, entry), count + 1) == database_entries(
            file,
            count,
        ).push(decode_entry(entry)),
        forall|i: int|
            0 <= i < count ==> entry_readable(
                #[trigger] entry_slot(file_after_append(file, count, entry), i),
            ) == entry_readable(entry_slot(file, i)),
        entry_readable(entry_slot(file_after_append(file, count, entry), count as int))
            == entry_readable(entry),
{
    let after = file_after_append(file, count, entry);
    lemma_le_bytes_len(count + 1, 8);
    lemma_pow256_values();
    lemma_le_value_of_bytes(count + 1, 8);
    assert(after.subrange(0, 8) =~= le_bytes(count + 1, 8));
    assert forall|i: int| 0 <= i < count implies decode_entry(#[trigger] entry_slot(after, i))
        == decode_entry(entry_slot(file, i)) && entry_readable(entry_slot(after, i))
        == entry_readable(entry_slot(file, i)) by {
        assert(entry_slot(after, i).subrange(8, 138) =~= entry_slot(file, i).subrange(8, 138));
        lemma_decode_entry_ignores_reserved(entry_slot(after, i), entry_slot(file, i));
    }
    assert(entry_slot(after, count as int).subrange(8, 138) =~= entry.subrange(8, 138));
    lemma_decode_entry_ignores_reserved(entry_slot(after, count as int), entry);
    assert(database_entries(after, count + 1) =~= database_entries(file, count).push(
        decode_entry(entry),
    ));
}

/// Checks that `image` is a database file and returns its entry count.
fn read_database_header(image: &[u8]) -> (r: Result<u64, Error>)
    ensures
        r.is_ok() <==> image@.len() >= 8 && is_database_file(
            image@,
            le_value(image@.subrange(0, 8)),
        ),
        r.is_ok() ==> r.unwrap() == le_value(image@.subrange(0, 8)),
        r.is_err() ==> r == Err::<u64, Error>(Error::CorruptPage),
{
    if image.len() < ENTRIES_SIZE {
        return Err(Error::CorruptPage);
    }
    let count: u64 = read_le(image, ENTRIES_START, ENTRIES_SIZE);
    if count == 0 {
        if image.len() != ENTRIES_SIZE {
            return Err(Error::CorruptPage);
        }
        return Ok(0);
    }
    if image.len() % DATABASE_ENTRY_SIZE != 0 || (image.len() / DATABASE_ENTRY_SIZE) as u64
        != count {
        return Err(Error::CorruptPage);
    }
    Ok(count)
}

/// Reads entry `id` of a database file.
fn read_entry(file: &Vec<u8>, num_entries: u64, id: u64) -> (r: Result<DatabaseRecord, Error>)
    requires
        is_database_file(file@, num_entries as nat),
    ensures
        id >= num_entries ==> r == Err::<DatabaseRecord, Error>(Error::KeyNotFound),
        id < num_entries && !entry_readable(entry_slot(file@, id as int)) ==> r == Err::<
            DatabaseRecord,
            Error,
        >(Error::CorruptPage),
        id < num_entries && entry_readable(entry_slot(file@, id as int)) ==> r.is_ok(),
        r.is_ok() ==> r.unwrap()@ == database_entries(file@, num_entries as nat)[id as int],
{
    if id >= num_entries {
        return Err(Error::KeyNotFound);
    }
    let total: usize = file.len();
    let start: usize = (id as usize) * DATABASE_ENTRY_SIZE;
    let slot = slice_subrange(file.as_slice(), start, start + DATABASE_ENTRY_SIZE);
    let mut buf: [u8; 138] = [0u8; 138];
    let mut i: usize = 0;
    while i < DATABASE_ENTRY_SIZE
        invariant
            i <= 138,
            slot@.len() == 138,
            forall|j: int| 0 <= j < i ==> buf@[j] == slot@[j],
        decreases 138 - i,
    {
        buf[i] = slot[i];
        i += 1;
    }
    proof {
        assert(buf@ =~= entry_slot(file@, id as int));
    }
    DatabaseRecord::from_arr(buf)
}

/// The content database, open for appending and reading.
#[derive(Debug)]
pub struct Database {
    pub file: Vec<u8>,
    pub num_entries: u64,
}

impl View for Database {
    type V = Seq<EntryView>;

    open spec fn view(&self) -> Seq<EntryView> {
        database_entries(self.file@, self.num_entries as nat)
    }
}

impl Database {
    /// The file holds the entries that the count announces.
    pub open spec fn wf(&self) -> bool {
        is_database_file(self.file@, self.num_entries as nat)
    }

    /// Entries stored.
    pub fn num_entries(&self) -> (n: usize)
        requires
            self.wf(),
            self.file@.len() <= usize::MAX,
        ensures
            n == self.num_entries,
    {
        let total: usize = self.file.len();
        self.num_entries as usize
    }

    /// An empty database.
    pub fn new() -> (db: Self)
        ensures
            db.wf(),
            db.num_entries == 0,
            db@ == Seq::<EntryView>::empty(),
    {
        let file = le_encode(0, ENTRIES_SIZE);
        proof {
            lemma_le_bytes_len(0, 8);
            lemma_pow256_values();
            lemma_le_value_of_bytes(0, 8);
            assert(file@.subrange(0, 8) =~= file@);
        }
        let db = Database { file, num_entries: 0 };
        proof {
            assert(db@ =~= Seq::<EntryView>::empty());
        }
        db
    }

    /// The database stored in `image`; `CorruptPage` when the image is not
    /// a database file.
    pub fn open(image: &[u8]) -> (r: Result<Self, Error>)
        ensures
            r.is_ok() <==> image@.len() >= 8 && is_database_file(
                image@,
                le_value(image@.subrange(0, 8)),
            ),
            r.is_ok() ==> r.unwrap().wf() && r.unwrap().file@ == image@,
            r.is_err() ==> r == Err::<Self, Error>(Error::CorruptPage),
    {
        match read_database_header(image) {
            Ok(num_entries) => {
                let mut file: Vec<u8> = Vec::new();
                append_bytes(&mut file, image);
                proof {
                    assert(file@ =~= image@);
                }
                Ok(Database { file, num_entries })
            },
            Err(_) => Err(Error::CorruptPage),
        }
    }

    /// Appends what the database keeps of `entry` and returns its index.
    pub fn add_compound_record(&mut self, entry: &CompoundRecord) -> (r: Result<u64, Error>)
        requires
            old(self).wf(),
            138 * (old(self).num_entries + 1) <= usize::MAX,
        ensures
            final(self).wf(),
            r.is_ok() <==> encode_utf8(entry.smiles@).len() <= 100,
            r.is_ok() ==> r.unwrap() == old(self).num_entries
                && final(self).num_entries == old(self).num_entries + 1
                && final(self).file@ == file_after_append(
                old(self).file@,
                old(self).num_entries as nat,
                entry_bytes(encode_utf8(entry.smiles@), entry.compound_identifier@),
            ) && final(self)@ == old(self)@.push(
                decode_entry(entry_bytes(encode_utf8(entry.smiles@), entry.compound_identifier@)),
            ),
            r.is_err() ==> r == Err::<u64, Error>(Error::PayloadTooLarge) && *final(self) == *old(self),
    {
        let database_record = DatabaseRecord::from(entry.clone());
        self.add_entry(&database_record)
    }

    /// Appends `entry` and returns its index; `PayloadTooLarge` when its
    /// SMILES text has more than a hundred bytes.
    pub fn add_entry(&mut self, entry: &DatabaseRecord) -> (r: Result<u64, Error>)
        requires
            old(self).wf(),
            138 * (old(self).num_entries + 1) <= usize::MAX,
        ensures
            final(self).wf(),
            r.is_ok() <==> encode_utf8(entry.smiles@).len() <= 100,
            r.is_ok() ==> r.unwrap() == old(self).num_entries
                && final(self).num_entries == old(self).num_entries + 1
                && final(self).file@ == file_after_append(
                old(self).file@,
                old(self).num_entries as nat,
                entry_bytes(encode_utf8(entry.smiles@), entry.identifier@),
            ) && final(self)@ == old(self)@.push(
                decode_entry(entry_bytes(encode_utf8(entry.smiles@), entry.identifier@)),
            ),
            r.is_err() ==> r == Err::<u64, Error>(Error::PayloadTooLarge) && *final(self) == *old(self),
    {
        let arr = match entry.to_arr() {
            Ok(arr) => arr,
            Err(e) => {
                return Err(Error::PayloadTooLarge);
            },
        };
        let ghost before = self.file@;
        let ghost count = self.num_entries as nat;
        if self.num_entries == 0 {
            self.file.truncate(0);
        }
        append_bytes(&mut self.file, arr.as_slice());
        let return_idx: u64 = self.num_entries;
        self.num_entries += 1;
        let header = le_encode(self.num_entries, ENTRIES_SIZE);
        proof {
            lemma_le_bytes_len(self.num_entries as nat, 8);
        }
        overwrite(&mut self.file, ENTRIES_START, header.as_slice());
        proof {
            assert(self.file@ =~= file_after_append(before, count, arr@));
            lemma_append_entry(before, count, arr@);
        }
        Ok(return_idx)
    }

    /// The entry at index `id`; `KeyNotFound` when there is none,
    /// `CorruptPage` when its SMILES text is not ASCII.
    pub fn query(&self, id: &u64) -> (r: Result<DatabaseRecord, Error>)
        requires
            self.wf(),
        ensures
            *id >= self.num_entries ==> r == Err::<DatabaseRecord, Error>(Error::KeyNotFound),
            *id < self.num_entries && !entry_readable(entry_slot(self.file@, *id as int)) ==> r
                == Err::<DatabaseRecord, Error>(Error::CorruptPage),
            *id < self.num_entries && entry_readable(entry_slot(self.file@, *id as int))
                ==> r.is_ok(),
            r.is_ok() ==> r.unwrap()@ == self@[*id as int],
    {
        read_entry(&self.file, self.num_entries, *id)
    }
}

/// The content database, open for reading only.
#[derive(Debug)]
pub struct ImmutDatabase {
    pub file: Vec<u8>,
    pub num_entries: u64,
}

impl ImmutDatabase {
    /// The file holds the entries that the count announces.
    pub open spec fn wf(&self) -> bool {
        is_database_file(self.file@, self.num_entries as nat)
    }

    /// The database stored in `image`; `CorruptPage` when the image is not
    /// a database file.
    pub fn open(image: &[u8]) -> (r: Result<Self, Error>)
        ensures
            r.is_ok() <==> image@.len() >= 8 && is_database_file(
                image@,
                le_value(image@.subrange(0, 8)),
            ),
            r.is_ok() ==> r.unwrap().wf() && r.unwrap().file@ == image@,
            r.is_err() ==> r == Err::<Self, Error>(Error::CorruptPage),
    {
        match read_database_header(image) {
            Ok(num_entries) => {
                let mut file: Vec<u8> = Vec::new();
                append_bytes(&mut file, image);
                proof {
                    assert(file@ =~= image@);
                }
                Ok(ImmutDatabase { file, num_entries })
            },
            Err(_) => Err(Error::CorruptPage),
        }
    }

    /// The entry at index `id`; `KeyNotFound` when there is none,
    /// `CorruptPage` when its SMILES text is not ASCII.
    pub fn query(&self, id: &u64) -> (r: Result<DatabaseRecord, Error>)
        requires
            self.wf(),
        ensures
            *id >= self.num_entries ==> r == Err::<DatabaseRecord, Error>(Error::KeyNotFound),
            *id < self.num_entries && !entry_readable(entry_slot(self.file@, *id as int)) ==> r
                == Err::<DatabaseRecord, Error>(Error::CorruptPage),
            *id < self.num_entries && entry_readable(entry_slot(self.file@, *id as int))
                ==> r.is_ok(),
            r.is_ok() ==> r.unwrap()@ == database_entries(self.file@, self.num_entries as nat)[*id as int],
    {
        read_entry(&self.file, self.num_entries, *id)
    }
}

} // verus!
