//! Lines of input: `smiles,identifier,f1,...,fD`, where what stands between
//! a pair of bars is an extension to be left out, and the identifier is
//! prefixed with the stem of the file's name.
//!
//! The functions here cut a line into its fields. Turning the number
//! fields into coordinates is the caller's.

use vstd::prelude::*;
use vstd::slice::slice_subrange;
use crate::data::{all_ascii, ascii_text, ascii_to_string, zero_padded, CompoundIdentifier};
use crate::error::Error;

verus! {

pub const BAR: u8 = 124;
pub const COMMA: u8 = 44;
pub const SLASH: u8 = 47;
pub const UNDERSCORE: u8 = 95;
pub const OPEN_BRACKET: u8 = 91;
pub const CLOSE_BRACKET: u8 = 93;
pub const SPACE: u8 = 32;

/// `s` without its bars and without what stands between the first and the
/// second bar, the third and the fourth, and so on. `keep` says whether
/// `s` starts outside such a pair.
pub open spec fn without_bars(s: Seq<u8>, keep: bool) -> Seq<u8>
    decreases s.len(),
{
    if s.len() == 0 {
        Seq::empty()
    } else if s[0] == 124 {
        without_bars(s.drop_first(), !keep)
    } else if keep {
        seq![s[0]] + without_bars(s.drop_first(), keep)
    } else {
        without_bars(s.drop_first(), keep)
    }
}

/// The parts of `s`: what stands between its separators, in order. A
/// text without a separator is one part.
pub open spec fn parts_of(s: Seq<u8>, sep: u8) -> Seq<Seq<u8>>
    decreases s.len(),
{
    if s.len() == 0 {
        seq![Seq::empty()]
    } else {
        let before = parts_of(s.drop_last(), sep);
        if s.last() == sep {
            before.push(Seq::empty())
        } else {
            before.update(before.len() - 1, before.last().push(s.last()))
        }
    }
}

/// The fields of `s`: what stands between its commas.
pub open spec fn fields_of(s: Seq<u8>) -> Seq<Seq<u8>> {
    parts_of(s, 44)
}

/// `s` without brackets and spaces.
pub open spec fn bare_number(s: Seq<u8>) -> Seq<u8>
    decreases s.len(),
{
    if s.len() == 0 {
        Seq::empty()
    } else if s.last() == 91 || s.last() == 93 || s.last() == 32 {
        bare_number(s.drop_last())
    } else {
        bare_number(s.drop_last()).push(s.last())
    }
}

/// Where the last part of a path starts: after its last slash.
pub open spec fn name_start(s: Seq<u8>) -> nat
    decreases s.len(),
{
    if s.len() == 0 {
        0
    } else if s.last() == 47 {
        s.len()
    } else {
        name_start(s.drop_last())
    }
}

/// Where the stem that starts at `from` ends: at the first underscore, or
/// at the end of `s`.
pub open spec fn stem_end(s: Seq<u8>, from: nat) -> nat
    decreases s.len() - from,
{
    if from >= s.len() {
        s.len()
    } else if s[from as int] == 95 {
        from
    } else {
        stem_end(s, from + 1)
    }
}

/// The stem of a file's name: its last part up to the first underscore.
pub open spec fn stem_of(s: Seq<u8>) -> Seq<u8> {
    s.subrange(name_start(s) as int, stem_end(s, name_start(s)) as int)
}

/// The line without its bars and what stands between pairs of them.
pub fn strip_extension(line: &[u8]) -> (out: Vec<u8>)
    ensures
        out@ == without_bars(line@, true),
{
    let mut out: Vec<u8> = Vec::new();
    let mut keep: bool = true;
    let mut i: usize = 0;
    proof {
        assert(line@.subrange(0, line@.len() as int) =~= line@);
        assert(out@ + without_bars(line@, true) =~= without_bars(line@, true));
    }
    while i < line.len()
        invariant
            i <= line@.len(),
            out@ + without_bars(line@.subrange(i as int, line@.len() as int), keep)
                == without_bars(line@, true),
        decreases line@.len() - i,
    {
        let ghost rest = line@.subrange(i as int, line@.len() as int);
        let ghost before = out@;
        proof {
            assert(rest.drop_first() =~= line@.subrange(i + 1, line@.len() as int));
            assert(rest[0] == line@[i as int]);
        }
        let c: u8 = line[i];
        if c == BAR {
            keep = !keep;
        } else if keep {
            out.push(c);
            proof {
                let tail = without_bars(rest.drop_first(), keep);
                assert(before + (seq![c] + tail) =~= out@ + tail);
            }
        }
        i += 1;
    }
    proof {
        assert(line@.subrange(line@.len() as int, line@.len() as int) =~= Seq::<u8>::empty());
        assert(out@ + Seq::<u8>::empty() =~= out@);
    }
    out
}

/// The views of a vector of byte vectors.
pub open spec fn texts(v: Seq<Vec<u8>>) -> Seq<Seq<u8>> {
    Seq::new(v.len(), |i: int| v[i]@)
}

/// The fields of a line: what stands between its commas.
pub fn split_fields(line: &[u8]) -> (fields: Vec<Vec<u8>>)
    ensures
        texts(fields@) == fields_of(line@),
        fields@.len() >= 1,
{
    split_on(line, COMMA)
}

/// The parts of a text: what stands between its separators.
pub fn split_on(line: &[u8], sep: u8) -> (parts: Vec<Vec<u8>>)
    ensures
        texts(parts@) == parts_of(line@, sep),
        parts@.len() >= 1,
{
    let mut done: Vec<Vec<u8>> = Vec::new();
    let mut current: Vec<u8> = Vec::new();
    let mut i: usize = 0;
    proof {
        assert(line@.subrange(0, 0) =~= Seq::<u8>::empty());
        assert(texts(done@).push(current@) =~= parts_of(Seq::<u8>::empty(), sep));
    }
    while i < line.len()
        invariant
            i <= line@.len(),
            texts(done@).push(current@) == parts_of(line@.subrange(0, i as int), sep),
        decreases line@.len() - i,
    {
        let ghost upto = line@.subrange(0, i as int);
        let ghost next = line@.subrange(0, i + 1);
        let ghost closed = texts(done@);
        let ghost open = current@;
        proof {
            assert(next.drop_last() =~= upto);
            assert(next.last() == line@[i as int]);
        }
        let c: u8 = line[i];
        if c == sep {
            done.push(current);
            current = Vec::new();
            proof {
                assert(texts(done@) =~= closed.push(open));
                assert(texts(done@).push(current@) =~= parts_of(upto, sep).push(
                    Seq::<u8>::empty(),
                ));
            }
        } else {
            current.push(c);
            proof {
                let before = parts_of(upto, sep);
                assert(before.last() == open);
                assert(texts(done@).push(current@) =~= before.update(
                    before.len() - 1,
                    open.push(c),
                ));
            }
        }
        i += 1;
    }
    proof {
        assert(line@.subrange(0, line@.len() as int) =~= line@);
    }
    let ghost closed = texts(done@);
    let ghost open = current@;
    done.push(current);
    proof {
        assert(texts(done@) =~= closed.push(open));
    }
    done
}

/// The field without brackets and spaces.
pub fn clean_number(field: &[u8]) -> (out: Vec<u8>)
    ensures
        out@ == bare_number(field@),
{
    let mut out: Vec<u8> = Vec::new();
    let mut i: usize = 0;
    proof {
        assert(field@.subrange(0, 0) =~= Seq::<u8>::empty());
    }
    while i < field.len()
        invariant
            i <= field@.len(),
            out@ == bare_number(field@.subrange(0, i as int)),
        decreases field@.len() - i,
    {
        proof {
            let next = field@.subrange(0, i + 1);
            assert(next.drop_last() =~= field@.subrange(0, i as int));
            assert(next.last() == field@[i as int]);
        }
        let c: u8 = field[i];
        if c != OPEN_BRACKET && c != CLOSE_BRACKET && c != SPACE {
            out.push(c);
        }
        i += 1;
    }
    proof {
        assert(field@.subrange(0, field@.len() as int) =~= field@);
    }
    out
}

/// The stem of a file's name: its last part up to the first underscore.
pub fn file_stem(filename: &[u8]) -> (stem: Vec<u8>)
    ensures
        stem@ == stem_of(filename@),
{
    let total: usize = filename.len();
    let mut start: usize = 0;
    let mut i: usize = 0;
    proof {
        assert(filename@.subrange(0, 0) =~= Seq::<u8>::empty());
    }
    while i < total
        invariant
            i <= total,
            total == filename@.len(),
            start == name_start(filename@.subrange(0, i as int)),
            start <= i,
        decreases total - i,
    {
        proof {
            let next = filename@.subrange(0, i + 1);
            assert(next.drop_last() =~= filename@.subrange(0, i as int));
            assert(next.last() == filename@[i as int]);
        }
        if filename[i] == SLASH {
            start = i + 1;
        }
        i += 1;
    }
    proof {
        assert(filename@.subrange(0, total as int) =~= filename@);
    }
    let mut end: usize = start;
    while end < total && filename[end] != UNDERSCORE
        invariant
            start <= end <= total,
            total == filename@.len(),
            stem_end(filename@, start as nat) == stem_end(filename@, end as nat),
        decreases total - end,
    {
        end += 1;
    }
    let mut stem: Vec<u8> = Vec::new();
    stem.extend_from_slice(slice_subrange(filename, start, end));
    proof {
        assert(stem@ =~= filename@.subrange(start as int, end as int));
    }
    stem
}

/// What a line holds before its numbers are read.
pub struct LineFields {
    pub smiles: String,
    pub identifier: CompoundIdentifier,
    pub numbers: Vec<Vec<u8>>,
}

/// The number fields of a line: the fields after the second, each without
/// brackets and spaces.
pub open spec fn numbers_of(fields: Seq<Seq<u8>>) -> Seq<Seq<u8>> {
    Seq::new((fields.len() - 2) as nat, |i: int| bare_number(fields[i + 2]))
}

/// The fields of a line for a file of the given stem. The first field is
/// the SMILES text, the second is put after the stem to give the
/// identifier, the others are numbers. `MalformedLine` when the line has
/// no second field or its first field is not ASCII, `PayloadTooLarge`
/// when stem and second field together are wider than an identifier.
pub fn read_line(line: &[u8], stem: &[u8]) -> (r: Result<LineFields, Error>)
    ensures
        ({
            let fields = fields_of(without_bars(line@, true));
            if fields.len() < 2 || !all_ascii(fields[0]) {
                r == Err::<LineFields, Error>(Error::MalformedLine)
            } else if stem@.len() + fields[1].len() > 30 {
                r == Err::<LineFields, Error>(Error::PayloadTooLarge)
            } else {
                &&& r.is_ok()
                &&& r.unwrap().smiles@ == ascii_text(fields[0])
                &&& r.unwrap().identifier@ == zero_padded(stem@ + fields[1], 30)
                &&& texts(r.unwrap().numbers@) == numbers_of(fields)
            }
        }),
{
    let stripped = strip_extension(line);
    let fields = split_fields(stripped.as_slice());
    let ghost all = fields_of(without_bars(line@, true));
    proof {
        assert(texts(fields@) == all);
        assert(fields@.len() == all.len());
    }
    if fields.len() < 2 {
        return Err(Error::MalformedLine);
    }
    proof {
        assert(texts(fields@)[0] == fields@[0]@);
        assert(texts(fields@)[1] == fields@[1]@);
    }
    let smiles = match ascii_to_string(fields[0].as_slice()) {
        Some(smiles) => smiles,
        None => {
            return Err(Error::MalformedLine);
        },
    };
    if stem.len() > 30 || fields[1].len() > 30 - stem.len() {
        return Err(Error::PayloadTooLarge);
    }
    let mut name: Vec<u8> = Vec::new();
    name.extend_from_slice(stem);
    name.extend_from_slice(fields[1].as_slice());
    proof {
        assert(name@ =~= stem@ + fields@[1]@);
    }
    let identifier = CompoundIdentifier::from_padded(name.as_slice());
    let mut numbers: Vec<Vec<u8>> = Vec::new();
    let mut i: usize = 2;
    while i < fields.len()
        invariant
            2 <= i <= fields@.len(),
            texts(fields@) == all,
            numbers@.len() == i - 2,
            forall|j: int| 0 <= j < i - 2 ==> (#[trigger] numbers@[j])@ == bare_number(all[j + 2]),
        decreases fields@.len() - i,
    {
        proof {
            assert(texts(fields@)[i as int] == fields@[i as int]@);
        }
        numbers.push(clean_number(fields[i].as_slice()));
        i += 1;
    }
    proof {
        assert(texts(numbers@) =~= numbers_of(all));
    }
    Ok(LineFields { smiles, identifier, numbers })
}

} // verus!
