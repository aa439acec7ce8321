//! Fixed-width big-endian and little-endian integers.

use vstd::prelude::*;
use byteorder::BigEndian;
use byteorder::ByteOrder;

verus! {

/// The number that `s` spells in base 256, most significant byte first.
pub open spec fn be_value(s: Seq<u8>) -> nat
    decreases s.len(),
{
    if s.len() == 0 {
        0
    } else {
        be_value(s.drop_last()) * 256 + s.last() as nat
    }
}

/// The number that `s` spells in base 256, least significant byte first.
pub open spec fn le_value(s: Seq<u8>) -> nat
    decreases s.len(),
{
    if s.len() == 0 {
        0
    } else {
        s.first() as nat + 256 * le_value(s.drop_first())
    }
}

/// The `width` low base-256 digits of `v`, most significant first.
pub open spec fn be_bytes(v: nat, width: nat) -> Seq<u8>
    decreases width,
{
    if width == 0 {
        Seq::empty()
    } else {
        be_bytes(v / 256, (width - 1) as nat).push((v % 256) as u8)
    }
}

/// The `width` low base-256 digits of `v`, least significant first.
pub open spec fn le_bytes(v: nat, width: nat) -> Seq<u8>
    decreases width,
{
    if width == 0 {
        Seq::empty()
    } else {
        seq![(v % 256) as u8] + le_bytes(v / 256, (width - 1) as nat)
    }
}

/// 256 to the power `n`.
pub open spec fn pow256(n: nat) -> nat
    decreases n,
{
    if n == 0 {
        1
    } else {
        256 * pow256((n - 1) as nat)
    }
}

pub proof fn lemma_pow256_values()
    ensures
        pow256(0) == 1,
        pow256(1) == 0x100,
        pow256(4) == 0x1_0000_0000,
        pow256(8) == 0x1_0000_0000_0000_0000,
{
    reveal_with_fuel(pow256, 9);
}

pub proof fn lemma_be_bytes_len(v: nat, width: nat)
    ensures
        be_bytes(v, width).len() == width,
    decreases width,
{
    if width > 0 {
        lemma_be_bytes_len(v / 256, (width - 1) as nat);
    }
}

pub proof fn lemma_le_bytes_len(v: nat, width: nat)
    ensures
        le_bytes(v, width).len() == width,
    decreases width,
{
    if width > 0 {
        lemma_le_bytes_len(v / 256, (width - 1) as nat);
    }
}

/// A big-endian field is below 256 to the power of its width.
pub proof fn lemma_be_value_bound(s: Seq<u8>)
    ensures
        be_value(s) < pow256(s.len()),
    decreases s.len(),
{
    if s.len() > 0 {
        lemma_be_value_bound(s.drop_last());
    }
}

/// A little-endian field is below 256 to the power of its width.
pub proof fn lemma_le_value_bound(s: Seq<u8>)
    ensures
        le_value(s) < pow256(s.len()),
    decreases s.len(),
{
    if s.len() > 0 {
        lemma_le_value_bound(s.drop_first());
    }
}

/// Decoding the big-endian digits of a number that fits gives it back.
pub proof fn lemma_be_value_of_bytes(v: nat, width: nat)
    requires
        v < pow256(width),
    ensures
        be_value(be_bytes(v, width)) == v,
    decreases width,
{
    if width > 0 {
        let rest = be_bytes(v / 256, (width - 1) as nat);
        lemma_be_value_of_bytes(v / 256, (width - 1) as nat);
        assert(be_bytes(v, width).drop_last() =~= rest);
    }
}

/// Decoding the little-endian digits of a number that fits gives it back.
pub proof fn lemma_le_value_of_bytes(v: nat, width: nat)
    requires
        v < pow256(width),
    ensures
        le_value(le_bytes(v, width)) == v,
    decreases width,
{
    if width > 0 {
        let rest = le_bytes(v / 256, (width - 1) as nat);
        lemma_le_value_of_bytes(v / 256, (width - 1) as nat);
        assert(le_bytes(v, width).drop_first() =~= rest);
    }
}

/// Reads the big-endian integer of `width` bytes that starts at `offset`.
pub fn read_be(data: &[u8], offset: usize, width: usize) -> (v: u64)
    requires
        width <= 8,
        offset + width <= data@.len(),
    ensures
        v == be_value(data@.subrange(offset as int, offset + width)),
{
    let n: usize = data.len();
    let mut acc: u64 = 0;
    let mut i: usize = 0;
    let ghost field = data@.subrange(offset as int, offset + width);
    proof {
        assert(field.subrange(0, 0) =~= Seq::<u8>::empty());
    }
    while i < width
        invariant
            i <= width <= 8,
            n == data@.len(),
            offset + width <= data@.len(),
            field == data@.subrange(offset as int, offset + width),
            acc == be_value(field.subrange(0, i as int)),
        decreases width - i,
    {
        let b: u8 = data[offset + i];
        proof {
            let prefix = field.subrange(0, i as int);
            let next = field.subrange(0, i + 1);
            assert(next.drop_last() =~= prefix);
            assert(next.last() == b);
            lemma_be_value_bound(prefix);
            lemma_be_value_bound(next);
            lemma_pow256_monotone((i + 1) as nat, 8);
            lemma_pow256_values();
        }
        acc = acc * 256 + b as u64;
        i += 1;
    }
    proof {
        assert(field.subrange(0, width as int) =~= field);
    }
    acc
}

pub proof fn lemma_pow256_monotone(a: nat, b: nat)
    requires
        a <= b,
    ensures
        pow256(a) <= pow256(b),
        pow256(a) > 0,
    decreases b,
{
    if a < b {
        lemma_pow256_monotone(a, (b - 1) as nat);
    } else if a > 0 {
        lemma_pow256_monotone((a - 1) as nat, (a - 1) as nat);
    }
}

/// Reads the little-endian integer of `width` bytes that starts at `offset`.
pub fn read_le(data: &[u8], offset: usize, width: usize) -> (v: u64)
    requires
        width <= 8,
        offset + width <= data@.len(),
    ensures
        v == le_value(data@.subrange(offset as int, offset + width)),
{
    let n: usize = data.len();
    let mut acc: u64 = 0;
    let mut i: usize = width;
    let ghost field = data@.subrange(offset as int, offset + width);
    proof {
        assert(field.subrange(width as int, width as int) =~= Seq::<u8>::empty());
    }
    while i > 0
        invariant
            i <= width <= 8,
            n == data@.len(),
            offset + width <= data@.len(),
            field == data@.subrange(offset as int, offset + width),
            acc == le_value(field.subrange(i as int, width as int)),
        decreases i,
    {
        i -= 1;
        let b: u8 = data[offset + i];
        proof {
            let suffix = field.subrange(i + 1, width as int);
            let next = field.subrange(i as int, width as int);
            assert(next.drop_first() =~= suffix);
            assert(next.first() == b);
            lemma_le_value_bound(suffix);
            lemma_le_value_bound(next);
            lemma_pow256_monotone((width - i) as nat, 8);
            lemma_pow256_values();
        }
        acc = acc * 256 + b as u64;
    }
    proof {
        assert(field.subrange(0, width as int) =~= field);
    }
    acc
}

/// The `width` low digits of `v`, most significant first.
pub fn be_encode(v: u64, width: usize) -> (out: Vec<u8>)
    requires
        width <= 8,
    ensures
        out@ == be_bytes(v as nat, width as nat),
{
    let mut out: Vec<u8> = Vec::new();
    let mut i: usize = 0;
    while i < width
        invariant
            i <= width <= 8,
            out@.len() == i,
        decreases width - i,
    {
        out.push(0u8);
        i += 1;
    }
    let mut rest: u64 = v;
    let mut k: usize = width;
    proof {
        assert(out@.subrange(width as int, width as int) =~= Seq::<u8>::empty());
        assert(be_bytes(v as nat, width as nat) + Seq::<u8>::empty() =~= be_bytes(
            v as nat,
            width as nat,
        ));
    }
    while k > 0
        invariant
            k <= width <= 8,
            out@.len() == width,
            be_bytes(v as nat, width as nat) == be_bytes(rest as nat, k as nat) + out@.subrange(
                k as int,
                width as int,
            ),
        decreases k,
    {
        k -= 1;
        let digit: u8 = (rest % 256) as u8;
        let ghost before = out@;
        out[k] = digit;
        proof {
            let tail_before = before.subrange(k + 1, width as int);
            let tail_after = out@.subrange(k as int, width as int);
            assert(tail_after =~= seq![digit] + tail_before);
            assert(be_bytes(rest as nat, (k + 1) as nat) == be_bytes(
                (rest / 256) as nat,
                k as nat,
            ).push(digit));
            assert(be_bytes((rest / 256) as nat, k as nat).push(digit) + tail_before
                =~= be_bytes((rest / 256) as nat, k as nat) + tail_after);
        }
        rest = rest / 256;
    }
    proof {
        assert(be_bytes(rest as nat, 0) =~= Seq::<u8>::empty());
        assert(out@.subrange(0, width as int) =~= out@);
        assert(Seq::<u8>::empty() + out@ =~= out@);
    }
    out
}

/// The `width` low digits of `v`, least significant first.
pub fn le_encode(v: u64, width: usize) -> (out: Vec<u8>)
    requires
        width <= 8,
    ensures
        out@ == le_bytes(v as nat, width as nat),
{
    let mut out: Vec<u8> = Vec::new();
    let mut rest: u64 = v;
    let mut i: usize = 0;
    proof {
        assert(out@ + le_bytes(v as nat, width as nat) =~= le_bytes(v as nat, width as nat));
    }
    while i < width
        invariant
            i <= width <= 8,
            out@.len() == i,
            le_bytes(v as nat, width as nat) == out@ + le_bytes(rest as nat, (width - i) as nat),
        decreases width - i,
    {
        let digit: u8 = (rest % 256) as u8;
        let ghost before = out@;
        out.push(digit);
        proof {
            assert(le_bytes(rest as nat, (width - i) as nat) == seq![digit] + le_bytes(
                (rest / 256) as nat,
                (width - i - 1) as nat,
            ));
            assert(before + (seq![digit] + le_bytes((rest / 256) as nat, (width - i - 1) as nat))
                =~= out@ + le_bytes((rest / 256) as nat, (width - i - 1) as nat));
        }
        rest = rest / 256;
        i += 1;
    }
    proof {
        assert(out@ + le_bytes(rest as nat, 0) =~= out@);
    }
    out
}

/// `BigEndian::read_u32` of the byteorder crate: the number that the first
/// four bytes of `buf` spell, most significant byte first. The crate panics
/// on a shorter buffer, so those are left out.
#[verifier::external_body]
pub(crate) fn byteorder_read_u32(buf: &[u8]) -> (v: u32)
    requires
        buf@.len() >= 4,
    ensures
        v == be_value(buf@.subrange(0, 4)),
{
    BigEndian::read_u32(buf)
}

/// `BigEndian::write_u32` of the byteorder crate, on a fresh buffer of four
/// bytes: the four base-256 digits of `v`, most significant first.
#[verifier::external_body]
pub(crate) fn byteorder_write_u32(v: u32) -> (out: [u8; 4])
    ensures
        out@ == be_bytes(v as nat, 4),
{
    let mut buf = [0u8; 4];
    BigEndian::write_u32(&mut buf, v);
    buf
}

/// `BigEndian::write_u64` of the byteorder crate, on a fresh buffer of
/// eight bytes: the eight base-256 digits of `v`, most significant first.
#[verifier::external_body]
pub(crate) fn byteorder_write_u64(v: u64) -> (out: [u8; 8])
    ensures
        out@ == be_bytes(v as nat, 8),
{
    let mut buf = [0u8; 8];
    BigEndian::write_u64(&mut buf, v);
    buf
}

} // verus!

verus! {

/// `data` with the bytes from `start` on replaced by `src`.
pub open spec fn overwritten(data: Seq<u8>, start: int, src: Seq<u8>) -> Seq<u8> {
    Seq::new(
        data.len(),
        |i: int|
            if start <= i < start + src.len() {
                src[i - start]
            } else {
                data[i]
            },
    )
}

/// Copies `src` over the bytes of `data` that start at `start`.
pub fn overwrite(data: &mut Vec<u8>, start: usize, src: &[u8])
    requires
        start + src@.len() <= old(data)@.len(),
    ensures
        final(data)@ == overwritten(old(data)@, start as int, src@),
{
    let ghost before = data@;
    let total: usize = data.len();
    let mut i: usize = 0;
    while i < src.len()
        invariant
            i <= src@.len(),
            total == data@.len(),
            data@.len() == before.len(),
            start + src@.len() <= before.len(),
            data@ == overwritten(before, start as int, src@.subrange(0, i as int)),
        decreases src@.len() - i,
    {
        data[start + i] = src[i];
        proof {
            assert(data@ =~= overwritten(before, start as int, src@.subrange(0, i + 1)));
        }
        i += 1;
    }
    proof {
        assert(src@.subrange(0, src@.len() as int) =~= src@);
    }
}

} // verus!

verus! {

/// Appends `src` to `out`.
pub fn append_bytes(out: &mut Vec<u8>, src: &[u8])
    ensures
        final(out)@ == old(out)@ + src@,
{
    out.extend_from_slice(src);
    proof {
        assert(out@ =~= old(out)@ + src@);
    }
}

} // verus!
