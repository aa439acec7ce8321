//! Order on IEEE-754 single-precision bit patterns.
//!
//! A pattern is a sign bit, eight exponent bits and twenty-three fraction
//! bits. Patterns whose exponent is all ones and whose fraction is not zero
//! encode no number. Every other pattern encodes a number, and numbers are
//! ordered as their sign-magnitude patterns are: the two zeros are equal.

use vstd::prelude::*;

verus! {

/// The pattern with only the sign bit set.
pub const SIGN_BIT: u32 = 0x8000_0000;

/// The pattern of positive infinity.
pub const INFINITY: u32 = 0x7f80_0000;

/// The pattern without its sign bit.
pub open spec fn magnitude(bits: u32) -> int {
    if bits < 0x8000_0000 {
        bits as int
    } else {
        bits - 0x8000_0000
    }
}

/// True when the pattern encodes no number.
pub open spec fn is_nan(bits: u32) -> bool {
    magnitude(bits) > 0x7f80_0000
}

/// An integer that orders the patterns of numbers as the numbers are ordered.
pub open spec fn key(bits: u32) -> int {
    if bits < 0x8000_0000 {
        magnitude(bits)
    } else {
        -magnitude(bits)
    }
}

/// `a <= b` on the encoded numbers; false when either encodes no number.
pub open spec fn le(a: u32, b: u32) -> bool {
    !is_nan(a) && !is_nan(b) && key(a) <= key(b)
}

/// `a < b` on the encoded numbers; false when either encodes no number.
pub open spec fn lt(a: u32, b: u32) -> bool {
    !is_nan(a) && !is_nan(b) && key(a) < key(b)
}

/// `a == b` on the encoded numbers; false when either encodes no number.
pub open spec fn same(a: u32, b: u32) -> bool {
    !is_nan(a) && !is_nan(b) && key(a) == key(b)
}

/// Whether the pattern encodes no number.
pub fn scalar_is_nan(bits: u32) -> (r: bool)
    ensures
        r == is_nan(bits),
{
    let m: u32 = if bits < SIGN_BIT { bits } else { bits - SIGN_BIT };
    m > INFINITY
}

/// The order key of a pattern.
pub fn scalar_key(bits: u32) -> (k: i64)
    ensures
        k == key(bits),
{
    if bits < SIGN_BIT {
        bits as i64
    } else {
        -((bits - SIGN_BIT) as i64)
    }
}

/// Whether `a <= b` on the encoded numbers.
pub fn scalar_le(a: u32, b: u32) -> (r: bool)
    ensures
        r == le(a, b),
{
    !scalar_is_nan(a) && !scalar_is_nan(b) && scalar_key(a) <= scalar_key(b)
}

/// Whether `a < b` on the encoded numbers.
pub fn scalar_lt(a: u32, b: u32) -> (r: bool)
    ensures
        r == lt(a, b),
{
    !scalar_is_nan(a) && !scalar_is_nan(b) && scalar_key(a) < scalar_key(b)
}

/// Whether `a == b` on the encoded numbers.
pub fn scalar_same(a: u32, b: u32) -> (r: bool)
    ensures
        r == same(a, b),
{
    !scalar_is_nan(a) && !scalar_is_nan(b) && scalar_key(a) == scalar_key(b)
}

} // verus!

verus! {

/// The number of leading entries of `d` that `x` is not below: the place
/// where `x` is put into an ascending sequence, after its equals.
pub open spec fn rank(d: Seq<u32>, x: u32) -> nat
    decreases d.len(),
{
    if d.len() == 0 {
        0
    } else if lt(x, d[0]) {
        0
    } else {
        1 + rank(d.drop_first(), x)
    }
}

/// True when no entry encodes no number and the entries ascend.
pub open spec fn ascending(d: Seq<u32>) -> bool {
    &&& forall|i: int| 0 <= i < d.len() ==> !is_nan(#[trigger] d[i])
    &&& forall|i: int, j: int| 0 <= i <= j < d.len() ==> key(d[i]) <= key(d[j])
}

/// `rank` is the first place whose entry `x` is below, or the length.
pub proof fn lemma_rank(d: Seq<u32>, x: u32)
    ensures
        rank(d, x) <= d.len(),
        forall|i: int| 0 <= i < rank(d, x) ==> !lt(x, #[trigger] d[i]),
        rank(d, x) < d.len() ==> lt(x, d[rank(d, x) as int]),
    decreases d.len(),
{
    if d.len() > 0 && !lt(x, d[0]) {
        let rest = d.drop_first();
        lemma_rank(rest, x);
        assert forall|i: int| 0 <= i < rank(d, x) implies !lt(x, #[trigger] d[i]) by {
            if i > 0 {
                assert(d[i] == rest[i - 1]);
            }
        }
        if rank(d, x) < d.len() {
            assert(d[rank(d, x) as int] == rest[rank(rest, x) as int]);
        }
    }
}

/// The rank of `x` in `d` is `i` when `x` is below no entry before `i`
/// and below the entry at `i`, or `i` is the length.
pub proof fn lemma_rank_is(d: Seq<u32>, x: u32, i: int)
    requires
        0 <= i <= d.len(),
        forall|j: int| 0 <= j < i ==> !lt(x, #[trigger] d[j]),
        i < d.len() ==> lt(x, d[i]),
    ensures
        rank(d, x) == i,
    decreases d.len(),
{
    if d.len() > 0 {
        if i == 0 {
        } else {
            assert(!lt(x, d[0]));
            let rest = d.drop_first();
            assert forall|j: int| 0 <= j < i - 1 implies !lt(x, #[trigger] rest[j]) by {
                assert(rest[j] == d[j + 1]);
            }
            lemma_rank_is(rest, x, i - 1);
        }
    }
}

/// Putting a number at its rank keeps an ascending sequence ascending.
pub proof fn lemma_insert_at_rank_ascending(d: Seq<u32>, x: u32)
    requires
        ascending(d),
        !is_nan(x),
    ensures
        ascending(d.insert(rank(d, x) as int, x)),
{
    lemma_rank(d, x);
    let r = rank(d, x) as int;
    let e = d.insert(r, x);
    assert forall|i: int, j: int| 0 <= i <= j < e.len() implies key(e[i]) <= key(e[j]) by {
        if i < r {
            assert(e[i] == d[i]);
            assert(!lt(x, d[i]));
        }
        if j > r {
            assert(e[j] == d[j - 1]);
            assert(key(d[r]) <= key(d[j - 1]));
        }
        if i > r {
            assert(e[i] == d[i - 1]);
        }
        if j < r {
            assert(e[j] == d[j]);
        }
    }
    assert forall|i: int| 0 <= i < e.len() implies !is_nan(#[trigger] e[i]) by {
        if i < r {
            assert(e[i] == d[i]);
        } else if i > r {
            assert(e[i] == d[i - 1]);
        }
    }
}

/// The place where `x` is put into the ascending vector `d`.
pub fn find_rank(d: &Vec<u32>, x: u32) -> (r: usize)
    ensures
        r == rank(d@, x),
        r <= d@.len(),
{
    let mut i: usize = 0;
    while i < d.len()
        invariant
            i <= d@.len(),
            forall|j: int| 0 <= j < i ==> !lt(x, #[trigger] d@[j]),
        ensures
            i <= d@.len(),
            forall|j: int| 0 <= j < i ==> !lt(x, #[trigger] d@[j]),
            i < d@.len() ==> lt(x, d@[i as int]),
        decreases d@.len() - i,
    {
        if scalar_lt(x, d[i]) {
            break ;
        }
        i += 1;
    }
    proof {
        lemma_rank_is(d@, x, i as int);
    }
    i
}

} // verus!
