//! The paths of the query service: `/nn/{k}/{smiles}` asks for the `k`
//! nearest neighbours of a compound, `/test` for those of a random
//! descriptor.

use vstd::prelude::*;
use crate::ingest::{parts_of, split_on, texts};

verus! {

/// What a path asks for.
#[derive(Debug, PartialEq, Eq)]
pub enum Request {
    /// The `count` nearest neighbours of the compound with these SMILES
    /// bytes.
    Nearest { count: usize, smiles: Vec<u8> },
    /// Neighbours were asked for, but the path names no compound.
    NoSmiles,
    /// Neighbours were asked for, but their number cannot be read.
    BadCount,
    /// The neighbours of a random descriptor.
    Test,
    /// Anything else.
    Unknown,
}

/// What a `Request` holds.
pub enum RequestView {
    Nearest { count: usize, smiles: Seq<u8> },
    NoSmiles,
    BadCount,
    Test,
    Unknown,
}

impl View for Request {
    type V = RequestView;

    open spec fn view(&self) -> RequestView {
        match self {
            Request::Nearest { count, smiles } => RequestView::Nearest {
                count: *count,
                smiles: smiles@,
            },
            Request::NoSmiles => RequestView::NoSmiles,
            Request::BadCount => RequestView::BadCount,
            Request::Test => RequestView::Test,
            Request::Unknown => RequestView::Unknown,
        }
    }
}

/// Every byte is a decimal digit.
pub open spec fn all_digits(s: Seq<u8>) -> bool {
    forall|i: int| 0 <= i < s.len() ==> 48 <= #[trigger] s[i] <= 57
}

/// The number that decimal digits spell.
pub open spec fn decimal_value(s: Seq<u8>) -> nat
    decreases s.len(),
{
    if s.len() == 0 {
        0
    } else {
        decimal_value(s.drop_last()) * 10 + (s.last() - 48) as nat
    }
}

/// The digits of a number text: the text without a plus sign at its
/// start.
pub open spec fn unsigned(s: Seq<u8>) -> Seq<u8> {
    if s.len() > 0 && s[0] == 43 {
        s.drop_first()
    } else {
        s
    }
}

/// The text spells a `usize`: digits, at least one, after at most one
/// plus sign, with a value that fits.
pub open spec fn spells_count(s: Seq<u8>) -> bool {
    unsigned(s).len() > 0 && all_digits(unsigned(s)) && decimal_value(unsigned(s)) <= usize::MAX
}

/// A longer run of digits spells no smaller number.
pub proof fn lemma_decimal_grows(s: Seq<u8>, n: int)
    requires
        0 <= n <= s.len(),
        all_digits(s),
    ensures
        decimal_value(s.subrange(0, n)) <= decimal_value(s),
    decreases s.len() - n,
{
    if n < s.len() {
        let next = s.subrange(0, n + 1);
        assert(next.drop_last() =~= s.subrange(0, n));
        assert(next.last() == s[n]);
        lemma_decimal_grows(s, n + 1);
    } else {
        assert(s.subrange(0, n) =~= s);
    }
}

/// The number that a text spells, or `None` when it spells none.
pub fn parse_count(text: &[u8]) -> (r: Option<usize>)
    ensures
        r.is_some() <==> spells_count(text@),
        r.is_some() ==> r.unwrap() == decimal_value(unsigned(text@)),
{
    let total: usize = text.len();
    let start: usize = if total > 0 && text[0] == 43 { 1 } else { 0 };
    let ghost digits = unsigned(text@);
    proof {
        assert(digits =~= text@.subrange(start as int, total as int));
    }
    if start == total {
        return None;
    }
    let mut value: usize = 0;
    let mut i: usize = start;
    proof {
        assert(digits.subrange(0, 0) =~= Seq::<u8>::empty());
    }
    while i < total
        invariant
            start <= i <= total,
            total == text@.len(),
            digits == unsigned(text@),
            digits == text@.subrange(start as int, total as int),
            all_digits(digits.subrange(0, i - start)),
            value == decimal_value(digits.subrange(0, i - start)),
        decreases total - i,
    {
        let c: u8 = text[i];
        let ghost upto = digits.subrange(0, i - start);
        let ghost next = digits.subrange(0, i - start + 1);
        proof {
            assert(next.drop_last() =~= upto);
            assert(next.last() == c);
        }
        if c < 48 || c > 57 {
            proof {
                assert(digits[i - start] == c);
                assert(!all_digits(digits));
            }
            return None;
        }
        let digit: usize = (c - 48) as usize;
        if value > (usize::MAX - digit) / 10 {
            proof {
                assert(decimal_value(next) == value * 10 + digit);
                assert(value * 10 + digit > usize::MAX);
                if all_digits(digits) {
                    lemma_decimal_grows(digits, i - start + 1);
                }
            }
            return None;
        }
        value = value * 10 + digit;
        proof {
            assert forall|j: int| 0 <= j < next.len() implies 48 <= #[trigger] next[j] <= 57 by {
                if j < upto.len() {
                    assert(next[j] == upto[j]);
                }
            }
        }
        i += 1;
    }
    proof {
        assert(digits.subrange(0, total - start) =~= digits);
    }
    Some(value)
}

/// What the parts of a path ask for.
pub open spec fn asked(parts: Seq<Seq<u8>>) -> RequestView {
    if parts.len() < 2 {
        RequestView::Unknown
    } else if parts[1] == seq![110u8, 110u8] {
        if parts.len() < 3 || !spells_count(parts[2]) {
            RequestView::BadCount
        } else if parts.len() < 4 || parts[3].len() == 0 {
            RequestView::NoSmiles
        } else {
            RequestView::Nearest { count: decimal_value(unsigned(parts[2])) as usize, smiles: parts[3] }
        }
    } else if parts[1] == seq![116u8, 101u8, 115u8, 116u8] {
        RequestView::Test
    } else {
        RequestView::Unknown
    }
}

/// Whether `text` is the word `word`.
fn is_word(text: &Vec<u8>, word: &[u8]) -> (r: bool)
    ensures
        r == (text@ == word@),
{
    if text.len() != word.len() {
        return false;
    }
    let mut i: usize = 0;
    while i < word.len()
        invariant
            i <= word@.len(),
            text@.len() == word@.len(),
            forall|j: int| 0 <= j < i ==> text@[j] == word@[j],
        decreases word@.len() - i,
    {
        if text[i] != word[i] {
            return false;
        }
        i += 1;
    }
    proof {
        assert(text@ =~= word@);
    }
    true
}

/// What a path asks for: the parts of the path are what stands between
/// its slashes, the part after the first slash names the method, and for
/// `nn` the next two parts are the number of neighbours and the SMILES
/// text.
pub fn parse_path(path: &[u8]) -> (r: Request)
    ensures
        r@ == asked(parts_of(path@, 47)),
{
    let parts = split_on(path, 47);
    let ghost all = parts_of(path@, 47);
    proof {
        assert(texts(parts@) == all);
        assert(parts@.len() == all.len());
    }
    if parts.len() < 2 {
        return Request::Unknown;
    }
    proof {
        assert(texts(parts@)[1] == parts@[1]@);
    }
    let nn: [u8; 2] = [110, 110];
    let test: [u8; 4] = [116, 101, 115, 116];
    proof {
        assert(nn@ =~= seq![110u8, 110u8]);
        assert(test@ =~= seq![116u8, 101u8, 115u8, 116u8]);
    }
    if is_word(&parts[1], nn.as_slice()) {
        if parts.len() < 3 {
            return Request::BadCount;
        }
        proof {
            assert(texts(parts@)[2] == parts@[2]@);
        }
        let count = match parse_count(parts[2].as_slice()) {
            Some(count) => count,
            None => {
                return Request::BadCount;
            },
        };
        if parts.len() < 4 {
            return Request::NoSmiles;
        }
        proof {
            assert(texts(parts@)[3] == parts@[3]@);
        }
        if parts[3].len() == 0 {
            return Request::NoSmiles;
        }
        let smiles: Vec<u8> = parts[3].clone();
        proof {
            assert(smiles@ =~= parts@[3]@);
        }
        Request::Nearest { count, smiles }
    } else if is_word(&parts[1], test.as_slice()) {
        Request::Test
    } else {
        Request::Unknown
    }
}

} // verus!
