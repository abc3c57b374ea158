//! Byte-string helpers shared by the HTTP parser and the access checks:
//! ASCII whitespace trimming, splitting at a separator byte, ASCII case
//! folding and comparisons, each with its specification over `Seq<u8>`.

use vstd::prelude::*;

verus! {

/// `\n`
pub const LF: u8 = 10;

/// `\r`
pub const CR: u8 = 13;

/// ` `
pub const SPACE: u8 = 32;

/// `:`
pub const COLON: u8 = 58;

/// ASCII whitespace as `u8::is_ascii_whitespace` defines it:
/// space, tab, line feed, form feed and carriage return.
pub open spec fn is_ascii_ws(b: u8) -> bool {
    b == 0x20u8 || b == 0x09u8 || b == 0x0au8 || b == 0x0cu8 || b == 0x0du8
}

/// `s` without its trailing ASCII whitespace (`<[u8]>::trim_ascii_end`).
pub open spec fn trim_end(s: Seq<u8>) -> Seq<u8>
    decreases s.len(),
{
    if s.len() > 0 && is_ascii_ws(s.last()) {
        trim_end(s.drop_last())
    } else {
        s
    }
}

/// `s` without its leading ASCII whitespace (`<[u8]>::trim_ascii_start`).
pub open spec fn trim_start(s: Seq<u8>) -> Seq<u8>
    decreases s.len(),
{
    if s.len() > 0 && is_ascii_ws(s[0]) {
        trim_start(s.drop_first())
    } else {
        s
    }
}

/// `s` without leading and trailing ASCII whitespace (`<[u8]>::trim_ascii`).
pub open spec fn trim(s: Seq<u8>) -> Seq<u8> {
    trim_start(trim_end(s))
}

/// The position of the first `b` in `s`, or `s.len()` when there is none.
pub open spec fn first_index(s: Seq<u8>, b: u8) -> int
    decreases s.len(),
{
    if s.len() == 0 {
        0
    } else if s[0] == b {
        0
    } else {
        1 + first_index(s.drop_first(), b)
    }
}

/// The pieces of `s` between occurrences of `sep`, as `<[u8]>::split` yields
/// them: always at least one piece, empty pieces included.
pub open spec fn split_on(s: Seq<u8>, sep: u8) -> Seq<Seq<u8>>
    decreases s.len(),
{
    let i = first_index(s, sep);
    if 0 <= i < s.len() {
        seq![s.take(i)] + split_on(s.skip(i + 1), sep)
    } else {
        seq![s]
    }
}

/// `u8::to_ascii_lowercase`.
pub open spec fn ascii_lower(b: u8) -> u8 {
    if 65 <= b <= 90 {
        (b + 32) as u8
    } else {
        b
    }
}

/// `s` with every ASCII capital letter made small.
pub open spec fn lower(s: Seq<u8>) -> Seq<u8> {
    s.map_values(|b: u8| ascii_lower(b))
}

/// `<[u8]>::eq_ignore_ascii_case`.
pub open spec fn eq_ignore_case(a: Seq<u8>, b: Seq<u8>) -> bool {
    lower(a) == lower(b)
}

/// `first_index` is the least position holding `b`.
pub proof fn lemma_first_index(s: Seq<u8>, b: u8)
    ensures
        0 <= first_index(s, b) <= s.len(),
        forall|j: int| 0 <= j < first_index(s, b) ==> s[j] != b,
        first_index(s, b) < s.len() ==> s[first_index(s, b)] == b,
    decreases s.len(),
{
    if s.len() > 0 && s[0] != b {
        lemma_first_index(s.drop_first(), b);
        assert forall|j: int| 0 <= j < first_index(s, b) implies s[j] != b by {
            if j > 0 {
                assert(s[j] == s.drop_first()[j - 1]);
            }
        }
    }
}

/// A position with no `b` before it and `b` at it (or the end) is `first_index`.
pub proof fn lemma_first_index_unique(s: Seq<u8>, b: u8, i: int)
    requires
        0 <= i <= s.len(),
        forall|j: int| 0 <= j < i ==> s[j] != b,
        i < s.len() ==> s[i] == b,
    ensures
        first_index(s, b) == i,
    decreases s.len(),
{
    if s.len() > 0 && s[0] != b {
        assert forall|j: int| 0 <= j < i - 1 implies s.drop_first()[j] != b by {
            assert(s[j + 1] != b);
        }
        lemma_first_index_unique(s.drop_first(), b, i - 1);
    }
}

/// Trimming the end of a line whose last byte is whitespace is trimming it one shorter.
proof fn lemma_trim_end_step(s: Seq<u8>, lo: int, e: int)
    requires
        0 <= lo < e <= s.len(),
        is_ascii_ws(s[e - 1]),
    ensures
        trim_end(s.subrange(lo, e)) == trim_end(s.subrange(lo, e - 1)),
{
    assert(s.subrange(lo, e).drop_last() =~= s.subrange(lo, e - 1));
}

proof fn lemma_trim_start_step(s: Seq<u8>, b: int, hi: int)
    requires
        0 <= b < hi <= s.len(),
        is_ascii_ws(s[b]),
    ensures
        trim_start(s.subrange(b, hi)) == trim_start(s.subrange(b + 1, hi)),
{
    assert(s.subrange(b, hi).drop_first() =~= s.subrange(b + 1, hi));
}

pub fn is_ws(b: u8) -> (r: bool)
    ensures
        r == is_ascii_ws(b),
{
    b == 0x20 || b == 0x09 || b == 0x0a || b == 0x0c || b == 0x0d
}

/// The first position in `lo..hi` holding `b`, or `hi`.
pub fn find_byte(s: &[u8], lo: usize, hi: usize, b: u8) -> (r: usize)
    requires
        lo <= hi <= s@.len(),
    ensures
        lo <= r <= hi,
        r - lo == first_index(s@.subrange(lo as int, hi as int), b),
{
    let mut i = lo;
    while i < hi && s[i] != b
        invariant
            lo <= i <= hi <= s@.len(),
            forall|j: int| lo <= j < i ==> s@[j] != b,
        decreases hi - i,
    {
        i = i + 1;
    }
    proof {
        let t = s@.subrange(lo as int, hi as int);
        lemma_first_index_unique(t, b, i - lo);
    }
    i
}

/// The end of `s[lo..hi]` once its trailing ASCII whitespace is removed.
pub fn trim_end_at(s: &[u8], lo: usize, hi: usize) -> (r: usize)
    requires
        lo <= hi <= s@.len(),
    ensures
        lo <= r <= hi,
        s@.subrange(lo as int, r as int) == trim_end(s@.subrange(lo as int, hi as int)),
{
    let mut e = hi;
    while e > lo && is_ws(s[e - 1])
        invariant
            lo <= e <= hi <= s@.len(),
            trim_end(s@.subrange(lo as int, e as int)) == trim_end(s@.subrange(lo as int, hi as int)),
        decreases e,
    {
        proof {
            lemma_trim_end_step(s@, lo as int, e as int);
        }
        e = e - 1;
    }
    proof {
        let t = s@.subrange(lo as int, e as int);
        if e > lo {
            assert(t.last() == s@[e - 1]);
        }
    }
    e
}

/// The start of `s[lo..hi]` once its leading ASCII whitespace is removed.
pub fn trim_start_at(s: &[u8], lo: usize, hi: usize) -> (r: usize)
    requires
        lo <= hi <= s@.len(),
    ensures
        lo <= r <= hi,
        s@.subrange(r as int, hi as int) == trim_start(s@.subrange(lo as int, hi as int)),
{
    let mut b = lo;
    while b < hi && is_ws(s[b])
        invariant
            lo <= b <= hi <= s@.len(),
            trim_start(s@.subrange(b as int, hi as int)) == trim_start(s@.subrange(lo as int, hi as int)),
        decreases hi - b,
    {
        proof {
            lemma_trim_start_step(s@, b as int, hi as int);
        }
        b = b + 1;
    }
    proof {
        let t = s@.subrange(b as int, hi as int);
        if b < hi {
            assert(t[0] == s@[b as int]);
        }
    }
    b
}

/// `u8::to_ascii_lowercase`.
pub fn to_lower(b: u8) -> (r: u8)
    ensures
        r == ascii_lower(b),
{
    if 65 <= b && b <= 90 {
        b + 32
    } else {
        b
    }
}

/// Byte-wise equality of two slices.
pub fn bytes_eq(a: &[u8], b: &[u8]) -> (r: bool)
    ensures
        r == (a@ == b@),
{
    if a.len() != b.len() {
        return false;
    }
    let mut i: usize = 0;
    while i < a.len()
        invariant
            a@.len() == b@.len(),
            i <= a@.len(),
            forall|j: int| 0 <= j < i ==> a@[j] == b@[j],
        decreases a@.len() - i,
    {
        if a[i] != b[i] {
            return false;
        }
        i = i + 1;
    }
    assert(a@ =~= b@);
    true
}

/// `<[u8]>::eq_ignore_ascii_case`.
pub fn eq_ignore_ascii_case(a: &[u8], b: &[u8]) -> (r: bool)
    ensures
        r == eq_ignore_case(a@, b@),
{
    if a.len() != b.len() {
        proof {
            assert(lower(a@).len() != lower(b@).len());
        }
        return false;
    }
    let mut i: usize = 0;
    while i < a.len()
        invariant
            a@.len() == b@.len(),
            i <= a@.len(),
            forall|j: int| 0 <= j < i ==> ascii_lower(a@[j]) == ascii_lower(b@[j]),
        decreases a@.len() - i,
    {
        if to_lower(a[i]) != to_lower(b[i]) {
            proof {
                assert(lower(a@)[i as int] != lower(b@)[i as int]);
            }
            return false;
        }
        i = i + 1;
    }
    assert(lower(a@) =~= lower(b@));
    true
}

/// Whether `s` begins with `prefix` (`<[u8]>::starts_with`).
pub fn starts_with(s: &[u8], prefix: &[u8]) -> (r: bool)
    ensures
        r == (prefix@.len() <= s@.len() && s@.take(prefix@.len() as int) == prefix@),
{
    if prefix.len() > s.len() {
        return false;
    }
    let mut i: usize = 0;
    while i < prefix.len()
        invariant
            prefix@.len() <= s@.len(),
            i <= prefix@.len(),
            forall|j: int| 0 <= j < i ==> s@[j] == prefix@[j],
        decreases prefix@.len() - i,
    {
        if s[i] != prefix[i] {
            proof {
                assert(s@.take(prefix@.len() as int)[i as int] != prefix@[i as int]);
            }
            return false;
        }
        i = i + 1;
    }
    assert(s@.take(prefix@.len() as int) =~= prefix@);
    true
}

} // verus!
