//! Byte-string helpers for the edge parser: trimming, substring search,
//! suffix test, and equality, each proved against a direct specification
//! over `Seq<u8>`.

use vstd::prelude::*;

verus! {

/// ASCII whitespace: space, tab, line feed, carriage return, form feed.
pub open spec fn is_ws(b: u8) -> bool {
    b == 32 || b == 9 || b == 10 || b == 13 || b == 12
}

pub fn ws_byte(b: u8) -> (r: bool)
    ensures
        r == is_ws(b),
{
    b == 32 || b == 9 || b == 10 || b == 13 || b == 12
}

/// The sequence with leading whitespace removed.
pub open spec fn trim_start_spec(s: Seq<u8>) -> Seq<u8>
    decreases s.len(),
{
    if s.len() > 0 && is_ws(s[0]) {
        trim_start_spec(s.drop_first())
    } else {
        s
    }
}

/// The sequence with trailing whitespace removed.
pub open spec fn trim_end_spec(s: Seq<u8>) -> Seq<u8>
    decreases s.len(),
{
    if s.len() > 0 && is_ws(s.last()) {
        trim_end_spec(s.drop_last())
    } else {
        s
    }
}

/// The sequence with both leading and trailing whitespace removed.
pub open spec fn trim_spec(s: Seq<u8>) -> Seq<u8> {
    trim_end_spec(trim_start_spec(s))
}

/// Copies `s[lo..hi]` into a fresh vector.
pub fn copy_range(s: &Vec<u8>, lo: usize, hi: usize) -> (r: Vec<u8>)
    requires
        lo <= hi <= s@.len(),
    ensures
        r@ == s@.subrange(lo as int, hi as int),
{
    let mut r: Vec<u8> = Vec::new();
    let mut k: usize = lo;
    while k < hi
        invariant
            lo <= k <= hi <= s@.len(),
            r@ == s@.subrange(lo as int, k as int),
        decreases hi - k,
    {
        r.push(s[k]);
        k = k + 1;
        proof {
            assert(r@ =~= s@.subrange(lo as int, k as int));
        }
    }
    r
}

/// Removes leading and trailing whitespace.
pub fn trim(s: &Vec<u8>) -> (r: Vec<u8>)
    ensures
        r@ == trim_spec(s@),
{
    proof {
        assert(s@.subrange(0, s@.len() as int) =~= s@);
    }
    let mut lo: usize = 0;
    while lo < s.len() && ws_byte(s[lo])
        invariant
            lo <= s@.len(),
            trim_start_spec(s@) == trim_start_spec(s@.subrange(lo as int, s@.len() as int)),
        decreases s@.len() - lo,
    {
        proof {
            assert(s@.subrange(lo as int, s@.len() as int).drop_first() =~= s@.subrange(
                lo as int + 1,
                s@.len() as int,
            ));
        }
        lo = lo + 1;
    }
    proof {
        assert(trim_start_spec(s@) == s@.subrange(lo as int, s@.len() as int));
    }
    let mut hi: usize = s.len();
    while hi > lo && ws_byte(s[hi - 1])
        invariant
            lo <= hi <= s@.len(),
            trim_start_spec(s@) == s@.subrange(lo as int, s@.len() as int),
            trim_end_spec(s@.subrange(lo as int, s@.len() as int)) == trim_end_spec(
                s@.subrange(lo as int, hi as int),
            ),
        decreases hi,
    {
        proof {
            assert(s@.subrange(lo as int, hi as int).drop_last() =~= s@.subrange(
                lo as int,
                hi as int - 1,
            ));
        }
        hi = hi - 1;
    }
    proof {
        assert(trim_end_spec(s@.subrange(lo as int, hi as int)) == s@.subrange(
            lo as int,
            hi as int,
        ));
    }
    copy_range(s, lo, hi)
}

/// `sub` occurs in `s` starting at position `i`.
pub open spec fn matches_at(s: Seq<u8>, sub: Seq<u8>, i: int) -> bool {
    0 <= i && i + sub.len() <= s.len() && s.subrange(i, i + sub.len()) == sub
}

/// `sub` occurs somewhere in `s`.
pub open spec fn contains_seq(s: Seq<u8>, sub: Seq<u8>) -> bool {
    exists|i: int| matches_at(s, sub, i)
}

fn match_at(s: &Vec<u8>, sub: &Vec<u8>, i: usize) -> (r: bool)
    requires
        i <= s@.len(),
        sub@.len() <= s@.len() - i,
    ensures
        r == matches_at(s@, sub@, i as int),
{
    let _n = s.len();
    proof {
        assert(s@.len() <= usize::MAX);
    }
    let mut j: usize = 0;
    while j < sub.len()
        invariant
            j <= sub@.len(),
            i + sub@.len() <= s@.len(),
            s@.len() <= usize::MAX,
            forall|k: int| 0 <= k < j ==> s@[i + k] == sub@[k],
        decreases sub@.len() - j,
    {
        if s[i + j] != sub[j] {
            proof {
                assert(s@.subrange(i as int, i + sub@.len())[j as int] == s@[i + j]);
            }
            return false;
        }
        j = j + 1;
    }
    proof {
        assert(s@.subrange(i as int, i + sub@.len()) =~= sub@);
    }
    true
}

/// Substring test, proved against `contains_seq`.
pub fn contains_sub(s: &Vec<u8>, sub: &Vec<u8>) -> (r: bool)
    ensures
        r == contains_seq(s@, sub@),
{
    if sub.len() > s.len() {
        proof {
            assert(forall|i: int| !matches_at(s@, sub@, i));
        }
        return false;
    }
    if sub.len() == 0 {
        proof {
            assert(s@.subrange(0, 0) =~= sub@);
            assert(matches_at(s@, sub@, 0));
        }
        return true;
    }
    let _n = s.len();
    proof {
        assert(s@.len() <= usize::MAX);
    }
    let mut i: usize = 0;
    while i <= s.len() - sub.len()
        invariant
            1 <= sub@.len() <= s@.len(),
            s@.len() <= usize::MAX,
            i <= s@.len() - sub@.len() + 1,
            forall|k: int| 0 <= k < i ==> !matches_at(s@, sub@, k),
        decreases s@.len() - sub@.len() + 1 - i,
    {
        if match_at(s, sub, i) {
            return true;
        }
        i = i + 1;
    }
    proof {
        assert(forall|k: int| !matches_at(s@, sub@, k));
    }
    false
}

/// `s` ends with `suf`.
pub open spec fn ends_with_seq(s: Seq<u8>, suf: Seq<u8>) -> bool {
    s.len() >= suf.len() && s.subrange(s.len() - suf.len(), s.len() as int) == suf
}

/// Suffix test, proved against `ends_with_seq`.
pub fn ends_with(s: &Vec<u8>, suf: &Vec<u8>) -> (r: bool)
    ensures
        r == ends_with_seq(s@, suf@),
{
    if suf.len() > s.len() {
        false
    } else {
        match_at(s, suf, s.len() - suf.len())
    }
}

/// Byte-for-byte equality of two vectors.
pub fn bytes_eq(a: &Vec<u8>, b: &Vec<u8>) -> (r: bool)
    ensures
        r == (a@ == b@),
{
    if a.len() != b.len() {
        return false;
    }
    let mut i: usize = 0;
    while i < a.len()
        invariant
            a@.len() == b@.len(),
            i <= a@.len(),
            forall|k: int| 0 <= k < i ==> a@[k] == b@[k],
        decreases a@.len() - i,
    {
        if a[i] != b[i] {
            return false;
        }
        i = i + 1;
    }
    proof {
        assert(a@ =~= b@);
    }
    true
}

} // verus!
