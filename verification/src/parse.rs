//! Edge parser: turns one raw edge line into a normalized (source, target)
//! name pair, applying the optional include-filter and the archive-suffix
//! exclusion rule.

use vstd::prelude::*;
use crate::bytes::{
    contains_seq, contains_sub, copy_range, ends_with, ends_with_seq, is_ws, trim, trim_spec,
};

verus! {

/// Why a line is rejected: it has no `->` separator, or its target name is
/// empty after trimming.
#[derive(Debug, Clone, Copy, PartialEq, Eq, Structural)]
pub enum ParseError {
    MissingArrow,
    EmptyTarget,
}

/// The two-byte separator `->` starts at position `i` of `s`.
pub open spec fn arrow_at(s: Seq<u8>, i: int) -> bool {
    0 <= i && i + 1 < s.len() && s[i] == 45 && s[i + 1] == 62
}

/// `s` holds a `->` separator somewhere.
pub open spec fn has_arrow(s: Seq<u8>) -> bool {
    exists|i: int| arrow_at(s, i)
}

/// Position of the leftmost `->` separator in `s`.
pub open spec fn first_arrow(s: Seq<u8>) -> int {
    choose|i: int| arrow_at(s, i) && (forall|k: int| 0 <= k < i ==> !arrow_at(s, k))
}

pub proof fn lemma_first_arrow(s: Seq<u8>, i: int)
    requires
        arrow_at(s, i),
        forall|k: int| 0 <= k < i ==> !arrow_at(s, k),
    ensures
        has_arrow(s),
        first_arrow(s) == i,
{
    let j = first_arrow(s);
    assert(arrow_at(s, j) && (forall|k: int| 0 <= k < j ==> !arrow_at(s, k))) by {
        assert(arrow_at(s, i) && (forall|k: int| 0 <= k < i ==> !arrow_at(s, k)));
    }
    if j < i {
        assert(!arrow_at(s, j));
    }
    if i < j {
        assert(!arrow_at(s, i));
    }
}

/// Finds the leftmost `->` separator, if any.
pub fn find_arrow(s: &Vec<u8>) -> (r: Option<usize>)
    ensures
        match r {
            Some(i) => has_arrow(s@) && i == first_arrow(s@) && arrow_at(s@, i as int),
            None => !has_arrow(s@),
        },
{
    let n = s.len();
    if n < 2 {
        proof {
            assert(forall|i: int| !arrow_at(s@, i));
        }
        return None;
    }
    let mut i: usize = 0;
    while i < n - 1
        invariant
            2 <= n <= usize::MAX,
            n == s@.len(),
            i <= n - 1,
            forall|k: int| 0 <= k < i ==> !arrow_at(s@, k),
        decreases n - i,
    {
        if s[i] == 45 && s[i + 1] == 62 {
            proof {
                lemma_first_arrow(s@, i as int);
            }
            return Some(i);
        }
        i = i + 1;
    }
    proof {
        assert(forall|k: int| !arrow_at(s@, k));
    }
    None
}

/// There is a whitespace byte at position `i` of `s`.
pub open spec fn ws_at(s: Seq<u8>, i: int) -> bool {
    0 <= i < s.len() && is_ws(s[i])
}

/// Position of the leftmost whitespace byte of `s`.
pub open spec fn first_ws(s: Seq<u8>) -> int {
    choose|i: int| ws_at(s, i) && (forall|k: int| 0 <= k < i ==> !ws_at(s, k))
}

/// The prefix of `s` up to (excluding) its first whitespace byte; all of `s`
/// when it has none.
pub open spec fn prefix_to_ws(s: Seq<u8>) -> Seq<u8> {
    if exists|i: int| ws_at(s, i) {
        s.subrange(0, first_ws(s))
    } else {
        s
    }
}

pub proof fn lemma_first_ws(s: Seq<u8>, i: int)
    requires
        ws_at(s, i),
        forall|k: int| 0 <= k < i ==> !ws_at(s, k),
    ensures
        exists|k: int| ws_at(s, k),
        first_ws(s) == i,
{
    let j = first_ws(s);
    assert(ws_at(s, j) && (forall|k: int| 0 <= k < j ==> !ws_at(s, k))) by {
        assert(ws_at(s, i) && (forall|k: int| 0 <= k < i ==> !ws_at(s, k)));
    }
    if j < i {
        assert(!ws_at(s, j));
    }
    if i < j {
        assert(!ws_at(s, i));
    }
}

/// Copies the prefix of `s` up to its first whitespace byte.
pub fn cut_at_ws(s: &Vec<u8>) -> (r: Vec<u8>)
    ensures
        r@ == prefix_to_ws(s@),
{
    let n = s.len();
    let mut i: usize = 0;
    while i < n
        invariant
            n == s@.len(),
            i <= n,
            forall|k: int| 0 <= k < i ==> !ws_at(s@, k),
        decreases n - i,
    {
        if crate::bytes::ws_byte(s[i]) {
            proof {
                lemma_first_ws(s@, i as int);
            }
            return copy_range(s, 0, i);
        }
        i = i + 1;
    }
    proof {
        assert(forall|k: int| !ws_at(s@, k));
        assert(s@.subrange(0, s@.len() as int) =~= s@);
    }
    copy_range(s, 0, n)
}

/// The bytes of the reserved archive suffix `.jar`.
pub open spec fn jar_suffix() -> Seq<u8> {
    seq![46u8, 106u8, 97u8, 114u8]
}

/// Builds the archive suffix `.jar` as a vector.
pub fn jar_suffix_vec() -> (r: Vec<u8>)
    ensures
        r@ == jar_suffix(),
{
    let mut r: Vec<u8> = Vec::new();
    r.push(46);
    r.push(106);
    r.push(97);
    r.push(114);
    proof {
        assert(r@ =~= jar_suffix());
    }
    r
}

/// The source name of a trimmed line: everything before the first `->`
/// (the whole line when there is none), trimmed.
pub open spec fn source_of(t: Seq<u8>) -> Seq<u8> {
    if has_arrow(t) {
        trim_spec(t.subrange(0, first_arrow(t)))
    } else {
        trim_spec(t)
    }
}

/// The raw target segment of a trimmed line holding an arrow: everything
/// between the first `->` and the next one (or the end of the line).
pub open spec fn target_seg(t: Seq<u8>) -> Seq<u8>
    recommends
        has_arrow(t),
{
    let rest = t.subrange(first_arrow(t) + 2, t.len() as int);
    if has_arrow(rest) {
        rest.subrange(0, first_arrow(rest))
    } else {
        rest
    }
}

/// The target name of a trimmed line: its target segment, trimmed, cut at
/// the first whitespace byte (anything after is a discarded annotation).
pub open spec fn target_of(t: Seq<u8>) -> Seq<u8>
    recommends
        has_arrow(t),
{
    prefix_to_ws(trim_spec(target_seg(t)))
}

/// A name passes the optional include-filter when the filter is absent or
/// occurs in the name as a substring.
pub open spec fn passes_filter(name: Seq<u8>, f: Option<Seq<u8>>) -> bool {
    match f {
        None => true,
        Some(ff) => contains_seq(name, ff),
    }
}

/// The view of an optional filter.
pub open spec fn filter_view(f: Option<Vec<u8>>) -> Option<Seq<u8>> {
    match f {
        None => None,
        Some(v) => Some(v@),
    }
}

/// What parsing one raw line must produce: `Ok(None)` when the line is
/// skipped (filter miss on either name, or archive source), `Err` when it is
/// malformed (no `->`, or empty target), and `Ok(Some((source, target)))`
/// otherwise.
#[verifier::opaque]
pub open spec fn line_edge(line: Seq<u8>, f: Option<Seq<u8>>) -> Result<
    Option<(Seq<u8>, Seq<u8>)>,
    ParseError,
> {
    let t = trim_spec(line);
    let src = source_of(t);
    if !passes_filter(src, f) {
        Ok(None)
    } else if ends_with_seq(src, jar_suffix()) {
        Ok(None)
    } else if !has_arrow(t) {
        Err(ParseError::MissingArrow)
    } else if target_of(t).len() == 0 {
        Err(ParseError::EmptyTarget)
    } else if !passes_filter(target_of(t), f) {
        Ok(None)
    } else {
        Ok(Some((src, target_of(t))))
    }
}

/// Extracts and trims the source name of a trimmed line.
#[verifier::rlimit(100)]
#[verifier::spinoff_prover]
fn parse_source(t: &Vec<u8>) -> (src: Vec<u8>)
    ensures
        src@ == source_of(t@),
{
    let src_raw: Vec<u8> = match find_arrow(t) {
        Some(i) => copy_range(t, 0, i),
        None => {
            proof {
                assert(t@.subrange(0, t@.len() as int) =~= t@);
            }
            copy_range(t, 0, t.len())
        },
    };
    trim(&src_raw)
}

/// Extracts the target name of a trimmed line holding an arrow.
#[verifier::rlimit(100)]
#[verifier::spinoff_prover]
fn parse_target(t: &Vec<u8>, i: usize) -> (tgt: Vec<u8>)
    requires
        has_arrow(t@),
        i == first_arrow(t@),
        arrow_at(t@, i as int),
    ensures
        tgt@ == target_of(t@),
{
    let n = t.len();
    proof {
        assert(i + 2 <= n);
    }
    let rest = copy_range(t, i + 2, n);
    let seg = match find_arrow(&rest) {
        Some(j) => copy_range(&rest, 0, j),
        None => {
            proof {
                assert(rest@.subrange(0, rest@.len() as int) =~= rest@);
            }
            copy_range(&rest, 0, rest.len())
        },
    };
    proof {
        assert(seg@ == target_seg(t@));
    }
    let seg_t = trim(&seg);
    cut_at_ws(&seg_t)
}

/// Parses one raw edge line, exactly as `line_edge` describes.
#[verifier::rlimit(100)]
#[verifier::spinoff_prover]
pub fn parse_line(line: &Vec<u8>, filter: &Option<Vec<u8>>) -> (r: Result<
    Option<(Vec<u8>, Vec<u8>)>,
    ParseError,
>)
    ensures
        ({
            let sp = line_edge(line@, filter_view(*filter));
            match r {
                Ok(None) => sp == Ok::<Option<(Seq<u8>, Seq<u8>)>, ParseError>(None),
                Ok(Some(p)) => sp == Ok::<Option<(Seq<u8>, Seq<u8>)>, ParseError>(
                    Some((p.0@, p.1@)),
                ),
                Err(e) => sp == Err::<Option<(Seq<u8>, Seq<u8>)>, ParseError>(e),
            }
        }),
{
    proof {
        reveal(line_edge);
    }
    let t = trim(line);
    let src = parse_source(&t);
    match filter {
        Some(f) => {
            if !contains_sub(&src, f) {
                return Ok(None);
            }
        },
        None => {},
    }
    let jar = jar_suffix_vec();
    if ends_with(&src, &jar) {
        return Ok(None);
    }
    let i = match find_arrow(&t) {
        None => {
            return Err(ParseError::MissingArrow);
        },
        Some(i) => i,
    };
    let tgt = parse_target(&t, i);
    if tgt.len() == 0 {
        return Err(ParseError::EmptyTarget);
    }
    match filter {
        Some(f) => {
            if !contains_sub(&tgt, f) {
                return Ok(None);
            }
        },
        None => {},
    }
    Ok(Some((src, tgt)))
}

} // verus!
