//! Finding a byte pattern: forward (the first occurrence) and backward from an offset.

use vstd::prelude::*;

verus! {

/// `pat` occurs in `d` at `i`.
pub open spec fn matches_at(d: Seq<u8>, pat: Seq<u8>, i: int) -> bool {
    0 <= i && i + pat.len() <= d.len() && d.subrange(i, i + pat.len()) == pat
}

/// `r` is where `memmem::find` puts the first occurrence of `pat` in `d`.
pub open spec fn is_first_match(d: Seq<u8>, pat: Seq<u8>, r: Option<usize>) -> bool {
    match r {
        Some(i) => matches_at(d, pat, i as int) && forall|j: int|
            0 <= j < i ==> !#[trigger] matches_at(d, pat, j),
        None => forall|j: int| !#[trigger] matches_at(d, pat, j),
    }
}

/// There is one first occurrence (or none).
pub proof fn lemma_first_match_unique(d: Seq<u8>, pat: Seq<u8>, r1: Option<usize>, r2: Option<usize>)
    requires
        is_first_match(d, pat, r1),
        is_first_match(d, pat, r2),
    ensures
        r1 == r2,
{
    match (r1, r2) {
        (Some(i), Some(j)) => {
            if i < j {
                assert(!matches_at(d, pat, i as int));
            } else if j < i {
                assert(!matches_at(d, pat, j as int));
            }
        },
        (Some(i), None) => {
            assert(!matches_at(d, pat, i as int));
        },
        (None, Some(j)) => {
            assert(!matches_at(d, pat, j as int));
        },
        (None, None) => {},
    }
}

/// Calls `memchr::memmem::find`, which the crate documents as returning the
/// index of the first occurrence of the needle in the haystack, or `None`.
#[verifier::external_body]
pub(crate) fn find(haystack: &[u8], needle: &[u8]) -> (r: Option<usize>)
    ensures
        is_first_match(haystack@, needle@, r),
{
    memchr::memmem::find(haystack, needle)
}

/// The first occurrence of `pat` in `d`, if any.
pub open spec fn first_match(d: Seq<u8>, pat: Seq<u8>) -> Option<usize> {
    choose|r: Option<usize>| is_first_match(d, pat, r)
}

/// A result that is the first occurrence is `first_match`.
pub proof fn lemma_first_match(d: Seq<u8>, pat: Seq<u8>, r: Option<usize>)
    requires
        is_first_match(d, pat, r),
    ensures
        first_match(d, pat) == r,
{
    assert(exists|x: Option<usize>| is_first_match(d, pat, x));
    lemma_first_match_unique(d, pat, r, first_match(d, pat));
}

/// The first occurrence of `pat` in `d` at or after `i`, searching forward.
pub open spec fn first_from(d: Seq<u8>, pat: Seq<u8>, i: int) -> Option<usize>
    decreases d.len() + 1 - i,
{
    if i < 0 || i > d.len() {
        None
    } else if matches_at(d, pat, i) {
        Some(i as usize)
    } else {
        first_from(d, pat, i + 1)
    }
}

proof fn lemma_first_from(d: Seq<u8>, pat: Seq<u8>, i: int)
    requires
        0 <= i,
        d.len() <= usize::MAX,
    ensures
        match first_from(d, pat, i) {
            Some(k) => i <= k && matches_at(d, pat, k as int) && forall|j: int|
                i <= j < k ==> !#[trigger] matches_at(d, pat, j),
            None => forall|j: int| i <= j ==> !#[trigger] matches_at(d, pat, j),
        },
    decreases d.len() + 1 - i,
{
    if i <= d.len() && !matches_at(d, pat, i) {
        lemma_first_from(d, pat, i + 1);
    }
}

/// Every byte string has a first occurrence of `pat`, or none: `first_match`
/// is the first occurrence.
pub proof fn lemma_first_match_is_first(d: Seq<u8>, pat: Seq<u8>)
    requires
        d.len() <= usize::MAX,
    ensures
        is_first_match(d, pat, first_match(d, pat)),
{
    lemma_first_from(d, pat, 0);
    let r = first_from(d, pat, 0);
    assert(is_first_match(d, pat, r));
}

/// Finds the first occurrence of `pat` in `d`.
pub fn locate(d: &[u8], pat: &[u8]) -> (r: Option<usize>)
    ensures
        r == first_match(d@, pat@),
        is_first_match(d@, pat@, r),
{
    let r = find(d, pat);
    proof {
        lemma_first_match(d@, pat@, r);
    }
    r
}

/// Whether `d[i..i + pat.len()]` equals `pat`.
pub fn matches_at_exec(d: &[u8], pat: &[u8], i: usize) -> (r: bool)
    ensures
        r == matches_at(d@, pat@, i as int),
{
    if i > d.len() || pat.len() > d.len() - i {
        return false;
    }
    let n = d.len();
    let mut k: usize = 0;
    while k < pat.len()
        invariant
            n == d@.len(),
            i + pat@.len() <= d@.len(),
            k <= pat@.len(),
            forall|j: int| 0 <= j < k ==> d@[i + j] == pat@[j],
        decreases pat@.len() - k,
    {
        if d[i + k] != pat[k] {
            assert(d@.subrange(i as int, i + pat@.len())[k as int] != pat@[k as int]);
            return false;
        }
        k = k + 1;
    }
    assert(d@.subrange(i as int, i + pat@.len()) =~= pat@);
    true
}

/// The positions a backward scan from `offset` looks at: it starts at
/// `offset - plen` and goes down while the distance from `offset` does not
/// exceed `lim`, never reaching 0.
pub open spec fn scanned(offset: int, plen: int, lim: int, p: int) -> bool {
    1 <= p <= offset - plen && (p == offset - plen || p >= offset - lim - 1)
}

/// The result of scanning backward from `offset` for `pat`: the highest
/// scanned position where it occurs, or `usize::MAX`.
pub open spec fn is_backward_match(
    d: Seq<u8>,
    pat: Seq<u8>,
    offset: int,
    lim: int,
    r: usize,
) -> bool {
    ||| (r == usize::MAX && forall|p: int|
        scanned(offset, pat.len() as int, lim, p) ==> !#[trigger] matches_at(d, pat, p))
    ||| {
        &&& scanned(offset, pat.len() as int, lim, r as int)
        &&& matches_at(d, pat, r as int)
        &&& forall|p: int|
            r < p && scanned(offset, pat.len() as int, lim, p) ==> !#[trigger] matches_at(d, pat, p)
    }
}

/// There is one result of a backward scan.
pub proof fn lemma_backward_match_unique(d: Seq<u8>, pat: Seq<u8>, offset: int, lim: int, r1: usize, r2: usize)
    requires
        is_backward_match(d, pat, offset, lim, r1),
        is_backward_match(d, pat, offset, lim, r2),
    ensures
        r1 == r2,
{
    if r1 != usize::MAX && r2 != usize::MAX {
        if r1 < r2 {
            assert(matches_at(d, pat, r2 as int));
        } else if r2 < r1 {
            assert(matches_at(d, pat, r1 as int));
        }
    } else if r1 != usize::MAX {
        assert(matches_at(d, pat, r1 as int));
    } else if r2 != usize::MAX {
        assert(matches_at(d, pat, r2 as int));
    }
}

/// The result of a backward scan for `pat` from `offset` within `lim`.
pub open spec fn backward_match(d: Seq<u8>, pat: Seq<u8>, offset: int, lim: int) -> usize {
    choose|r: usize| is_backward_match(d, pat, offset, lim, r)
}

/// A result of a backward scan is `backward_match`.
pub proof fn lemma_backward_match(d: Seq<u8>, pat: Seq<u8>, offset: int, lim: int, r: usize)
    requires
        is_backward_match(d, pat, offset, lim, r),
    ensures
        backward_match(d, pat, offset, lim) == r,
{
    assert(exists|x: usize| is_backward_match(d, pat, offset, lim, x));
    lemma_backward_match_unique(d, pat, offset, lim, r, backward_match(d, pat, offset, lim));
}

/// Scans backward from `offset - pat.len()` for `pat`, stopping once the
/// distance from `offset` exceeds `lim`.
pub fn backward_scan(data: &[u8], pat: &[u8], offset: usize, lim: usize) -> (r: usize)
    requires
        offset >= pat@.len(),
    ensures
        is_backward_match(data@, pat@, offset as int, lim as int, r),
{
    let mut pos = offset - pat.len();
    while pos > 0
        invariant
            offset >= pat@.len(),
            pos <= offset - pat@.len(),
            pos < offset - pat@.len() ==> pos >= offset - lim as int - 1,
            forall|p: int|
                pos < p && scanned(offset as int, pat@.len() as int, lim as int, p)
                    ==> !#[trigger] matches_at(data@, pat@, p),
        decreases pos,
    {
        if pos + pat.len() <= data.len() && matches_at_exec(data, pat, pos) {
            return pos;
        }
        if offset - pos > lim {
            return usize::MAX;
        }
        pos = pos - 1;
    }
    usize::MAX
}

/// Where the bytes that a backward scan from `offset` within `lim` looks
/// at begin: one below the lowest position it may look at (or 0).
pub open spec fn window_start(offset: int, plen: int, lim: int) -> int {
    let a = offset - lim - 2;
    let b = offset - plen - 1;
    let m = if a < b { a } else { b };
    if m > 0 { m } else { 0 }
}

/// `x`, or `n` if `x` is larger.
pub open spec fn clip(x: int, n: int) -> int {
    if x < n { x } else { n }
}

/// A backward scan over the stretch of `d` from `window_start` to `offset`
/// finds what the scan over all of `d` finds, shifted by where the stretch
/// begins.
pub proof fn lemma_backward_window(d: Seq<u8>, pat: Seq<u8>, offset: int, lim: int, r: usize)
    requires
        offset >= pat.len() > 0,
        offset <= usize::MAX,
        lim >= 0,
        is_backward_match(
            d.subrange(
                clip(window_start(offset, pat.len() as int, lim), d.len() as int),
                clip(offset, d.len() as int),
            ),
            pat,
            offset - window_start(offset, pat.len() as int, lim),
            lim,
            r,
        ),
    ensures
        r == usize::MAX || r + window_start(offset, pat.len() as int, lim) <= usize::MAX,
        is_backward_match(
            d,
            pat,
            offset,
            lim,
            if r == usize::MAX { usize::MAX } else { (r + window_start(offset, pat.len() as int, lim)) as usize },
        ),
{
    let plen = pat.len() as int;
    let ws = window_start(offset, plen, lim);
    let lo = clip(ws, d.len() as int);
    let hi = clip(offset, d.len() as int);
    let w = d.subrange(lo, hi);
    let roff = offset - ws;
    assert forall|p: int| scanned(offset, plen, lim, p) implies p >= ws + 1 && scanned(roff, plen, lim, p - ws) by {}
    assert forall|q: int| scanned(roff, plen, lim, q) implies scanned(offset, plen, lim, q + ws) by {}
    assert forall|p: int| scanned(offset, plen, lim, p) implies (matches_at(d, pat, p) <==> matches_at(w, pat, p - ws)) by {
        if ws <= d.len() {
            if matches_at(d, pat, p) {
                assert(w.subrange(p - ws, p - ws + plen) =~= d.subrange(p, p + plen));
            }
            if matches_at(w, pat, p - ws) {
                assert(w.subrange(p - ws, p - ws + plen) =~= d.subrange(p, p + plen));
            }
        }
    }
    if r != usize::MAX {
        assert(scanned(roff, plen, lim, r as int));
        assert(matches_at(w, pat, r as int));
        assert(scanned(offset, plen, lim, r + ws));
        assert forall|p: int| r + ws < p && scanned(offset, plen, lim, p) implies !#[trigger] matches_at(d, pat, p) by {
            assert(scanned(roff, plen, lim, p - ws));
            assert(!matches_at(w, pat, p - ws));
        }
    } else {
        assert forall|p: int| scanned(offset, plen, lim, p) implies !#[trigger] matches_at(d, pat, p) by {
            assert(scanned(roff, plen, lim, p - ws));
            assert(!matches_at(w, pat, p - ws));
        }
    }
}

} // verus!
