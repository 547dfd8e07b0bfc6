//! Finding the EpR frame chunks (`FRM2`) of a DDB, one after another.

use vstd::prelude::*;
use crate::bytes::{le32, le_u32_at};
use crate::search::{first_match, locate, matches_at, is_first_match, lemma_first_match, lemma_first_match_is_first};
use crate::mixins::frm2_sig;

verus! {

/// How the scan of a DDB ended.
#[derive(Debug, Clone, Copy, PartialEq, Eq, Structural)]
pub enum Frm2End {
    /// No further chunk, or one that would run past the end of the data.
    Finished,
    /// A chunk's signature with no room for its length after it.
    Truncated,
    /// A chunk of length zero at the position the scan resumed from: the
    /// scan would find it again forever.
    Stuck,
}

/// The chunks found scanning from `offset`: each starts at the first `FRM2`
/// signature at or after where the previous one ended and is as long as
/// the 32-bit length after its signature says; the scan ends at the first
/// chunk that would run past the end of the data.
pub open spec fn frm2_scan(d: Seq<u8>, offset: int) -> (Seq<(int, int)>, Frm2End)
    decreases d.len() - offset,
{
    if offset < 0 || offset > d.len() {
        (Seq::empty(), Frm2End::Finished)
    } else {
        match first_match(d.subrange(offset, d.len() as int), frm2_sig()) {
            None => (Seq::empty(), Frm2End::Finished),
            Some(k) => {
                let start = offset + k;
                if start + 8 > d.len() {
                    (Seq::empty(), Frm2End::Truncated)
                } else {
                    let end = start + le32(d, start + 4);
                    if end > d.len() {
                        (Seq::empty(), Frm2End::Finished)
                    } else if end <= offset {
                        (Seq::empty(), Frm2End::Stuck)
                    } else {
                        let (rest, e) = frm2_scan(d, end);
                        (seq![(start, end)] + rest, e)
                    }
                }
            },
        }
    }
}

/// The chunks of a DDB and how the scan ended.
pub struct Frm2Chunks {
    pub chunks: Vec<(usize, usize)>,
    pub end: Frm2End,
}

pub open spec fn chunk_view(c: Seq<(usize, usize)>) -> Seq<(int, int)> {
    Seq::new(c.len(), |i: int| (c[i].0 as int, c[i].1 as int))
}

/// Scans a DDB for its EpR frame chunks, as `[start, end)` ranges.
pub fn frm2_chunks(ddb_data: &[u8]) -> (r: Frm2Chunks)
    ensures
        (chunk_view(r.chunks@), r.end) == frm2_scan(ddb_data@, 0),
{
    let ghost d = ddb_data@;
    let sig = vec![70u8, 82u8, 77u8, 50u8];
    assert(sig@ =~= frm2_sig());
    let length = ddb_data.len();
    let mut chunks: Vec<(usize, usize)> = Vec::new();
    let mut offset: usize = 0;
    assert(chunk_view(chunks@) =~= Seq::<(int, int)>::empty());
    loop
        invariant
            length == d.len(),
            d == ddb_data@,
            sig@ == frm2_sig(),
            offset <= length,
            ({
                let (rest, e) = frm2_scan(d, offset as int);
                (chunk_view(chunks@) + rest, e) == frm2_scan(d, 0)
            }),
        decreases length - offset,
    {
        let tail = vstd::slice::slice_subrange(ddb_data, offset, length);
        let found = locate(tail, sig.as_slice());
        let ghost (rest, e) = frm2_scan(d, offset as int);
        match found {
            None => {
                assert(rest =~= Seq::<(int, int)>::empty());
                assert(chunk_view(chunks@) + rest =~= chunk_view(chunks@));
                return Frm2Chunks { chunks, end: Frm2End::Finished };
            },
            Some(k) => {
                proof {
                    if k > 0 {
                        assert(crate::search::matches_at(tail@, frm2_sig(), k as int));
                    }
                    assert(crate::search::matches_at(tail@, frm2_sig(), k as int));
                }
                let start = offset + k;
                if length - start < 8 {
                    assert(rest =~= Seq::<(int, int)>::empty());
                    assert(chunk_view(chunks@) + rest =~= chunk_view(chunks@));
                    return Frm2Chunks { chunks, end: Frm2End::Truncated };
                }
                let len = le_u32_at(ddb_data, start + 4) as usize;
                if len > length - start {
                    assert(rest =~= Seq::<(int, int)>::empty());
                    assert(chunk_view(chunks@) + rest =~= chunk_view(chunks@));
                    return Frm2Chunks { chunks, end: Frm2End::Finished };
                }
                let end = start + len;
                if end <= offset {
                    assert(rest =~= Seq::<(int, int)>::empty());
                    assert(chunk_view(chunks@) + rest =~= chunk_view(chunks@));
                    return Frm2Chunks { chunks, end: Frm2End::Stuck };
                }
                let ghost before = chunk_view(chunks@);
                chunks.push((start, end));
                proof {
                    assert(chunk_view(chunks@) =~= before.push((start as int, end as int)));
                    let (rest2, e2) = frm2_scan(d, end as int);
                    assert(rest == seq![(start as int, end as int)] + rest2);
                    assert(chunk_view(chunks@) + rest2 =~= before + rest);
                }
                offset = end;
            },
        }
    }
}

/// Every chunk the scan finds starts with the `FRM2` signature, is as long
/// as its length field says, lies within the data at or after where the
/// scan started, and begins at or after the end of the chunk before it:
/// the chunks saved do not overlap.
pub proof fn lemma_frm2_chunks_disjoint(d: Seq<u8>, offset: int)
    requires
        0 <= offset,
        d.len() <= usize::MAX,
    ensures
        ({
            let c = frm2_scan(d, offset).0;
            &&& forall|i: int|
                0 <= i < c.len() ==> matches_at(d, frm2_sig(), #[trigger] c[i].0) && c[i].1 == c[i].0 + le32(
                    d,
                    c[i].0 + 4,
                ) && offset <= c[i].0 && c[i].1 <= d.len()
            &&& forall|i: int| 0 <= i < c.len() - 1 ==> #[trigger] c[i].1 <= c[i + 1].0
        }),
    decreases d.len() - offset,
{
    if offset <= d.len() {
        let sub = d.subrange(offset, d.len() as int);
        lemma_first_match_is_first(sub, frm2_sig());
        match first_match(sub, frm2_sig()) {
            None => {},
            Some(k) => {
                let start = offset + k;
                if start + 8 <= d.len() {
                    let end = start + le32(d, start + 4);
                    if end <= d.len() && end > offset {
                        lemma_frm2_chunks_disjoint(d, end);
                        assert(matches_at(sub, frm2_sig(), k as int));
                        assert(d.subrange(start, start + 4) =~= sub.subrange(k as int, k + 4));
                        let (rest, e) = frm2_scan(d, end);
                        let c = frm2_scan(d, offset).0;
                        assert(c == seq![(start, end)] + rest);
                        assert forall|i: int| 0 <= i < c.len() implies matches_at(d, frm2_sig(), #[trigger] c[i].0)
                            && c[i].1 == c[i].0 + le32(d, c[i].0 + 4) && offset <= c[i].0 && c[i].1 <= d.len() by {
                            if i > 0 {
                                assert(c[i] == rest[i - 1]);
                            }
                        }
                        assert forall|i: int| 0 <= i < c.len() - 1 implies #[trigger] c[i].1 <= c[i + 1].0 by {
                            assert(c[i + 1] == rest[i]);
                            if i > 0 {
                                assert(c[i] == rest[i - 1]);
                            }
                        }
                    }
                }
            },
        }
    }
}

/// Law: scanning from `offset` lists, first, the chunk at the first `FRM2`
/// signature at or after `offset`, as `[start, start + length)`, whenever
/// its 8-byte header fits, it ends within the data (a chunk that ends
/// exactly at the end of the data included) and it ends past `offset`; the
/// chunks after it are those that scanning from its end lists.
pub proof fn lemma_frm2_chunk_listed(d: Seq<u8>, offset: int, start: int)
    requires
        0 <= offset <= start,
        d.len() <= usize::MAX,
        matches_at(d, frm2_sig(), start),
        forall|j: int| offset <= j < start ==> !#[trigger] matches_at(d, frm2_sig(), j),
        start + 8 <= d.len(),
        offset < start + le32(d, start + 4) <= d.len(),
    ensures
        frm2_scan(d, offset).0 == seq![(start, start + le32(d, start + 4))] + frm2_scan(d, start + le32(d, start + 4)).0,
        frm2_scan(d, offset).0[0] == (start, start + le32(d, start + 4)),
{
    let sub = d.subrange(offset, d.len() as int);
    let k = (start - offset) as usize;
    assert(sub.subrange(k as int, k + 4) =~= d.subrange(start, start + 4));
    assert(matches_at(sub, frm2_sig(), k as int));
    assert forall|j: int| 0 <= j < k implies !#[trigger] matches_at(sub, frm2_sig(), j) by {
        if matches_at(sub, frm2_sig(), j) {
            assert(d.subrange(offset + j, offset + j + 4) =~= sub.subrange(j, j + 4));
            assert(matches_at(d, frm2_sig(), offset + j));
        }
    }
    assert(is_first_match(sub, frm2_sig(), Some(k)));
    lemma_first_match(sub, frm2_sig(), Some(k));
}

} // verus!
