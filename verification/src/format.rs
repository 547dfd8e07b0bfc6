//! The layout of the DDI sections, as functions from the file's bytes and a
//! position to what reading there yields and where reading stops.

use vstd::prelude::*;
use crate::bytes::{le32, le64, parse_u32, enc32, enc64, lemma_le32_enc32, lemma_le64_enc64};
use crate::mixins::epr_bytes;
use crate::ddi::field;
use crate::cursor::{ParseError, fits, text_field, arr_field};
use crate::model::{EprRef, SndRef, VoiceParams, VqmItemV, StapItemV, StaEntryV, AlignGroup, FrameAlignV, ArtpItemV, ArtuEntryV, ArtBlockV, PhdcDataV};
use crate::bytes::{dec, hex_of, trim_zeros};
use crate::text::lossy_text;
use crate::search::is_first_match;
use crate::ordmap::{MapKey, assoc_insert, sorted_keys, lemma_insert_sorted};

verus! {

/// `n` items read one after another from `p` with `item`, stopping at the
/// first failure.
pub open spec fn rep<T>(item: spec_fn(int) -> Result<(T, int), ParseError>, p: int, n: nat) -> Result<
    (Seq<T>, int),
    ParseError,
>
    decreases n,
{
    if n == 0 {
        Ok((Seq::empty(), p))
    } else {
        match rep(item, p, (n - 1) as nat) {
            Ok((s, q)) => match item(q) {
                Ok((x, r)) => Ok((s.push(x), r)),
                Err(e) => Err(e),
            },
            Err(e) => Err(e),
        }
    }
}

/// Once reading a list fails, reading a longer list fails the same way.
pub proof fn lemma_rep_fails<T>(
    item: spec_fn(int) -> Result<(T, int), ParseError>,
    p: int,
    i: nat,
    n: nat,
)
    requires
        i <= n,
        rep(item, p, i) is Err,
    ensures
        rep(item, p, n) == rep(item, p, i),
    decreases n - i,
{
    if i < n {
        lemma_rep_fails(item, p, i, (n - 1) as nat);
    }
}

/// The entries of a map after inserting each pair of `s` in order.
pub open spec fn insert_all<K: MapKey, W>(m: Seq<(K::V, W)>, s: Seq<(K::V, W)>) -> Seq<(K::V, W)>
    decreases s.len(),
{
    if s.len() == 0 {
        m
    } else {
        assoc_insert::<K, W>(insert_all::<K, W>(m, s.drop_last()), s.last().0, s.last().1)
    }
}

/// The entries of a map built by inserting each pair of `s` in order into an
/// empty map.
pub open spec fn map_of<K: MapKey, W>(s: Seq<(K::V, W)>) -> Seq<(K::V, W)> {
    insert_all::<K, W>(Seq::empty(), s)
}

/// Inserting pairs one after another into a map whose keys strictly
/// increase keeps them so: every map a section yields has sorted keys.
pub proof fn lemma_insert_all_sorted<K: MapKey, W>(m: Seq<(K::V, W)>, s: Seq<(K::V, W)>)
    requires
        sorted_keys::<K, W>(m),
    ensures
        sorted_keys::<K, W>(insert_all::<K, W>(m, s)),
    decreases s.len(),
{
    if s.len() > 0 {
        lemma_insert_all_sorted::<K, W>(m, s.drop_last());
        lemma_insert_sorted::<K, W>(insert_all::<K, W>(m, s.drop_last()), s.last().0, s.last().1, s.last().0);
    }
}

/// `n` EpR references stored as 8-byte offsets from `q`; each records where
/// its offset field sits.
pub open spec fn epr_list(d: Seq<u8>, q: int, n: nat) -> Result<(Seq<EprRef>, int), ParseError> {
    if fits(d, q, (8 * n) as int) {
        Ok((Seq::new(n, |i: int| EprRef { pos: (q + 8 * i) as u64, off: le64(d, q + 8 * i) }), q + 8 * n))
    } else {
        Err(ParseError::UnexpectedEof)
    }
}

/// The voice parameters whose `f64` duration sits at `x`, followed by two
/// bytes and five `f32` fields.
pub open spec fn params_at(d: Seq<u8>, x: int) -> VoiceParams {
    VoiceParams {
        duration: le64(d, x),
        pitch1: le32(d, x + 10),
        pitch2: le32(d, x + 14),
        unknown2: le32(d, x + 18),
        dynamics: le32(d, x + 22),
        tempo: le32(d, x + 26),
    }
}

/// The sound reference whose id sits at `r + 6` and whose offset sits at
/// `r + 10`.
pub open spec fn snd_at(d: Seq<u8>, r: int) -> SndRef {
    SndRef { pos: (r + 10) as u64, off: le64(d, r + 10), id: le32(d, r + 6) }
}

/// `r` is what the executable reader returned, given what the layout says
/// reading yields (`s`) and where the reader stopped (`end`).
pub open spec fn yields<T: DeepView>(r: Result<T, ParseError>, s: Result<(T::V, int), ParseError>, end: int) -> bool {
    match s {
        Ok((v, q)) => r matches Ok(x) && x.deep_view() == v && end == q,
        Err(e) => r == Err::<T, ParseError>(e),
    }
}

// ---------------------------------------------------------------- TDB

/// A TDB sub-record at `q`: 8 bytes, an array record and a string, all
/// passed over.
pub open spec fn tdb_sub(d: Seq<u8>, q: int) -> Result<((), int), ParseError> {
    if !fits(d, q, 8) {
        Err(ParseError::UnexpectedEof)
    } else {
        match arr_field(d, q + 8) {
            Err(e) => Err(e),
            Ok((_, r)) => match text_field(d, r) {
                Err(e) => Err(e),
                Ok((_, s)) => Ok(((), s)),
            },
        }
    }
}

pub open spec fn tdb_sub_at(d: Seq<u8>) -> spec_fn(int) -> Result<((), int), ParseError> {
    |q: int| tdb_sub(d, q)
}

/// A TDB entry at `q`: 24 header bytes, its index, a count of sub-records,
/// the sub-records, then its name.
pub open spec fn tdb_entry(d: Seq<u8>, q: int) -> Result<((u32, Seq<u8>), int), ParseError> {
    if !fits(d, q, 32) {
        Err(ParseError::UnexpectedEof)
    } else {
        match rep(tdb_sub_at(d), q + 32, le32(d, q + 28) as nat) {
            Err(e) => Err(e),
            Ok((_, r)) => match text_field(d, r) {
                Err(e) => Err(e),
                Ok((name, s)) => Ok(((le32(d, q + 24), name), s)),
            },
        }
    }
}

pub open spec fn tdb_entry_at(d: Seq<u8>) -> spec_fn(int) -> Result<((u32, Seq<u8>), int), ParseError> {
    |q: int| tdb_entry(d, q)
}

/// The TDB section at `p`: 24 header bytes, a count, the entries, and a
/// trailing string; entries are keyed by index.
pub open spec fn tdb_section(d: Seq<u8>, p: int) -> Result<(Seq<(u32, Seq<u8>)>, int), ParseError> {
    if !fits(d, p, 28) {
        Err(ParseError::UnexpectedEof)
    } else {
        match rep(tdb_entry_at(d), p + 28, le32(d, p + 24) as nat) {
            Err(e) => Err(e),
            Ok((items, q)) => match text_field(d, q) {
                Err(e) => Err(e),
                Ok((_, r)) => Ok((map_of::<u32, Seq<u8>>(items), r)),
            },
        }
    }
}

/// Bytes laid down at `q` as `a` then `b`: `a` lies at `q` and `b` right
/// after it.
pub proof fn lemma_split(d: Seq<u8>, q: int, a: Seq<u8>, b: Seq<u8>)
    requires
        0 <= q,
        q + a.len() + b.len() <= d.len(),
        d.subrange(q, q + a.len() + b.len()) == a + b,
    ensures
        d.subrange(q, q + a.len()) == a,
        d.subrange(q + a.len(), q + a.len() + b.len()) == b,
{
    assert(d.subrange(q, q + a.len()) =~= (a + b).subrange(0, a.len() as int));
    assert((a + b).subrange(0, a.len() as int) =~= a);
    assert(d.subrange(q + a.len(), q + a.len() + b.len()) =~= (a + b).subrange(a.len() as int, (a.len() + b.len()) as int));
    assert((a + b).subrange(a.len() as int, (a.len() + b.len()) as int) =~= b);
}

/// What was laid down between `pre` and `post` lies right after `pre`.
pub proof fn lemma_middle(pre: Seq<u8>, e: Seq<u8>, post: Seq<u8>)
    ensures
        (pre + e + post).subrange(pre.len() as int, (pre.len() + e.len()) as int) == e,
{
    assert((pre + e + post).subrange(pre.len() as int, (pre.len() + e.len()) as int) =~= e);
}

/// Four bytes laid down by `enc32(x)` at `p` read back as `x`.
pub proof fn lemma_le32_in(d: Seq<u8>, p: int, x: u32)
    requires
        0 <= p,
        p + 4 <= d.len(),
        d.subrange(p, p + 4) == enc32(x),
    ensures
        le32(d, p) == x,
{
    lemma_le32_enc32(x);
    let w = d.subrange(p, p + 4);
    assert(w[0] == d[p] && w[1] == d[p + 1] && w[2] == d[p + 2] && w[3] == d[p + 3]);
}

/// A string field laid down at `p` reads back as the text of its bytes, and
/// reading stops right after it.
pub proof fn lemma_text_in(d: Seq<u8>, p: int, s: Seq<u8>)
    requires
        0 <= p,
        p + 4 + s.len() <= d.len(),
        s.len() <= u32::MAX,
        d.subrange(p, p + 4 + s.len()) == field(s),
    ensures
        text_field(d, p) == Ok::<(Seq<u8>, int), ParseError>((lossy_text(s), p + 4 + s.len())),
{
    let f = field(s);
    assert(d.subrange(p, p + 4) =~= f.subrange(0, 4));
    assert(f.subrange(0, 4) =~= enc32(s.len() as u32));
    lemma_le32_in(d, p, s.len() as u32);
    assert(d.subrange(p + 4, p + 4 + s.len()) =~= f.subrange(4, 4 + s.len() as int));
    assert(f.subrange(4, 4 + s.len() as int) =~= s);
}

/// The bytes of one TDB sub-record: 8 header bytes, a 20-byte array record
/// and a string.
pub open spec fn tdb_sub_bytes(x: (Seq<u8>, Seq<u8>, Seq<u8>)) -> Seq<u8> {
    x.0 + x.1 + field(x.2)
}

/// The parts of a sub-record have the sizes the layout gives them.
pub open spec fn tdb_sub_ok(x: (Seq<u8>, Seq<u8>, Seq<u8>)) -> bool {
    x.0.len() == 8 && x.1.len() == 20 && x.2.len() <= u32::MAX
}

/// Sub-records written one after another.
pub open spec fn tdb_subs_bytes(subs: Seq<(Seq<u8>, Seq<u8>, Seq<u8>)>) -> Seq<u8>
    decreases subs.len(),
{
    if subs.len() == 0 {
        Seq::empty()
    } else {
        tdb_subs_bytes(subs.drop_last()) + tdb_sub_bytes(subs.last())
    }
}

/// A TDB entry written with 24 header bytes, its index, the number of its
/// sub-records, the sub-records and its name.
pub open spec fn tdb_entry_bytes(
    head: Seq<u8>,
    idx: u32,
    subs: Seq<(Seq<u8>, Seq<u8>, Seq<u8>)>,
    name: Seq<u8>,
) -> Seq<u8> {
    head + enc32(idx) + enc32(subs.len() as u32) + tdb_subs_bytes(subs) + field(name)
}

/// Sub-records laid down at `p` are read one after another, each with its
/// string, and reading stops right after the last.
#[verifier::rlimit(40)]
pub proof fn lemma_tdb_subs_read(d: Seq<u8>, p: int, subs: Seq<(Seq<u8>, Seq<u8>, Seq<u8>)>)
    requires
        0 <= p,
        p + tdb_subs_bytes(subs).len() <= d.len(),
        d.subrange(p, p + tdb_subs_bytes(subs).len()) == tdb_subs_bytes(subs),
        forall|i: int| 0 <= i < subs.len() ==> tdb_sub_ok(#[trigger] subs[i]),
    ensures
        rep(tdb_sub_at(d), p, subs.len()) matches Ok((_, e)) && e == p + tdb_subs_bytes(subs).len(),
    decreases subs.len(),
{
    if subs.len() > 0 {
        let init = subs.drop_last();
        let x = subs.last();
        let b = tdb_subs_bytes(subs);
        let bi = tdb_subs_bytes(init);
        let bx = tdb_sub_bytes(x);
        assert(tdb_sub_ok(subs[subs.len() - 1]));
        assert forall|i: int| 0 <= i < init.len() implies tdb_sub_ok(#[trigger] init[i]) by {
            assert(init[i] == subs[i]);
        }
        assert(d.subrange(p, p + bi.len()) =~= b.subrange(0, bi.len() as int));
        assert(b.subrange(0, bi.len() as int) =~= bi);
        lemma_tdb_subs_read(d, p, init);
        let q = p + bi.len();
        let r = q + 28;
        assert(d.subrange(r, r + 4 + x.2.len()) =~= b.subrange(bi.len() as int + 28, b.len() as int));
        assert(b.subrange(bi.len() as int + 28, b.len() as int) =~= field(x.2));
        lemma_text_in(d, r, x.2);
        assert(tdb_sub_at(d)(q) == tdb_sub(d, q));
    }
}

/// A TDB entry laid down at `q` reads back as its index and its name, and
/// reading stops right after the name.
#[verifier::rlimit(40)]
pub proof fn lemma_tdb_entry_in(
    d: Seq<u8>,
    q: int,
    head: Seq<u8>,
    idx: u32,
    subs: Seq<(Seq<u8>, Seq<u8>, Seq<u8>)>,
    name: Seq<u8>,
)
    requires
        0 <= q,
        q + tdb_entry_bytes(head, idx, subs, name).len() <= d.len(),
        d.subrange(q, q + tdb_entry_bytes(head, idx, subs, name).len()) == tdb_entry_bytes(head, idx, subs, name),
        head.len() == 24,
        subs.len() <= u32::MAX,
        forall|i: int| 0 <= i < subs.len() ==> tdb_sub_ok(#[trigger] subs[i]),
        name.len() <= u32::MAX,
    ensures
        tdb_entry(d, q) == Ok::<((u32, Seq<u8>), int), ParseError>(
            ((idx, lossy_text(name)), q + tdb_entry_bytes(head, idx, subs, name).len()),
        ),
{
    let bs = tdb_subs_bytes(subs);
    let n = subs.len() as u32;
    let x2 = head + enc32(idx);
    let x3 = x2 + enc32(n);
    let x4 = x3 + bs;
    lemma_split(d, q, x4, field(name));
    lemma_split(d, q, x3, bs);
    lemma_split(d, q, x2, enc32(n));
    lemma_split(d, q, head, enc32(idx));
    lemma_le32_in(d, q + 24, idx);
    lemma_le32_in(d, q + 28, n);
    lemma_tdb_subs_read(d, q + 32, subs);
    lemma_text_in(d, q + 32 + bs.len(), name);
}

/// Law: a TDB entry written as 24 header bytes, its index, a count of
/// sub-records, the sub-records (8 bytes, a 20-byte array record and a
/// string each) and its name, reads back as its index and its name, and
/// reading stops right after the name. The sub-records' strings are passed
/// over, whatever stands before and after the entry.
pub proof fn lemma_tdb_entry_reads_back(
    pre: Seq<u8>,
    head: Seq<u8>,
    idx: u32,
    subs: Seq<(Seq<u8>, Seq<u8>, Seq<u8>)>,
    name: Seq<u8>,
    post: Seq<u8>,
)
    requires
        head.len() == 24,
        subs.len() <= u32::MAX,
        forall|i: int| 0 <= i < subs.len() ==> tdb_sub_ok(#[trigger] subs[i]),
        name.len() <= u32::MAX,
    ensures
        tdb_entry(pre + tdb_entry_bytes(head, idx, subs, name) + post, pre.len() as int) == Ok::<
            ((u32, Seq<u8>), int),
            ParseError,
        >(((idx, lossy_text(name)), pre.len() + tdb_entry_bytes(head, idx, subs, name).len() as int)),
{
    let e = tdb_entry_bytes(head, idx, subs, name);
    let d = pre + e + post;
    lemma_middle(pre, e, post);
    lemma_tdb_entry_in(d, pre.len() as int, head, idx, subs, name);
}

/// The parts of a TDB entry have the sizes and counts the layout allows.
pub open spec fn tdb_entry_ok(x: (Seq<u8>, u32, Seq<(Seq<u8>, Seq<u8>, Seq<u8>)>, Seq<u8>)) -> bool {
    &&& x.0.len() == 24
    &&& x.2.len() <= u32::MAX
    &&& forall|i: int| 0 <= i < x.2.len() ==> tdb_sub_ok(#[trigger] x.2[i])
    &&& x.3.len() <= u32::MAX
}

/// TDB entries, each given as its header, index, sub-records and name,
/// written one after another.
pub open spec fn tdb_entries_bytes(es: Seq<(Seq<u8>, u32, Seq<(Seq<u8>, Seq<u8>, Seq<u8>)>, Seq<u8>)>) -> Seq<u8>
    decreases es.len(),
{
    if es.len() == 0 {
        Seq::empty()
    } else {
        tdb_entries_bytes(es.drop_last()) + tdb_entry_bytes(es.last().0, es.last().1, es.last().2, es.last().3)
    }
}

/// What the entries read back as: each one's index and the text of its name.
pub open spec fn tdb_names(es: Seq<(Seq<u8>, u32, Seq<(Seq<u8>, Seq<u8>, Seq<u8>)>, Seq<u8>)>) -> Seq<(u32, Seq<u8>)> {
    Seq::new(es.len(), |i: int| (es[i].1, lossy_text(es[i].3)))
}

/// Entries laid down at `p` read back one after another as their indexes
/// and names, and reading stops right after the last.
#[verifier::rlimit(40)]
pub proof fn lemma_tdb_entries_read(
    d: Seq<u8>,
    p: int,
    es: Seq<(Seq<u8>, u32, Seq<(Seq<u8>, Seq<u8>, Seq<u8>)>, Seq<u8>)>,
)
    requires
        0 <= p,
        p + tdb_entries_bytes(es).len() <= d.len(),
        d.subrange(p, p + tdb_entries_bytes(es).len()) == tdb_entries_bytes(es),
        forall|i: int| 0 <= i < es.len() ==> tdb_entry_ok(#[trigger] es[i]),
    ensures
        rep(tdb_entry_at(d), p, es.len()) == Ok::<(Seq<(u32, Seq<u8>)>, int), ParseError>(
            (tdb_names(es), p + tdb_entries_bytes(es).len()),
        ),
    decreases es.len(),
{
    if es.len() == 0 {
        assert(tdb_names(es) =~= Seq::<(u32, Seq<u8>)>::empty());
    } else {
        let init = es.drop_last();
        let x = es.last();
        let b = tdb_entries_bytes(es);
        let bi = tdb_entries_bytes(init);
        let bx = tdb_entry_bytes(x.0, x.1, x.2, x.3);
        assert(tdb_entry_ok(es[es.len() - 1]));
        assert forall|i: int| 0 <= i < init.len() implies tdb_entry_ok(#[trigger] init[i]) by {
            assert(init[i] == es[i]);
        }
        assert(d.subrange(p, p + bi.len()) =~= b.subrange(0, bi.len() as int));
        assert(b.subrange(0, bi.len() as int) =~= bi);
        lemma_tdb_entries_read(d, p, init);
        let q = p + bi.len();
        assert(d.subrange(q, q + bx.len()) =~= b.subrange(bi.len() as int, b.len() as int));
        assert(b.subrange(bi.len() as int, b.len() as int) =~= bx);
        lemma_tdb_entry_in(d, q, x.0, x.1, x.2, x.3);
        assert(tdb_entry_at(d)(q) == tdb_entry(d, q));
        assert(tdb_names(init).push((x.1, lossy_text(x.3))) =~= tdb_names(es));
    }
}

/// A TDB section written as 24 header bytes, the number of its entries, the
/// entries and a trailing string.
pub open spec fn tdb_section_bytes(
    head: Seq<u8>,
    es: Seq<(Seq<u8>, u32, Seq<(Seq<u8>, Seq<u8>, Seq<u8>)>, Seq<u8>)>,
    trailing: Seq<u8>,
) -> Seq<u8> {
    head + enc32(es.len() as u32) + tdb_entries_bytes(es) + field(trailing)
}

/// A TDB section laid down at `p` reads back as the map from each entry's
/// index to its name, and reading stops right after the trailing string.
#[verifier::rlimit(40)]
pub proof fn lemma_tdb_section_in(
    d: Seq<u8>,
    p: int,
    head: Seq<u8>,
    es: Seq<(Seq<u8>, u32, Seq<(Seq<u8>, Seq<u8>, Seq<u8>)>, Seq<u8>)>,
    trailing: Seq<u8>,
)
    requires
        0 <= p,
        p + tdb_section_bytes(head, es, trailing).len() <= d.len(),
        d.subrange(p, p + tdb_section_bytes(head, es, trailing).len()) == tdb_section_bytes(head, es, trailing),
        head.len() == 24,
        es.len() <= u32::MAX,
        forall|i: int| 0 <= i < es.len() ==> tdb_entry_ok(#[trigger] es[i]),
        trailing.len() <= u32::MAX,
    ensures
        tdb_section(d, p) == Ok::<(Seq<(u32, Seq<u8>)>, int), ParseError>(
            (map_of::<u32, Seq<u8>>(tdb_names(es)), p + tdb_section_bytes(head, es, trailing).len()),
        ),
{
    let sec = tdb_section_bytes(head, es, trailing);
    let be = tdb_entries_bytes(es);
    assert(sec.subrange(24, 28) =~= enc32(es.len() as u32));
    assert(d.subrange(p + 24, p + 28) =~= sec.subrange(24, 28));
    lemma_le32_in(d, p + 24, es.len() as u32);
    assert(sec.subrange(28, 28 + be.len() as int) =~= be);
    assert(d.subrange(p + 28, p + 28 + be.len()) =~= sec.subrange(28, 28 + be.len() as int));
    lemma_tdb_entries_read(d, p + 28, es);
    let r = p + 28 + be.len();
    assert(sec.subrange(28 + be.len() as int, sec.len() as int) =~= field(trailing));
    assert(d.subrange(r, r + 4 + trailing.len()) =~= sec.subrange(28 + be.len() as int, sec.len() as int));
    lemma_text_in(d, r, trailing);
}

/// Law: a TDB section written as 24 header bytes, a count, that many
/// entries and a trailing string reads back as the map from each entry's
/// index to its name (a later entry with the same index replacing an
/// earlier one), and reading stops right after the trailing string,
/// whatever stands before and after the section.
pub proof fn lemma_tdb_section_reads_back(
    pre: Seq<u8>,
    head: Seq<u8>,
    es: Seq<(Seq<u8>, u32, Seq<(Seq<u8>, Seq<u8>, Seq<u8>)>, Seq<u8>)>,
    trailing: Seq<u8>,
    post: Seq<u8>,
)
    requires
        head.len() == 24,
        es.len() <= u32::MAX,
        forall|i: int| 0 <= i < es.len() ==> tdb_entry_ok(#[trigger] es[i]),
        trailing.len() <= u32::MAX,
    ensures
        tdb_section(pre + tdb_section_bytes(head, es, trailing) + post, pre.len() as int) == Ok::<
            (Seq<(u32, Seq<u8>)>, int),
            ParseError,
        >((map_of::<u32, Seq<u8>>(tdb_names(es)), pre.len() + tdb_section_bytes(head, es, trailing).len() as int)),
{
    let sec = tdb_section_bytes(head, es, trailing);
    let d = pre + sec + post;
    lemma_middle(pre, sec, post);
    lemma_tdb_section_in(d, pre.len() as int, head, es, trailing);
}

// ---------------------------------------------------------------- DBV

/// The DBV header at `p`: 28 bytes, all skipped.
pub open spec fn dbv_section(d: Seq<u8>, p: int) -> Result<((), int), ParseError> {
    if fits(d, p, 28) {
        Ok(((), p + 28))
    } else {
        Err(ParseError::UnexpectedEof)
    }
}

// ---------------------------------------------------------------- VQM

/// A VQM sample at `q`: 24 header bytes, the voice parameters, 8 skipped
/// bytes, the EpR list, the sampling rate, two bytes, the sound reference,
/// 16 skipped bytes and the index string, which must parse as a `u32`.
pub open spec fn vqm_item(d: Seq<u8>, q: int) -> Result<((u32, VqmItemV), int), ParseError> {
    if !fits(d, q, 66) {
        Err(ParseError::UnexpectedEof)
    } else {
        match epr_list(d, q + 66, le32(d, q + 62) as nat) {
            Err(e) => Err(e),
            Ok((epr, r)) => if !fits(d, r, 34) {
                Err(ParseError::UnexpectedEof)
            } else {
                match text_field(d, r + 34) {
                    Err(e) => Err(e),
                    Ok((idx_text, s)) => match parse_u32(idx_text) {
                        None => Err(ParseError::InvalidIndex),
                        Some(idx) => Ok(
                            (
                                (
                                    idx,
                                    VqmItemV {
                                        params: params_at(d, q + 24),
                                        epr,
                                        fs: le32(d, r),
                                        snd: snd_at(d, r),
                                    },
                                ),
                                s,
                            ),
                        ),
                    },
                }
            },
        }
    }
}

pub open spec fn vqm_item_at(d: Seq<u8>) -> spec_fn(int) -> Result<((u32, VqmItemV), int), ParseError> {
    |q: int| vqm_item(d, q)
}

/// The VQM section at `p`: 52 header bytes, a count, 4 bytes, the samples
/// and two trailing strings; samples are keyed by their parsed index.
pub open spec fn vqm_section(d: Seq<u8>, p: int) -> Result<(Seq<(u32, VqmItemV)>, int), ParseError> {
    if !fits(d, p, 60) {
        Err(ParseError::UnexpectedEof)
    } else {
        match rep(vqm_item_at(d), p + 60, le32(d, p + 52) as nat) {
            Err(e) => Err(e),
            Ok((items, q)) => match text_field(d, q) {
                Err(e) => Err(e),
                Ok((_, r)) => match text_field(d, r) {
                    Err(e) => Err(e),
                    Ok((_, s)) => Ok((map_of::<u32, VqmItemV>(items), s)),
                },
            },
        }
    }
}

/// Eight bytes laid down by `enc64(x)` at `p` read back as `x`.
pub proof fn lemma_le64_in(d: Seq<u8>, p: int, x: u64)
    requires
        0 <= p,
        p + 8 <= d.len(),
        d.subrange(p, p + 8) == enc64(x),
    ensures
        le64(d, p) == x,
{
    lemma_le64_enc64(x);
    let e = enc64(x);
    let w = d.subrange(p, p + 8);
    assert(w[0] == d[p] && w[1] == d[p + 1] && w[2] == d[p + 2] && w[3] == d[p + 3]);
    assert(w[4] == d[p + 4] && w[5] == d[p + 5] && w[6] == d[p + 6] && w[7] == d[p + 7]);
    assert(le32(d, p) == le32(e, 0));
    assert(le32(d, p + 4) == le32(e, 4));
}

/// The voice parameters as a sample record holds them: the `f64` duration,
/// two bytes `gap`, then the first pitch, the second pitch, the unknown
/// value, the dynamics and the tempo, as `f32` bits.
pub open spec fn params_bytes(p: VoiceParams, gap: Seq<u8>) -> Seq<u8> {
    enc64(p.duration) + gap + enc32(p.pitch1) + enc32(p.pitch2) + enc32(p.unknown2) + enc32(p.dynamics)
        + enc32(p.tempo)
}

/// Voice parameters laid down at `x` read back as themselves.
#[verifier::rlimit(40)]
pub proof fn lemma_params_in(d: Seq<u8>, x: int, p: VoiceParams, gap: Seq<u8>)
    requires
        0 <= x,
        x + 30 <= d.len(),
        gap.len() == 2,
        d.subrange(x, x + 30) == params_bytes(p, gap),
    ensures
        params_at(d, x) == p,
{
    let b = params_bytes(p, gap);
    assert(d.subrange(x, x + 8) =~= b.subrange(0, 8));
    assert(b.subrange(0, 8) =~= enc64(p.duration));
    lemma_le64_in(d, x, p.duration);
    assert(d.subrange(x + 10, x + 14) =~= b.subrange(10, 14));
    assert(b.subrange(10, 14) =~= enc32(p.pitch1));
    lemma_le32_in(d, x + 10, p.pitch1);
    assert(d.subrange(x + 14, x + 18) =~= b.subrange(14, 18));
    assert(b.subrange(14, 18) =~= enc32(p.pitch2));
    lemma_le32_in(d, x + 14, p.pitch2);
    assert(d.subrange(x + 18, x + 22) =~= b.subrange(18, 22));
    assert(b.subrange(18, 22) =~= enc32(p.unknown2));
    lemma_le32_in(d, x + 18, p.unknown2);
    assert(d.subrange(x + 22, x + 26) =~= b.subrange(22, 26));
    assert(b.subrange(22, 26) =~= enc32(p.dynamics));
    lemma_le32_in(d, x + 22, p.dynamics);
    assert(d.subrange(x + 26, x + 30) =~= b.subrange(26, 30));
    assert(b.subrange(26, 30) =~= enc32(p.tempo));
    lemma_le32_in(d, x + 26, p.tempo);
}

/// Each EpR offset takes eight bytes.
pub proof fn lemma_epr_bytes_len(offs: Seq<u64>)
    ensures
        epr_bytes(offs).len() == 8 * offs.len(),
    decreases offs.len(),
{
    if offs.len() > 0 {
        lemma_epr_bytes_len(offs.drop_last());
    }
}

/// EpR offsets laid down at `q`, eight bytes each, read back one by one.
pub proof fn lemma_epr_offsets_in(d: Seq<u8>, q: int, offs: Seq<u64>)
    requires
        0 <= q,
        q + epr_bytes(offs).len() <= d.len(),
        d.subrange(q, q + epr_bytes(offs).len()) == epr_bytes(offs),
    ensures
        epr_bytes(offs).len() == 8 * offs.len(),
        forall|i: int| 0 <= i < offs.len() ==> #[trigger] le64(d, q + 8 * i) == offs[i],
    decreases offs.len(),
{
    if offs.len() > 0 {
        let init = offs.drop_last();
        let b = epr_bytes(offs);
        let bi = epr_bytes(init);
        assert(d.subrange(q, q + bi.len()) =~= b.subrange(0, bi.len() as int));
        assert(b.subrange(0, bi.len() as int) =~= bi);
        lemma_epr_offsets_in(d, q, init);
        let n = offs.len() - 1;
        assert(d.subrange(q + 8 * n, q + 8 * n + 8) =~= b.subrange(bi.len() as int, b.len() as int));
        assert(b.subrange(bi.len() as int, b.len() as int) =~= enc64(offs.last()));
        lemma_le64_in(d, q + 8 * n, offs.last());
        assert forall|i: int| 0 <= i < offs.len() implies #[trigger] le64(d, q + 8 * i) == offs[i] by {
            if i < n {
                assert(le64(d, q + 8 * i) == init[i]);
            }
        }
    }
}

/// The EpR references read from offsets laid down at `q`: each records
/// where its offset field sits and the offset.
pub open spec fn eprs_from(q: int, offs: Seq<u64>) -> Seq<EprRef> {
    Seq::new(offs.len(), |i: int| EprRef { pos: (q + 8 * i) as u64, off: offs[i] })
}

/// The front of a growl sample record: 24 header bytes, the voice
/// parameters (with two bytes `gap` after the duration), 8 bytes `pad` and
/// the number of EpR references.
#[verifier::opaque]
pub open spec fn vqm_item_front(head: Seq<u8>, p: VoiceParams, gap: Seq<u8>, pad: Seq<u8>, n: nat) -> Seq<u8> {
    head + params_bytes(p, gap) + pad + enc32(n as u32)
}

/// The back of a sample record after its EpR offsets: the sampling rate,
/// two bytes `mid`, the sound id, the sound offset and 16 bytes `tail`.
#[verifier::opaque]
pub open spec fn item_back(fs: u32, mid: Seq<u8>, snd_id: u32, snd_off: u64, tail: Seq<u8>) -> Seq<u8> {
    enc32(fs) + mid + enc32(snd_id) + enc64(snd_off) + tail
}

/// The back of a sample record laid down at `r` reads back as its rate and
/// its sound reference.
#[verifier::rlimit(40)]
pub proof fn lemma_item_back_in(d: Seq<u8>, r: int, fs: u32, mid: Seq<u8>, snd_id: u32, snd_off: u64, tail: Seq<u8>)
    requires
        0 <= r,
        r + 34 <= d.len(),
        mid.len() == 2,
        tail.len() == 16,
        d.subrange(r, r + 34) == item_back(fs, mid, snd_id, snd_off, tail),
    ensures
        le32(d, r) == fs,
        snd_at(d, r) == (SndRef { pos: (r + 10) as u64, off: snd_off, id: snd_id }),
{
    reveal(item_back);
    let b = item_back(fs, mid, snd_id, snd_off, tail);
    assert(d.subrange(r, r + 4) =~= b.subrange(0, 4));
    assert(b.subrange(0, 4) =~= enc32(fs));
    lemma_le32_in(d, r, fs);
    assert(d.subrange(r + 6, r + 10) =~= b.subrange(6, 10));
    assert(b.subrange(6, 10) =~= enc32(snd_id));
    lemma_le32_in(d, r + 6, snd_id);
    assert(d.subrange(r + 10, r + 18) =~= b.subrange(10, 18));
    assert(b.subrange(10, 18) =~= enc64(snd_off));
    lemma_le64_in(d, r + 10, snd_off);
}

/// The front of a growl sample record laid down at `q` reads back as its
/// voice parameters and its number of EpR references.
pub proof fn lemma_vqm_front_in(d: Seq<u8>, q: int, head: Seq<u8>, p: VoiceParams, gap: Seq<u8>, pad: Seq<u8>, n: nat)
    requires
        0 <= q,
        q + 66 <= d.len(),
        head.len() == 24,
        gap.len() == 2,
        pad.len() == 8,
        n <= u32::MAX,
        d.subrange(q, q + 66) == vqm_item_front(head, p, gap, pad, n),
    ensures
        params_at(d, q + 24) == p,
        le32(d, q + 62) == n,
{
    reveal(vqm_item_front);
    let b = vqm_item_front(head, p, gap, pad, n);
    assert(d.subrange(q + 24, q + 54) =~= b.subrange(24, 54));
    assert(b.subrange(24, 54) =~= params_bytes(p, gap));
    lemma_params_in(d, q + 24, p, gap);
    assert(d.subrange(q + 62, q + 66) =~= b.subrange(62, 66));
    assert(b.subrange(62, 66) =~= enc32(n as u32));
    lemma_le32_in(d, q + 62, n as u32);
}

/// EpR offsets laid down at `q` read back as EpR references.
pub proof fn lemma_eprs_in(d: Seq<u8>, q: int, offs: Seq<u64>)
    requires
        0 <= q,
        q + epr_bytes(offs).len() <= d.len(),
        d.subrange(q, q + epr_bytes(offs).len()) == epr_bytes(offs),
    ensures
        epr_list(d, q, offs.len()) == Ok::<(Seq<EprRef>, int), ParseError>((eprs_from(q, offs), q + 8 * offs.len())),
{
    lemma_epr_offsets_in(d, q, offs);
    let l = epr_list(d, q, offs.len())->Ok_0.0;
    assert forall|i: int| 0 <= i < offs.len() implies #[trigger] l[i] == eprs_from(q, offs)[i] by {
        assert(le64(d, q + 8 * i) == offs[i]);
    }
    assert(l =~= eprs_from(q, offs));
}

/// The sizes of the front and the back of a sample record.
pub proof fn lemma_item_parts_len(head: Seq<u8>, p: VoiceParams, gap: Seq<u8>, pad: Seq<u8>, n: nat, fs: u32, mid: Seq<u8>, snd_id: u32, snd_off: u64, tail: Seq<u8>)
    requires
        head.len() == 24,
        gap.len() == 2,
        pad.len() == 8,
        mid.len() == 2,
        tail.len() == 16,
    ensures
        vqm_item_front(head, p, gap, pad, n).len() == 66,
        item_back(fs, mid, snd_id, snd_off, tail).len() == 34,
{
    reveal(vqm_item_front);
    reveal(item_back);
}

/// Law: a growl sample record written as 24 header bytes, the voice
/// parameters, 8 bytes, the number of EpR references, their offsets, the
/// sampling rate, 2 bytes, the sound id, the sound offset, 16 bytes and the
/// index string, wherever it lies in the data, reads back, when the index
/// string is a number, as that number and a sample with those parameters,
/// EpR references (each noting where its offset field sits), rate and
/// sound reference, and reading stops right after the index string; when
/// the index string is not a number, reading fails with an invalid index.
#[verifier::rlimit(40)]
pub proof fn lemma_vqm_item_reads_back(
    d: Seq<u8>,
    q: int,
    head: Seq<u8>,
    p: VoiceParams,
    gap: Seq<u8>,
    pad: Seq<u8>,
    offs: Seq<u64>,
    fs: u32,
    mid: Seq<u8>,
    snd_id: u32,
    snd_off: u64,
    tail: Seq<u8>,
    idx_text: Seq<u8>,
)
    requires
        head.len() == 24,
        gap.len() == 2,
        pad.len() == 8,
        mid.len() == 2,
        tail.len() == 16,
        offs.len() <= u32::MAX,
        idx_text.len() <= u32::MAX,
        0 <= q,
        ({
            let e = vqm_item_front(head, p, gap, pad, offs.len()) + epr_bytes(offs) + item_back(
                fs,
                mid,
                snd_id,
                snd_off,
                tail,
            ) + field(idx_text);
            q + e.len() <= d.len() && d.subrange(q, q + e.len()) == e
        }),
    ensures
        ({
            let e = vqm_item_front(head, p, gap, pad, offs.len()) + epr_bytes(offs) + item_back(
                fs,
                mid,
                snd_id,
                snd_off,
                tail,
            ) + field(idx_text);
            let r = q + 66 + 8 * offs.len();
            vqm_item(d, q) == match parse_u32(lossy_text(idx_text)) {
                Some(idx) => Ok::<((u32, VqmItemV), int), ParseError>(
                    (
                        (
                            idx,
                            VqmItemV {
                                params: p,
                                epr: eprs_from(q + 66, offs),
                                fs,
                                snd: SndRef { pos: (r + 10) as u64, off: snd_off, id: snd_id },
                            },
                        ),
                        q + e.len(),
                    ),
                ),
                None => Err(ParseError::InvalidIndex),
            }
        }),
{
    let front = vqm_item_front(head, p, gap, pad, offs.len());
    let be = epr_bytes(offs);
    let back = item_back(fs, mid, snd_id, snd_off, tail);
    let n = offs.len();
    lemma_item_parts_len(head, p, gap, pad, n, fs, mid, snd_id, snd_off, tail);
    lemma_epr_bytes_len(offs);
    lemma_split(d, q, front + be + back, field(idx_text));
    lemma_split(d, q, front + be, back);
    lemma_split(d, q, front, be);
    lemma_vqm_front_in(d, q, head, p, gap, pad, n);
    lemma_eprs_in(d, q + 66, offs);
    lemma_item_back_in(d, q + 66 + 8 * n, fs, mid, snd_id, snd_off, tail);
    lemma_text_in(d, q + 100 + 8 * n, idx_text);
}

// ---------------------------------------------------------------- STA

/// A stationary sample at `q`: 24 header bytes, the voice parameters and 24
/// more bytes, a skipped string, the sound length, 12 bytes, a skipped
/// string, 4 bytes, the EpR list, the sampling rate, two bytes, the sound
/// reference, 16 skipped bytes and the index string that keys it.
pub open spec fn stap_item(d: Seq<u8>, q: int) -> Result<((Seq<u8>, StapItemV), int), ParseError> {
    if !fits(d, q, 78) {
        Err(ParseError::UnexpectedEof)
    } else {
        match text_field(d, q + 78) {
            Err(e) => Err(e),
            Ok((_, t)) => if !fits(d, t, 16) {
                Err(ParseError::UnexpectedEof)
            } else {
                match text_field(d, t + 16) {
                    Err(e) => Err(e),
                    Ok((_, u)) => if !fits(d, u, 8) {
                        Err(ParseError::UnexpectedEof)
                    } else {
                        match epr_list(d, u + 8, le32(d, u + 4) as nat) {
                            Err(e) => Err(e),
                            Ok((epr, r)) => if !fits(d, r, 34) {
                                Err(ParseError::UnexpectedEof)
                            } else {
                                match text_field(d, r + 34) {
                                    Err(e) => Err(e),
                                    Ok((idx_text, s)) => Ok(
                                        (
                                            (
                                                idx_text,
                                                StapItemV {
                                                    params: params_at(d, q + 24),
                                                    epr,
                                                    fs: le32(d, r),
                                                    snd: snd_at(d, r),
                                                    snd_length: le32(d, t),
                                                },
                                            ),
                                            s,
                                        ),
                                    ),
                                }
                            },
                        }
                    },
                }
            },
        }
    }
}

pub open spec fn stap_item_at(d: Seq<u8>) -> spec_fn(int) -> Result<((Seq<u8>, StapItemV), int), ParseError> {
    |q: int| stap_item(d, q)
}

/// The front of a stationary sample record: 24 header bytes, the voice
/// parameters (with two bytes `gap` after the duration) and 24 bytes `pad`.
#[verifier::opaque]
pub open spec fn stap_item_front(head: Seq<u8>, p: VoiceParams, gap: Seq<u8>, pad: Seq<u8>) -> Seq<u8> {
    head + params_bytes(p, gap) + pad
}

/// The sound length and 12 bytes `pad`, as a stationary sample record holds
/// them between its two skipped strings.
pub open spec fn snd_length_bytes(snd_length: u32, pad: Seq<u8>) -> Seq<u8> {
    enc32(snd_length) + pad
}

/// Four bytes `pad` and the number of EpR references `n`.
pub open spec fn count_bytes(pad: Seq<u8>, n: nat) -> Seq<u8> {
    pad + enc32(n as u32)
}

/// The front of a stationary sample record takes 78 bytes.
pub proof fn lemma_stap_front_len(head: Seq<u8>, p: VoiceParams, gap: Seq<u8>, pad: Seq<u8>)
    requires
        head.len() == 24,
        gap.len() == 2,
        pad.len() == 24,
    ensures
        stap_item_front(head, p, gap, pad).len() == 78,
{
    reveal(stap_item_front);
}

/// The front of a stationary sample record laid down at `q` reads back as
/// its voice parameters.
pub proof fn lemma_stap_front_in(d: Seq<u8>, q: int, head: Seq<u8>, p: VoiceParams, gap: Seq<u8>, pad: Seq<u8>)
    requires
        0 <= q,
        q + 78 <= d.len(),
        head.len() == 24,
        gap.len() == 2,
        pad.len() == 24,
        d.subrange(q, q + 78) == stap_item_front(head, p, gap, pad),
    ensures
        params_at(d, q + 24) == p,
{
    reveal(stap_item_front);
    lemma_split(d, q, head + params_bytes(p, gap), pad);
    lemma_split(d, q, head, params_bytes(p, gap));
    lemma_params_in(d, q + 24, p, gap);
}

/// A stationary sample record laid down at `q`: where each of its pieces
/// lies.
#[verifier::rlimit(40)]
pub proof fn lemma_stap_split(
    d: Seq<u8>,
    q: int,
    f: Seq<u8>,
    s1: Seq<u8>,
    m: Seq<u8>,
    s2: Seq<u8>,
    c: Seq<u8>,
    be: Seq<u8>,
    back: Seq<u8>,
    idx_text: Seq<u8>,
)
    requires
        0 <= q,
        f.len() == 78,
        m.len() == 16,
        c.len() == 8,
        back.len() == 34,
        ({
            let e = f + field(s1) + m + field(s2) + c + be + back + field(idx_text);
            q + e.len() <= d.len() && d.subrange(q, q + e.len()) == e
        }),
    ensures
        ({
            let t = q + 82 + s1.len();
            let u = t + 20 + s2.len();
            let r = u + 8 + be.len();
            &&& d.subrange(q, q + 78) == f
            &&& d.subrange(q + 78, t) == field(s1)
            &&& d.subrange(t, t + 16) == m
            &&& d.subrange(t + 16, u) == field(s2)
            &&& d.subrange(u, u + 8) == c
            &&& d.subrange(u + 8, r) == be
            &&& d.subrange(r, r + 34) == back
            &&& d.subrange(r + 34, r + 38 + idx_text.len()) == field(idx_text)
            &&& r + 38 + idx_text.len() <= d.len()
        }),
{
    let x1 = f + field(s1);
    let x2 = x1 + m;
    let x3 = x2 + field(s2);
    let x4 = x3 + c;
    let x5 = x4 + be;
    let x6 = x5 + back;
    lemma_split(d, q, x6, field(idx_text));
    lemma_split(d, q, x5, back);
    lemma_split(d, q, x4, be);
    lemma_split(d, q, x3, c);
    lemma_split(d, q, x2, field(s2));
    lemma_split(d, q, x1, m);
    lemma_split(d, q, f, field(s1));
}

/// The pieces of a stationary sample record laid down at `q` read back one
/// by one.
#[verifier::rlimit(40)]
pub proof fn lemma_stap_pieces_in(
    d: Seq<u8>,
    q: int,
    head: Seq<u8>,
    p: VoiceParams,
    gap: Seq<u8>,
    pad: Seq<u8>,
    s1: Seq<u8>,
    snd_length: u32,
    pad12: Seq<u8>,
    s2: Seq<u8>,
    pad4: Seq<u8>,
    offs: Seq<u64>,
    fs: u32,
    mid: Seq<u8>,
    snd_id: u32,
    snd_off: u64,
    tail: Seq<u8>,
    idx_text: Seq<u8>,
)
    requires
        head.len() == 24,
        gap.len() == 2,
        pad.len() == 24,
        pad12.len() == 12,
        pad4.len() == 4,
        mid.len() == 2,
        tail.len() == 16,
        s1.len() <= u32::MAX,
        s2.len() <= u32::MAX,
        offs.len() <= u32::MAX,
        idx_text.len() <= u32::MAX,
        0 <= q,
        ({
            let t = q + 82 + s1.len();
            let u = t + 20 + s2.len();
            let r = u + 8 + 8 * offs.len();
            &&& d.subrange(q, q + 78) == stap_item_front(head, p, gap, pad)
            &&& d.subrange(q + 78, t) == field(s1)
            &&& d.subrange(t, t + 16) == snd_length_bytes(snd_length, pad12)
            &&& d.subrange(t + 16, u) == field(s2)
            &&& d.subrange(u, u + 8) == count_bytes(pad4, offs.len())
            &&& d.subrange(u + 8, r) == epr_bytes(offs)
            &&& d.subrange(r, r + 34) == item_back(fs, mid, snd_id, snd_off, tail)
            &&& d.subrange(r + 34, r + 38 + idx_text.len()) == field(idx_text)
            &&& r + 38 + idx_text.len() <= d.len()
        }),
    ensures
        ({
            let t = q + 82 + s1.len();
            let u = t + 20 + s2.len();
            let r = u + 8 + 8 * offs.len();
            &&& params_at(d, q + 24) == p
            &&& text_field(d, q + 78) == Ok::<(Seq<u8>, int), ParseError>((lossy_text(s1), t))
            &&& le32(d, t) == snd_length
            &&& text_field(d, t + 16) == Ok::<(Seq<u8>, int), ParseError>((lossy_text(s2), u))
            &&& le32(d, u + 4) == offs.len()
            &&& epr_list(d, u + 8, offs.len()) == Ok::<(Seq<EprRef>, int), ParseError>((eprs_from(u + 8, offs), r))
            &&& le32(d, r) == fs
            &&& snd_at(d, r) == (SndRef { pos: (r + 10) as u64, off: snd_off, id: snd_id })
            &&& text_field(d, r + 34) == Ok::<(Seq<u8>, int), ParseError>(
                (lossy_text(idx_text), r + 38 + idx_text.len()),
            )
        }),
{
    let n = offs.len();
    lemma_epr_bytes_len(offs);
    lemma_stap_front_in(d, q, head, p, gap, pad);
    lemma_text_in(d, q + 78, s1);
    let t = q + 82 + s1.len();
    lemma_split(d, t, enc32(snd_length), pad12);
    lemma_le32_in(d, t, snd_length);
    lemma_text_in(d, t + 16, s2);
    let u = t + 20 + s2.len();
    lemma_split(d, u, pad4, enc32(n as u32));
    lemma_le32_in(d, u + 4, n as u32);
    lemma_eprs_in(d, u + 8, offs);
    let r = u + 8 + 8 * n;
    lemma_item_back_in(d, r, fs, mid, snd_id, snd_off, tail);
    lemma_text_in(d, r + 34, idx_text);
}

/// Law: a stationary sample record written as 24 header bytes, the voice
/// parameters, 24 bytes, a string, the sound length, 12 bytes, a string, 4
/// bytes, the number of EpR references, their offsets, the sampling rate, 2
/// bytes, the sound id, the sound offset, 16 bytes and the index string,
/// wherever it lies in the data, reads back as the index string's text and
/// a sample with those parameters, EpR references (each noting where its
/// offset field sits), rate, sound reference and sound length; the two
/// strings in between are passed over, and reading stops right after the
/// index string.
#[verifier::rlimit(40)]
pub proof fn lemma_stap_item_reads_back(
    d: Seq<u8>,
    q: int,
    head: Seq<u8>,
    p: VoiceParams,
    gap: Seq<u8>,
    pad: Seq<u8>,
    s1: Seq<u8>,
    snd_length: u32,
    pad12: Seq<u8>,
    s2: Seq<u8>,
    pad4: Seq<u8>,
    offs: Seq<u64>,
    fs: u32,
    mid: Seq<u8>,
    snd_id: u32,
    snd_off: u64,
    tail: Seq<u8>,
    idx_text: Seq<u8>,
)
    requires
        head.len() == 24,
        gap.len() == 2,
        pad.len() == 24,
        pad12.len() == 12,
        pad4.len() == 4,
        mid.len() == 2,
        tail.len() == 16,
        s1.len() <= u32::MAX,
        s2.len() <= u32::MAX,
        offs.len() <= u32::MAX,
        idx_text.len() <= u32::MAX,
        0 <= q,
        ({
            let e = stap_item_front(head, p, gap, pad) + field(s1) + snd_length_bytes(snd_length, pad12) + field(s2)
                + count_bytes(pad4, offs.len()) + epr_bytes(offs) + item_back(fs, mid, snd_id, snd_off, tail) + field(
                idx_text,
            );
            q + e.len() <= d.len() && d.subrange(q, q + e.len()) == e
        }),
    ensures
        ({
            let e = stap_item_front(head, p, gap, pad) + field(s1) + snd_length_bytes(snd_length, pad12) + field(s2)
                + count_bytes(pad4, offs.len()) + epr_bytes(offs) + item_back(fs, mid, snd_id, snd_off, tail) + field(
                idx_text,
            );
            let u = q + 102 + s1.len() + s2.len();
            let r = u + 8 + 8 * offs.len();
            stap_item(d, q) == Ok::<((Seq<u8>, StapItemV), int), ParseError>(
                (
                    (
                        lossy_text(idx_text),
                        StapItemV {
                            params: p,
                            epr: eprs_from(u + 8, offs),
                            fs,
                            snd: SndRef { pos: (r + 10) as u64, off: snd_off, id: snd_id },
                            snd_length,
                        },
                    ),
                    q + e.len(),
                ),
            )
        }),
{
    lemma_item_parts_len(head, p, gap, pad4 + pad4, offs.len(), fs, mid, snd_id, snd_off, tail);
    lemma_epr_bytes_len(offs);
    lemma_stap_front_len(head, p, gap, pad);
    lemma_stap_split(
        d,
        q,
        stap_item_front(head, p, gap, pad),
        s1,
        snd_length_bytes(snd_length, pad12),
        s2,
        count_bytes(pad4, offs.len()),
        epr_bytes(offs),
        item_back(fs, mid, snd_id, snd_off, tail),
        idx_text,
    );
    lemma_stap_pieces_in(d, q, head, p, gap, pad, s1, snd_length, pad12, s2, pad4, offs, fs, mid, snd_id, snd_off, tail, idx_text);
}

/// A stationary at `q`: 24 header bytes, its index, 8 bytes, a count, the
/// samples (keyed by index string) and the phoneme.
pub open spec fn sta_entry(d: Seq<u8>, q: int) -> Result<((u32, StaEntryV), int), ParseError> {
    if !fits(d, q, 40) {
        Err(ParseError::UnexpectedEof)
    } else {
        match rep(stap_item_at(d), q + 40, le32(d, q + 36) as nat) {
            Err(e) => Err(e),
            Ok((items, r)) => match text_field(d, r) {
                Err(e) => Err(e),
                Ok((phoneme, s)) => Ok(
                    (
                        (
                            le32(d, q + 24),
                            StaEntryV { phoneme, stap: map_of::<Vec<u8>, StapItemV>(items) },
                        ),
                        s,
                    ),
                ),
            },
        }
    }
}

/// Law: a stationary laid down at `q` as 24 header bytes, its index, 8
/// bytes, the number of its samples, the samples one after another and its
/// phoneme string reads back as its index and a stationary with that
/// phoneme whose samples are those read, keyed by their index texts (a
/// later one with the same index replacing an earlier one); reading stops
/// right after the phoneme.
pub proof fn lemma_sta_entry_reads_back(
    d: Seq<u8>,
    q: int,
    idx: u32,
    starts: Seq<int>,
    items: Seq<(Seq<u8>, StapItemV)>,
    phoneme: Seq<u8>,
)
    requires
        0 <= q,
        q + 40 <= d.len(),
        items.len() <= u32::MAX,
        phoneme.len() <= u32::MAX,
        d.subrange(q + 24, q + 28) == enc32(idx),
        d.subrange(q + 36, q + 40) == enc32(items.len() as u32),
        starts.len() == items.len() + 1,
        starts[0] == q + 40,
        forall|i: int|
            0 <= i < items.len() ==> #[trigger] stap_item(d, starts[i]) == Ok::<((Seq<u8>, StapItemV), int), ParseError>(
                (items[i], starts[i + 1]),
            ),
        0 <= starts[items.len() as int],
        starts[items.len() as int] + 4 + phoneme.len() <= d.len(),
        d.subrange(starts[items.len() as int], starts[items.len() as int] + 4 + phoneme.len()) == field(phoneme),
    ensures
        sta_entry(d, q) == Ok::<((u32, StaEntryV), int), ParseError>(
            (
                (idx, StaEntryV { phoneme: lossy_text(phoneme), stap: map_of::<Vec<u8>, StapItemV>(items) }),
                starts[items.len() as int] + 4 + phoneme.len(),
            ),
        ),
{
    lemma_le32_in(d, q + 24, idx);
    lemma_le32_in(d, q + 36, items.len() as u32);
    assert forall|i: int| 0 <= i < items.len() implies #[trigger] stap_item_at(d)(starts[i]) == Ok::<
        ((Seq<u8>, StapItemV), int),
        ParseError,
    >((items[i], starts[i + 1])) by {
        assert(stap_item(d, starts[i]) == Ok::<((Seq<u8>, StapItemV), int), ParseError>((items[i], starts[i + 1])));
    }
    lemma_rep_chain(stap_item_at(d), starts, items);
    lemma_text_in(d, starts[items.len() as int], phoneme);
}

pub open spec fn sta_entry_at(d: Seq<u8>) -> spec_fn(int) -> Result<((u32, StaEntryV), int), ParseError> {
    |q: int| sta_entry(d, q)
}

/// The STA section at `p`: 8 bytes, an array record, 24 bytes, a count, the
/// stationaries (keyed by index) and two trailing strings.
pub open spec fn sta_section(d: Seq<u8>, p: int) -> Result<(Seq<(u32, StaEntryV)>, int), ParseError> {
    if !fits(d, p, 56) {
        Err(ParseError::UnexpectedEof)
    } else {
        match rep(sta_entry_at(d), p + 56, le32(d, p + 52) as nat) {
            Err(e) => Err(e),
            Ok((items, q)) => match text_field(d, q) {
                Err(e) => Err(e),
                Ok((_, r)) => match text_field(d, r) {
                    Err(e) => Err(e),
                    Ok((_, s)) => Ok((map_of::<u32, StaEntryV>(items), s)),
                },
            },
        }
    }
}

/// Law: a VQM section laid down at `p` as 52 header bytes, the number of
/// its samples, 4 bytes, the samples one after another and two strings
/// reads back as the samples read, keyed by their indexes (a later one
/// with the same index replacing an earlier one); reading stops right
/// after the second string.
pub proof fn lemma_vqm_section_reads_back(
    d: Seq<u8>,
    p: int,
    starts: Seq<int>,
    items: Seq<(u32, VqmItemV)>,
    t1: Seq<u8>,
    t2: Seq<u8>,
)
    requires
        0 <= p,
        p + 60 <= d.len(),
        items.len() <= u32::MAX,
        t1.len() <= u32::MAX,
        t2.len() <= u32::MAX,
        d.subrange(p + 52, p + 56) == enc32(items.len() as u32),
        starts.len() == items.len() + 1,
        starts[0] == p + 60,
        forall|i: int|
            0 <= i < items.len() ==> #[trigger] vqm_item(d, starts[i]) == Ok::<((u32, VqmItemV), int), ParseError>(
                (items[i], starts[i + 1]),
            ),
        ({
            let e = starts[items.len() as int];
            &&& 0 <= e
            &&& e + 8 + t1.len() + t2.len() <= d.len()
            &&& d.subrange(e, e + 4 + t1.len()) == field(t1)
            &&& d.subrange(e + 4 + t1.len(), e + 8 + t1.len() + t2.len()) == field(t2)
        }),
    ensures
        vqm_section(d, p) == Ok::<(Seq<(u32, VqmItemV)>, int), ParseError>(
            (map_of::<u32, VqmItemV>(items), starts[items.len() as int] + 8 + t1.len() + t2.len()),
        ),
{
    let e = starts[items.len() as int];
    lemma_le32_in(d, p + 52, items.len() as u32);
    assert forall|i: int| 0 <= i < items.len() implies #[trigger] vqm_item_at(d)(starts[i]) == Ok::<
        ((u32, VqmItemV), int),
        ParseError,
    >((items[i], starts[i + 1])) by {
        assert(vqm_item(d, starts[i]) == Ok::<((u32, VqmItemV), int), ParseError>((items[i], starts[i + 1])));
    }
    lemma_rep_chain(vqm_item_at(d), starts, items);
    lemma_text_in(d, e, t1);
    lemma_text_in(d, e + 4 + t1.len(), t2);
}

/// Law: an STA section laid down at `p` as 52 header bytes, the number of
/// its stationaries, the stationaries one after another and two strings
/// reads back as the stationaries read, keyed by their indexes (a later one
/// with the same index replacing an earlier one); reading stops right after
/// the second string.
pub proof fn lemma_sta_section_reads_back(
    d: Seq<u8>,
    p: int,
    starts: Seq<int>,
    items: Seq<(u32, StaEntryV)>,
    t1: Seq<u8>,
    t2: Seq<u8>,
)
    requires
        0 <= p,
        p + 56 <= d.len(),
        items.len() <= u32::MAX,
        t1.len() <= u32::MAX,
        t2.len() <= u32::MAX,
        d.subrange(p + 52, p + 56) == enc32(items.len() as u32),
        starts.len() == items.len() + 1,
        starts[0] == p + 56,
        forall|i: int|
            0 <= i < items.len() ==> #[trigger] sta_entry(d, starts[i]) == Ok::<((u32, StaEntryV), int), ParseError>(
                (items[i], starts[i + 1]),
            ),
        ({
            let e = starts[items.len() as int];
            &&& 0 <= e
            &&& e + 8 + t1.len() + t2.len() <= d.len()
            &&& d.subrange(e, e + 4 + t1.len()) == field(t1)
            &&& d.subrange(e + 4 + t1.len(), e + 8 + t1.len() + t2.len()) == field(t2)
        }),
    ensures
        sta_section(d, p) == Ok::<(Seq<(u32, StaEntryV)>, int), ParseError>(
            (map_of::<u32, StaEntryV>(items), starts[items.len() as int] + 8 + t1.len() + t2.len()),
        ),
{
    let e = starts[items.len() as int];
    lemma_le32_in(d, p + 52, items.len() as u32);
    assert forall|i: int| 0 <= i < items.len() implies #[trigger] sta_entry_at(d)(starts[i]) == Ok::<
        ((u32, StaEntryV), int),
        ParseError,
    >((items[i], starts[i + 1])) by {
        assert(sta_entry(d, starts[i]) == Ok::<((u32, StaEntryV), int), ParseError>((items[i], starts[i + 1])));
    }
    lemma_rep_chain(sta_entry_at(d), starts, items);
    lemma_text_in(d, e, t1);
    lemma_text_in(d, e + 4 + t1.len(), t2);
}

// ---------------------------------------------------------------- ART

/// The signature `ART `.
pub open spec fn art_sig() -> Seq<u8> {
    seq![65u8, 82u8, 84u8, 32u8]
}

/// The tag `default` that ends a frame alignment block.
pub open spec fn default_tag() -> Seq<u8> {
    seq![100u8, 101u8, 102u8, 97u8, 117u8, 108u8, 116u8]
}

/// The string `articulation` that ends the ART section.
pub open spec fn articulation_text() -> Seq<u8> {
    seq![97u8, 114u8, 116u8, 105u8, 99u8, 117u8, 108u8, 97u8, 116u8, 105u8, 111u8, 110u8]
}

/// Every byte of `s` is `b`.
pub open spec fn filled(s: Seq<u8>, b: u8) -> bool {
    forall|i: int| 0 <= i < s.len() ==> #[trigger] s[i] == b
}

/// The frame alignment that follows a sample's sound references at `w`:
/// the bytes before the first `default` within the next 1024 bytes (less
/// four) form the block. A block longer than four bytes is a count and that
/// many groups of four words; a shorter one is its word, or a zero.
#[verifier::opaque]
pub open spec fn frame_align(d: Seq<u8>, w: int) -> Result<(FrameAlignV, int), ParseError> {
    let end = if w + 1024 <= d.len() { w + 1024 } else { d.len() as int };
    let window = d.subrange(w, end);
    match choose|r: Option<usize>| is_first_match(window, default_tag(), r) {
        None => Ok((FrameAlignV::Absent, w)),
        Some(ap) => if ap < 4 {
            Err(ParseError::Corrupt)
        } else {
            let al = ap - 4;
            if !fits(d, w, al) {
                Err(ParseError::UnexpectedEof)
            } else if al > 4 {
                let g = le32(d, w);
                if 16 * g > al - 4 {
                    Err(ParseError::UnexpectedEof)
                } else {
                    Ok(
                        (
                            FrameAlignV::Groups(
                                Seq::new(
                                    g as nat,
                                    |i: int|
                                        AlignGroup {
                                            start: le32(d, w + 4 + 16 * i),
                                            end: le32(d, w + 8 + 16 * i),
                                            start2: le32(d, w + 12 + 16 * i),
                                            end2: le32(d, w + 16 + 16 * i),
                                        },
                                ),
                            ),
                            w + al,
                        ),
                    )
                }
            } else if al == 4 {
                Ok((FrameAlignV::Values(seq![le32(d, w)]), w + al))
            } else if al > 0 {
                Ok((FrameAlignV::Values(seq![0u32]), w + al))
            } else {
                Ok((FrameAlignV::Values(Seq::empty()), w + al))
            }
        },
    }
}

/// The part of an articulation sample before its EpR count: 74 bytes, a
/// skipped string, 16 bytes and a skipped string. Yields where the count sits.
pub open spec fn artp_prefix(d: Seq<u8>, s: int) -> Result<int, ParseError> {
    if !fits(d, s, 74) {
        Err(ParseError::UnexpectedEof)
    } else {
        match text_field(d, s + 74) {
            Err(e) => Err(e),
            Ok((_, t)) => if !fits(d, t, 16) {
                Err(ParseError::UnexpectedEof)
            } else {
                match text_field(d, t + 16) {
                    Err(e) => Err(e),
                    Ok((_, u)) => Ok(u),
                }
            },
        }
    }
}

/// The sound references of an articulation sample at `v`: the sampling
/// rate, two bytes, the sound id, and the offsets of the sound and of its
/// start, each stored 0x12 past the value reported (a smaller stored value
/// is corrupt).
pub open spec fn artp_sounds(d: Seq<u8>, v: int) -> Result<(SndRef, SndRef), ParseError> {
    if !fits(d, v, 18) {
        Err(ParseError::UnexpectedEof)
    } else if le64(d, v + 10) < 0x12 {
        Err(ParseError::Corrupt)
    } else if !fits(d, v + 18, 8) {
        Err(ParseError::UnexpectedEof)
    } else if le64(d, v + 18) < 0x12 {
        Err(ParseError::Corrupt)
    } else {
        Ok(
            (
                SndRef { pos: (v + 10) as u64, off: (le64(d, v + 10) - 0x12) as u64, id: le32(d, v + 6) },
                SndRef { pos: (v + 18) as u64, off: (le64(d, v + 18) - 0x12) as u64, id: le32(d, v + 6) },
            ),
        )
    }
}

/// An articulation sample at `s`: its DEV offset, 16 bytes, the voice
/// parameters, 4 bytes, its index (which keys it, in decimal), 8 bytes, a
/// skipped string, 16 bytes, a skipped string, the EpR count and list, the
/// sampling rate and sound references, the frame alignment and a skipped
/// string.
#[verifier::opaque]
pub open spec fn artp_item(d: Seq<u8>, s: int) -> Result<((Seq<u8>, ArtpItemV), int), ParseError> {
    match artp_prefix(d, s) {
        Err(e) => Err(e),
        Ok(u) => if !fits(d, u, 4) {
            Err(ParseError::UnexpectedEof)
        } else {
            match epr_list(d, u + 4, le32(d, u) as nat) {
                Err(e) => Err(e),
                Ok((epr, v)) => match artp_sounds(d, v) {
                    Err(e) => Err(e),
                    Ok((snd, snd_start)) => match frame_align(d, v + 26) {
                        Err(e) => Err(e),
                        Ok((fa, x)) => match text_field(d, x) {
                            Err(e) => Err(e),
                            Ok((_, y)) => Ok(
                                (
                                    (
                                        dec(le64(d, s + 58) as nat),
                                        ArtpItemV {
                                            dev_artp: le64(d, s),
                                            params: params_at(d, s + 24),
                                            epr,
                                            fs: le32(d, v),
                                            snd,
                                            snd_start,
                                            frame_align: fa,
                                        },
                                    ),
                                    y,
                                ),
                            ),
                        },
                    },
                },
            }
        },
    }
}

/// The front of an articulation sample record: its `dev_artp` value, 16
/// header bytes `h16`, the voice parameters (with two bytes `gap` after the
/// duration), 4 bytes `pad4`, its index number and 8 bytes `pad8`.
#[verifier::opaque]
pub open spec fn artp_front(dev: u64, h16: Seq<u8>, p: VoiceParams, gap: Seq<u8>, pad4: Seq<u8>, idx: u64, pad8: Seq<u8>) -> Seq<u8> {
    enc64(dev) + h16 + params_bytes(p, gap) + pad4 + enc64(idx) + pad8
}

/// The sound references of an articulation sample as its record holds
/// them: the sampling rate, two bytes `mid`, the sound id, and the stored
/// offsets of the sound and of its start.
pub open spec fn artp_sounds_bytes(fs: u32, mid: Seq<u8>, snd_id: u32, snd_off: u64, start_off: u64) -> Seq<u8> {
    enc32(fs) + mid + enc32(snd_id) + enc64(snd_off) + enc64(start_off)
}

/// The front of an articulation sample record laid down at `s` reads back
/// as its `dev_artp` value, its voice parameters and its index number.
pub proof fn lemma_artp_front_in(
    d: Seq<u8>,
    s: int,
    dev: u64,
    h16: Seq<u8>,
    p: VoiceParams,
    gap: Seq<u8>,
    pad4: Seq<u8>,
    idx: u64,
    pad8: Seq<u8>,
)
    requires
        0 <= s,
        s + 74 <= d.len(),
        h16.len() == 16,
        gap.len() == 2,
        pad4.len() == 4,
        pad8.len() == 8,
        d.subrange(s, s + 74) == artp_front(dev, h16, p, gap, pad4, idx, pad8),
    ensures
        le64(d, s) == dev,
        params_at(d, s + 24) == p,
        le64(d, s + 58) == idx,
{
    reveal(artp_front);
    let a = enc64(dev) + h16;
    let b = a + params_bytes(p, gap);
    let c = b + pad4;
    let e = c + enc64(idx);
    lemma_split(d, s, e, pad8);
    lemma_split(d, s, c, enc64(idx));
    lemma_split(d, s, b, pad4);
    lemma_split(d, s, a, params_bytes(p, gap));
    lemma_split(d, s, enc64(dev), h16);
    lemma_le64_in(d, s, dev);
    lemma_params_in(d, s + 24, p, gap);
    lemma_le64_in(d, s + 58, idx);
}

/// The sound references of an articulation sample laid down at `v` read
/// back, when both stored offsets are at least 0x12, as the sound and the
/// sound's start, each 0x12 bytes before its stored offset and each noting
/// where its offset field sits, both with the sound id.
pub proof fn lemma_artp_sounds_in(d: Seq<u8>, v: int, fs: u32, mid: Seq<u8>, snd_id: u32, snd_off: u64, start_off: u64)
    requires
        0 <= v,
        v + 26 <= d.len(),
        mid.len() == 2,
        snd_off >= 0x12,
        start_off >= 0x12,
        d.subrange(v, v + 26) == artp_sounds_bytes(fs, mid, snd_id, snd_off, start_off),
    ensures
        le32(d, v) == fs,
        artp_sounds(d, v) == Ok::<(SndRef, SndRef), ParseError>(
            (
                SndRef { pos: (v + 10) as u64, off: (snd_off - 0x12) as u64, id: snd_id },
                SndRef { pos: (v + 18) as u64, off: (start_off - 0x12) as u64, id: snd_id },
            ),
        ),
{
    let a = enc32(fs) + mid;
    let b = a + enc32(snd_id);
    let c = b + enc64(snd_off);
    lemma_split(d, v, c, enc64(start_off));
    lemma_split(d, v, b, enc64(snd_off));
    lemma_split(d, v, a, enc32(snd_id));
    lemma_split(d, v, enc32(fs), mid);
    lemma_le32_in(d, v, fs);
    lemma_le32_in(d, v + 6, snd_id);
    lemma_le64_in(d, v + 10, snd_off);
    lemma_le64_in(d, v + 18, start_off);
}

/// The pieces of an articulation sample record laid down at `s`, up to
/// its sound references, read back one by one.
#[verifier::rlimit(40)]
pub proof fn lemma_artp_pieces_in(
    d: Seq<u8>,
    s: int,
    dev: u64,
    h16: Seq<u8>,
    p: VoiceParams,
    gap: Seq<u8>,
    pad4: Seq<u8>,
    idx: u64,
    pad8: Seq<u8>,
    s1: Seq<u8>,
    s2: Seq<u8>,
    offs: Seq<u64>,
    fs: u32,
    mid: Seq<u8>,
    snd_id: u32,
    snd_off: u64,
    start_off: u64,
)
    requires
        h16.len() == 16,
        gap.len() == 2,
        pad4.len() == 4,
        pad8.len() == 8,
        mid.len() == 2,
        s1.len() <= u32::MAX,
        s2.len() <= u32::MAX,
        offs.len() <= u32::MAX,
        snd_off >= 0x12,
        start_off >= 0x12,
        0 <= s,
        ({
            let t = s + 78 + s1.len();
            let u = t + 20 + s2.len();
            let v = u + 4 + 8 * offs.len();
            &&& d.subrange(s, s + 74) == artp_front(dev, h16, p, gap, pad4, idx, pad8)
            &&& d.subrange(s + 74, t) == field(s1)
            &&& d.subrange(t + 16, u) == field(s2)
            &&& d.subrange(u, u + 4) == enc32(offs.len() as u32)
            &&& d.subrange(u + 4, v) == epr_bytes(offs)
            &&& d.subrange(v, v + 26) == artp_sounds_bytes(fs, mid, snd_id, snd_off, start_off)
            &&& v + 26 <= d.len()
        }),
    ensures
        ({
            let u = s + 98 + s1.len() + s2.len();
            let v = u + 4 + 8 * offs.len();
            &&& artp_prefix(d, s) == Ok::<int, ParseError>(u)
            &&& le64(d, s) == dev
            &&& params_at(d, s + 24) == p
            &&& le64(d, s + 58) == idx
            &&& fits(d, u, 4)
            &&& le32(d, u) == offs.len()
            &&& epr_list(d, u + 4, offs.len()) == Ok::<(Seq<EprRef>, int), ParseError>((eprs_from(u + 4, offs), v))
            &&& le32(d, v) == fs
            &&& artp_sounds(d, v) == Ok::<(SndRef, SndRef), ParseError>(
                (
                    SndRef { pos: (v + 10) as u64, off: (snd_off - 0x12) as u64, id: snd_id },
                    SndRef { pos: (v + 18) as u64, off: (start_off - 0x12) as u64, id: snd_id },
                ),
            )
        }),
{
    let n = offs.len();
    lemma_epr_bytes_len(offs);
    lemma_artp_front_in(d, s, dev, h16, p, gap, pad4, idx, pad8);
    lemma_text_in(d, s + 74, s1);
    let t = s + 78 + s1.len();
    lemma_text_in(d, t + 16, s2);
    let u = t + 20 + s2.len();
    lemma_le32_in(d, u, n as u32);
    lemma_eprs_in(d, u + 4, offs);
    let v = u + 4 + 8 * n;
    lemma_artp_sounds_in(d, v, fs, mid, snd_id, snd_off, start_off);
}

/// Law: an articulation sample record laid down at `s` as its `dev_artp`
/// value, 16 header bytes, the voice parameters, 4 bytes, its index number,
/// 8 bytes, a string, 16 bytes, a string, the number of EpR references,
/// their offsets, the sampling rate, 2 bytes, the sound id and the stored
/// offsets of the sound and of its start (both at least 0x12), followed by
/// a frame alignment block and a name string, reads back as the decimal
/// text of its index number and a sample with that `dev_artp` value, those
/// parameters, EpR references (each noting where its offset field sits)
/// and rate, a sound and a sound start 0x12 bytes before their stored
/// offsets, and the frame alignment read after the sound references;
/// reading stops right after the name string.
#[verifier::rlimit(40)]
pub proof fn lemma_artp_item_reads_back(
    d: Seq<u8>,
    s: int,
    dev: u64,
    h16: Seq<u8>,
    p: VoiceParams,
    gap: Seq<u8>,
    pad4: Seq<u8>,
    idx: u64,
    pad8: Seq<u8>,
    s1: Seq<u8>,
    s2: Seq<u8>,
    offs: Seq<u64>,
    fs: u32,
    mid: Seq<u8>,
    snd_id: u32,
    snd_off: u64,
    start_off: u64,
    fa: FrameAlignV,
    x: int,
    name: Seq<u8>,
)
    requires
        h16.len() == 16,
        gap.len() == 2,
        pad4.len() == 4,
        pad8.len() == 8,
        mid.len() == 2,
        s1.len() <= u32::MAX,
        s2.len() <= u32::MAX,
        offs.len() <= u32::MAX,
        name.len() <= u32::MAX,
        snd_off >= 0x12,
        start_off >= 0x12,
        0 <= s,
        ({
            let t = s + 78 + s1.len();
            let u = t + 20 + s2.len();
            let v = u + 4 + 8 * offs.len();
            &&& d.subrange(s, s + 74) == artp_front(dev, h16, p, gap, pad4, idx, pad8)
            &&& d.subrange(s + 74, t) == field(s1)
            &&& d.subrange(t + 16, u) == field(s2)
            &&& d.subrange(u, u + 4) == enc32(offs.len() as u32)
            &&& d.subrange(u + 4, v) == epr_bytes(offs)
            &&& d.subrange(v, v + 26) == artp_sounds_bytes(fs, mid, snd_id, snd_off, start_off)
            &&& v + 26 <= d.len()
            &&& frame_align(d, v + 26) == Ok::<(FrameAlignV, int), ParseError>((fa, x))
            &&& 0 <= x
            &&& x + 4 + name.len() <= d.len()
            &&& d.subrange(x, x + 4 + name.len()) == field(name)
        }),
    ensures
        ({
            let u = s + 98 + s1.len() + s2.len();
            let v = u + 4 + 8 * offs.len();
            artp_item(d, s) == Ok::<((Seq<u8>, ArtpItemV), int), ParseError>(
                (
                    (
                        dec(idx as nat),
                        ArtpItemV {
                            dev_artp: dev,
                            params: p,
                            epr: eprs_from(u + 4, offs),
                            fs,
                            snd: SndRef { pos: (v + 10) as u64, off: (snd_off - 0x12) as u64, id: snd_id },
                            snd_start: SndRef { pos: (v + 18) as u64, off: (start_off - 0x12) as u64, id: snd_id },
                            frame_align: fa,
                        },
                    ),
                    x + 4 + name.len(),
                ),
            )
        }),
{
    reveal(artp_item);
    lemma_artp_pieces_in(d, s, dev, h16, p, gap, pad4, idx, pad8, s1, s2, offs, fs, mid, snd_id, snd_off, start_off);
    lemma_text_in(d, x, name);
}

pub open spec fn artp_item_at(d: Seq<u8>) -> spec_fn(int) -> Result<((Seq<u8>, ArtpItemV), int), ParseError> {
    |s: int| artp_item(d, s)
}

/// An articulation unit at `r` (whose signature is not `ART `): 24 header
/// bytes, its index (which keys it, in decimal), 16 bytes, a count, the
/// samples and the phoneme.
#[verifier::opaque]
pub open spec fn artu_entry(d: Seq<u8>, r: int) -> Result<((Seq<u8>, ArtuEntryV), int), ParseError> {
    if !fits(d, r, 48) {
        Err(ParseError::UnexpectedEof)
    } else {
        match rep(artp_item_at(d), r + 48, le32(d, r + 44) as nat) {
            Err(e) => Err(e),
            Ok((items, t)) => match text_field(d, t) {
                Err(e) => Err(e),
                Ok((phoneme, u)) => Ok(
                    (
                        (
                            dec(le32(d, r + 24) as nat),
                            ArtuEntryV { phoneme, artp: map_of::<Vec<u8>, ArtpItemV>(items) },
                        ),
                        u,
                    ),
                ),
            },
        }
    }
}

/// Items read one after another: when reading at each start gives the next
/// item and the next start, reading them all from the first start gives
/// the items in order and stops at the last start.
pub proof fn lemma_rep_chain<T>(item: spec_fn(int) -> Result<(T, int), ParseError>, starts: Seq<int>, xs: Seq<T>)
    requires
        starts.len() == xs.len() + 1,
        forall|i: int| 0 <= i < xs.len() ==> #[trigger] item(starts[i]) == Ok::<(T, int), ParseError>((xs[i], starts[i + 1])),
    ensures
        rep(item, starts[0], xs.len()) == Ok::<(Seq<T>, int), ParseError>((xs, starts[xs.len() as int])),
    decreases xs.len(),
{
    if xs.len() > 0 {
        let n = xs.len() - 1;
        let xi = xs.drop_last();
        let si = starts.drop_last();
        assert forall|i: int| 0 <= i < xi.len() implies #[trigger] item(si[i]) == Ok::<(T, int), ParseError>((xi[i], si[i + 1])) by {
            assert(si[i] == starts[i] && si[i + 1] == starts[i + 1] && xi[i] == xs[i]);
        }
        lemma_rep_chain(item, si, xi);
        assert(si[0] == starts[0]);
        assert(si[n as int] == starts[n as int]);
        assert(item(starts[n]) == Ok::<(T, int), ParseError>((xs[n], starts[n + 1])));
        assert(xi.push(xs[n]) =~= xs);
    } else {
        assert(xs =~= Seq::<T>::empty());
    }
}

/// Law: an articulation unit laid down at `r` as 24 header bytes, its key
/// number, 16 bytes, the number of its samples, the samples one after
/// another and its phoneme string reads back as the decimal text of its key
/// number and a unit with that phoneme whose samples are those read, keyed
/// by their index texts (a later one with the same index replacing an
/// earlier one); reading stops right after the phoneme.
pub proof fn lemma_artu_entry_reads_back(
    d: Seq<u8>,
    r: int,
    key: u32,
    starts: Seq<int>,
    items: Seq<(Seq<u8>, ArtpItemV)>,
    phoneme: Seq<u8>,
)
    requires
        0 <= r,
        r + 48 <= d.len(),
        items.len() <= u32::MAX,
        phoneme.len() <= u32::MAX,
        d.subrange(r + 24, r + 28) == enc32(key),
        d.subrange(r + 44, r + 48) == enc32(items.len() as u32),
        starts.len() == items.len() + 1,
        starts[0] == r + 48,
        forall|i: int|
            0 <= i < items.len() ==> #[trigger] artp_item(d, starts[i]) == Ok::<((Seq<u8>, ArtpItemV), int), ParseError>(
                (items[i], starts[i + 1]),
            ),
        0 <= starts[items.len() as int],
        starts[items.len() as int] + 4 + phoneme.len() <= d.len(),
        d.subrange(starts[items.len() as int], starts[items.len() as int] + 4 + phoneme.len()) == field(phoneme),
    ensures
        artu_entry(d, r) == Ok::<((Seq<u8>, ArtuEntryV), int), ParseError>(
            (
                (dec(key as nat), ArtuEntryV { phoneme: lossy_text(phoneme), artp: map_of::<Vec<u8>, ArtpItemV>(items) }),
                starts[items.len() as int] + 4 + phoneme.len(),
            ),
        ),
{
    reveal(artu_entry);
    lemma_le32_in(d, r + 24, key);
    lemma_le32_in(d, r + 44, items.len() as u32);
    assert forall|i: int| 0 <= i < items.len() implies #[trigger] artp_item_at(d)(starts[i]) == Ok::<
        ((Seq<u8>, ArtpItemV), int),
        ParseError,
    >((items[i], starts[i + 1])) by {
        assert(artp_item(d, starts[i]) == Ok::<((Seq<u8>, ArtpItemV), int), ParseError>((items[i], starts[i + 1])));
    }
    lemma_rep_chain(artp_item_at(d), starts, items);
    lemma_text_in(d, starts[items.len() as int], phoneme);
}

/// The `k` remaining units of a block from `r`, with the units read so far
/// and the last nested block read so far. A unit whose signature is `ART `
/// is a nested block, which replaces the one held. (Positions only move
/// forward; a read that did not is treated as the end of the data.)
#[verifier::opaque]
pub open spec fn art_units(
    d: Seq<u8>,
    r: int,
    k: nat,
    acc: Seq<(Seq<u8>, ArtuEntryV)>,
    sub: Option<(u32, Box<ArtBlockV>)>,
) -> Result<((Seq<(Seq<u8>, ArtuEntryV)>, Option<(u32, Box<ArtBlockV>)>), int), ParseError>
    decreases d.len() - r, k,
{
    if k == 0 {
        Ok(((acc, sub), r))
    } else if !fits(d, r, 12) {
        Err(ParseError::UnexpectedEof)
    } else if d.subrange(r + 8, r + 12) == art_sig() {
        match art_block(d, r + 12) {
            Err(e) => Err(e),
            Ok(((i, b), r2)) => if r2 <= r || r2 > d.len() {
                Err(ParseError::UnexpectedEof)
            } else {
                art_units(d, r2, (k - 1) as nat, acc, Some((i, Box::new(b))))
            },
        }
    } else {
        match artu_entry(d, r) {
            Err(e) => Err(e),
            Ok(((key, e), r2)) => if r2 <= r || r2 > d.len() {
                Err(ParseError::UnexpectedEof)
            } else {
                art_units(
                    d,
                    r2,
                    (k - 1) as nat,
                    assoc_insert::<Vec<u8>, ArtuEntryV>(acc, key, e),
                    sub,
                )
            },
        }
    }
}

/// An articulation block at `q` (after its `ART ` signature): 12 bytes, its
/// index, a count, the units, and its phoneme.
#[verifier::opaque]
pub open spec fn art_block(d: Seq<u8>, q: int) -> Result<((u32, ArtBlockV), int), ParseError>
    decreases d.len() - q, 0nat,
{
    if !fits(d, q, 20) {
        Err(ParseError::UnexpectedEof)
    } else {
        match art_units(d, q + 20, le32(d, q + 16) as nat, Seq::empty(), None) {
            Err(e) => Err(e),
            Ok(((artu, sub), r)) => match text_field(d, r) {
                Err(e) => Err(e),
                Ok((phoneme, s)) => Ok(((le32(d, q + 12), ArtBlockV { phoneme, artu, sub }), s)),
            },
        }
    }
}

/// The blocks of the ART section from `q`, with those read so far: a record
/// that starts with eight bytes other than all-zero or all-0xff is a string,
/// and the string `articulation` ends the section; a record that starts
/// with them is a block when its signature is `ART ` and is skipped
/// otherwise. Running out of data ends the section at its end.
#[verifier::opaque]
pub open spec fn art_loop(d: Seq<u8>, q: int, acc: Seq<(u32, ArtBlockV)>) -> Result<
    (Seq<(u32, ArtBlockV)>, int),
    ParseError,
>
    decreases d.len() - q,
{
    if !fits(d, q, 8) {
        Ok((acc, d.len() as int))
    } else if !filled(d.subrange(q, q + 8), 0) && !filled(d.subrange(q, q + 8), 0xff) {
        match text_field(d, q) {
            Err(_) => Ok((acc, d.len() as int)),
            Ok((t, q2)) => if t == articulation_text() {
                Ok((acc, q2))
            } else {
                art_loop(d, q2, acc)
            },
        }
    } else if !fits(d, q + 8, 4) {
        Err(ParseError::UnexpectedEof)
    } else if d.subrange(q + 8, q + 12) != art_sig() {
        art_loop(d, q + 12, acc)
    } else {
        match art_block(d, q + 12) {
            Err(e) => Err(e),
            Ok(((i, b), q2)) => if q2 <= q || q2 > d.len() {
                Err(ParseError::UnexpectedEof)
            } else {
                art_loop(d, q2, assoc_insert::<u32, ArtBlockV>(acc, i, b))
            },
        }
    }
}

/// No units left: the units and nested block read so far.
pub proof fn lemma_units_done(
    d: Seq<u8>,
    r: int,
    acc: Seq<(Seq<u8>, ArtuEntryV)>,
    sub: Option<(u32, Box<ArtBlockV>)>,
)
    ensures
        art_units(d, r, 0, acc, sub) == Ok::<_, ParseError>(((acc, sub), r)),
{
    reveal_with_fuel(art_units, 2);
    reveal_with_fuel(art_block, 2);
}

/// A unit whose header runs past the end.
pub proof fn lemma_units_short(
    d: Seq<u8>,
    r: int,
    k: nat,
    acc: Seq<(Seq<u8>, ArtuEntryV)>,
    sub: Option<(u32, Box<ArtBlockV>)>,
)
    requires
        k > 0,
        !fits(d, r, 12),
    ensures
        art_units(d, r, k, acc, sub) == Err::<
            ((Seq<(Seq<u8>, ArtuEntryV)>, Option<(u32, Box<ArtBlockV>)>), int),
            ParseError,
        >(ParseError::UnexpectedEof),
{
    reveal_with_fuel(art_units, 2);
    reveal_with_fuel(art_block, 2);
}

/// A unit that is a nested block.
pub proof fn lemma_units_block(
    d: Seq<u8>,
    r: int,
    k: nat,
    acc: Seq<(Seq<u8>, ArtuEntryV)>,
    sub: Option<(u32, Box<ArtBlockV>)>,
)
    requires
        k > 0,
        fits(d, r, 12),
        d.subrange(r + 8, r + 12) == art_sig(),
    ensures
        art_block(d, r + 12) matches Err(e) ==> art_units(d, r, k, acc, sub) == Err::<
            ((Seq<(Seq<u8>, ArtuEntryV)>, Option<(u32, Box<ArtBlockV>)>), int),
            ParseError,
        >(e),
        art_block(d, r + 12) matches Ok(((i, b), r2)) ==> (r < r2 <= d.len() ==> art_units(
            d,
            r,
            k,
            acc,
            sub,
        ) == art_units(d, r2, (k - 1) as nat, acc, Some((i, Box::new(b))))),
{
    reveal_with_fuel(art_units, 2);
    reveal_with_fuel(art_block, 2);
}

/// A unit that is not a nested block.
pub proof fn lemma_units_entry(
    d: Seq<u8>,
    r: int,
    k: nat,
    acc: Seq<(Seq<u8>, ArtuEntryV)>,
    sub: Option<(u32, Box<ArtBlockV>)>,
)
    requires
        k > 0,
        fits(d, r, 12),
        d.subrange(r + 8, r + 12) != art_sig(),
    ensures
        artu_entry(d, r) matches Err(e) ==> art_units(d, r, k, acc, sub) == Err::<
            ((Seq<(Seq<u8>, ArtuEntryV)>, Option<(u32, Box<ArtBlockV>)>), int),
            ParseError,
        >(e),
        artu_entry(d, r) matches Ok(((key, e), r2)) ==> (r < r2 <= d.len() ==> art_units(
            d,
            r,
            k,
            acc,
            sub,
        ) == art_units(
            d,
            r2,
            (k - 1) as nat,
            assoc_insert::<Vec<u8>, ArtuEntryV>(acc, key, e),
            sub,
        )),
{
    reveal_with_fuel(art_units, 2);
    reveal_with_fuel(art_block, 2);
}

/// What a block is, in terms of its units.
pub proof fn lemma_block_unfold(d: Seq<u8>, q: int)
    ensures
        !fits(d, q, 20) ==> art_block(d, q) == Err::<((u32, ArtBlockV), int), ParseError>(
            ParseError::UnexpectedEof,
        ),
        fits(d, q, 20) ==> art_block(d, q) == match art_units(d, q + 20, le32(d, q + 16) as nat, Seq::empty(), None) {
            Err(e) => Err(e),
            Ok(((artu, sub), r)) => match text_field(d, r) {
                Err(e) => Err(e),
                Ok((phoneme, s)) => Ok(((le32(d, q + 12), ArtBlockV { phoneme, artu, sub }), s)),
            },
        },
{
    reveal_with_fuel(art_block, 2);
    reveal_with_fuel(art_units, 2);
}

/// What a nested block unit leaves as the block's nested block.
pub open spec fn boxed(nested: Option<(u32, ArtBlockV)>) -> Option<(u32, Box<ArtBlockV>)> {
    match nested {
        Some((i, b)) => Some((i, Box::new(b))),
        None => None,
    }
}

/// The units of a block read from the `j`-th of the units `ents`, laid down
/// from `starts[j]` and followed by the nested block `nested`, if any.
pub proof fn lemma_units_chain(
    d: Seq<u8>,
    starts: Seq<int>,
    ents: Seq<(Seq<u8>, ArtuEntryV)>,
    nested: Option<(u32, ArtBlockV)>,
    r_end: int,
    j: int,
)
    requires
        0 <= j <= ents.len(),
        starts.len() == ents.len() + 1,
        forall|i: int|
            0 <= i < ents.len() ==> fits(d, #[trigger] starts[i], 12) && d.subrange(starts[i] + 8, starts[i] + 12) != art_sig()
                && artu_entry(d, starts[i]) == Ok::<((Seq<u8>, ArtuEntryV), int), ParseError>((ents[i], starts[i + 1]))
                && starts[i] < starts[i + 1] <= d.len(),
        match nested {
            Some((i, b)) => {
                let last = starts[ents.len() as int];
                &&& fits(d, last, 12)
                &&& d.subrange(last + 8, last + 12) == art_sig()
                &&& art_block(d, last + 12) == Ok::<((u32, ArtBlockV), int), ParseError>(((i, b), r_end))
                &&& last < r_end <= d.len()
            },
            None => r_end == starts[ents.len() as int],
        },
    ensures
        art_units(
            d,
            starts[j],
            (ents.len() - j + if nested is Some { 1int } else { 0int }) as nat,
            insert_all::<Vec<u8>, ArtuEntryV>(Seq::empty(), ents.subrange(0, j)),
            None,
        ) == Ok::<((Seq<(Seq<u8>, ArtuEntryV)>, Option<(u32, Box<ArtBlockV>)>), int), ParseError>(
            ((map_of::<Vec<u8>, ArtuEntryV>(ents), boxed(nested)), r_end),
        ),
    decreases ents.len() - j,
{
    let acc = insert_all::<Vec<u8>, ArtuEntryV>(Seq::empty(), ents.subrange(0, j));
    if j == ents.len() {
        assert(ents.subrange(0, j) =~= ents);
        match nested {
            Some((i, b)) => {
                let last = starts[j];
                lemma_units_block(d, last, 1, acc, None);
                lemma_units_done(d, r_end, acc, Some((i, Box::new(b))));
            },
            None => {
                lemma_units_done(d, starts[j], acc, None);
            },
        }
    } else {
        let k = (ents.len() - j + if nested is Some { 1int } else { 0int }) as nat;
        lemma_units_entry(d, starts[j], k, acc, None);
        assert(ents.subrange(0, j + 1).drop_last() =~= ents.subrange(0, j));
        assert(ents.subrange(0, j + 1).last() == ents[j]);
        lemma_units_chain(d, starts, ents, nested, r_end, j + 1);
    }
}

/// Law: an articulation block laid down at `q` (after its `ART `
/// signature) as 12 bytes, its index, the number of its units, unit
/// records one after another (each with a signature other than `ART `),
/// then at most one nested block record (`ART ` and a block), and its
/// phoneme string reads back as its index and a block with that phoneme,
/// whose units are those read, keyed by their key texts (a later one with
/// the same key replacing an earlier one), and whose nested block is the one
/// read, if any; reading stops right after the phoneme.
pub proof fn lemma_art_block_reads_back(
    d: Seq<u8>,
    q: int,
    idx: u32,
    starts: Seq<int>,
    ents: Seq<(Seq<u8>, ArtuEntryV)>,
    nested: Option<(u32, ArtBlockV)>,
    r_end: int,
    phoneme: Seq<u8>,
)
    requires
        0 <= q,
        q + 20 <= d.len(),
        ents.len() < u32::MAX,
        phoneme.len() <= u32::MAX,
        d.subrange(q + 12, q + 16) == enc32(idx),
        d.subrange(q + 16, q + 20) == enc32((ents.len() + if nested is Some { 1int } else { 0int }) as u32),
        starts.len() == ents.len() + 1,
        starts[0] == q + 20,
        forall|i: int|
            0 <= i < ents.len() ==> fits(d, #[trigger] starts[i], 12) && d.subrange(starts[i] + 8, starts[i] + 12) != art_sig()
                && artu_entry(d, starts[i]) == Ok::<((Seq<u8>, ArtuEntryV), int), ParseError>((ents[i], starts[i + 1]))
                && starts[i] < starts[i + 1] <= d.len(),
        match nested {
            Some((i, b)) => {
                let last = starts[ents.len() as int];
                &&& fits(d, last, 12)
                &&& d.subrange(last + 8, last + 12) == art_sig()
                &&& art_block(d, last + 12) == Ok::<((u32, ArtBlockV), int), ParseError>(((i, b), r_end))
                &&& last < r_end <= d.len()
            },
            None => r_end == starts[ents.len() as int],
        },
        0 <= r_end,
        r_end + 4 + phoneme.len() <= d.len(),
        d.subrange(r_end, r_end + 4 + phoneme.len()) == field(phoneme),
    ensures
        art_block(d, q) == Ok::<((u32, ArtBlockV), int), ParseError>(
            (
                (
                    idx,
                    ArtBlockV {
                        phoneme: lossy_text(phoneme),
                        artu: map_of::<Vec<u8>, ArtuEntryV>(ents),
                        sub: boxed(nested),
                    },
                ),
                r_end + 4 + phoneme.len(),
            ),
        ),
{
    let cnt = (ents.len() + if nested is Some { 1int } else { 0int }) as u32;
    lemma_le32_in(d, q + 12, idx);
    lemma_le32_in(d, q + 16, cnt);
    lemma_block_unfold(d, q);
    lemma_units_chain(d, starts, ents, nested, r_end, 0);
    assert(ents.subrange(0, 0) =~= Seq::<(Seq<u8>, ArtuEntryV)>::empty());
    assert(insert_all::<Vec<u8>, ArtuEntryV>(Seq::empty(), Seq::<(Seq<u8>, ArtuEntryV)>::empty()) == Seq::<(Seq<u8>, ArtuEntryV)>::empty());
    lemma_text_in(d, r_end, phoneme);
}

/// One step of the ART section's loop.
pub proof fn lemma_loop_unfold(d: Seq<u8>, q: int, acc: Seq<(u32, ArtBlockV)>)
    ensures
        art_loop(d, q, acc) == if !fits(d, q, 8) {
            Ok((acc, d.len() as int))
        } else if !filled(d.subrange(q, q + 8), 0) && !filled(d.subrange(q, q + 8), 0xff) {
            match text_field(d, q) {
                Err(_) => Ok((acc, d.len() as int)),
                Ok((t, q2)) => if t == articulation_text() {
                    Ok((acc, q2))
                } else {
                    art_loop(d, q2, acc)
                },
            }
        } else if !fits(d, q + 8, 4) {
            Err(ParseError::UnexpectedEof)
        } else if d.subrange(q + 8, q + 12) != art_sig() {
            art_loop(d, q + 12, acc)
        } else {
            match art_block(d, q + 12) {
                Err(e) => Err(e),
                Ok(((i, b), q2)) => if q2 <= q || q2 > d.len() {
                    Err(ParseError::UnexpectedEof)
                } else {
                    art_loop(d, q2, assoc_insert::<u32, ArtBlockV>(acc, i, b))
                },
            }
        },
{
    reveal_with_fuel(art_loop, 1);
}

/// The ART section at `p`: 8 bytes, an array record, then the blocks, keyed
/// by index.
pub open spec fn art_section(d: Seq<u8>, p: int) -> Result<(Seq<(u32, ArtBlockV)>, int), ParseError> {
    if !fits(d, p, 28) {
        Err(ParseError::UnexpectedEof)
    } else {
        art_loop(d, p + 28, Seq::empty())
    }
}

// ---------------------------------------------------------------- PHDC

/// The name in a 31-byte phoneme record at `r`: its first 30 bytes decoded,
/// without surrounding NULs.
pub open spec fn phoneme_name(d: Seq<u8>, r: int) -> Seq<u8> {
    trim_zeros(lossy_text(d.subrange(r, r + 30)))
}

/// The names of the voiced phonemes among the first `n` records from `p`:
/// those whose last byte is zero.
#[verifier::opaque]
pub open spec fn voiced_names(d: Seq<u8>, p: int, n: nat) -> Seq<Seq<u8>>
    decreases n,
{
    if n == 0 {
        Seq::empty()
    } else {
        let r = p + 31 * (n - 1);
        let rest = voiced_names(d, p, (n - 1) as nat);
        if d[r + 30] == 0 { rest.push(phoneme_name(d, r)) } else { rest }
    }
}

/// The names of the unvoiced phonemes among the first `n` records from `p`.
#[verifier::opaque]
pub open spec fn unvoiced_names(d: Seq<u8>, p: int, n: nat) -> Seq<Seq<u8>>
    decreases n,
{
    if n == 0 {
        Seq::empty()
    } else {
        let r = p + 31 * (n - 1);
        let rest = unvoiced_names(d, p, (n - 1) as nat);
        if d[r + 30] != 0 { rest.push(phoneme_name(d, r)) } else { rest }
    }
}

/// Law: each of the first `n` phoneme records is named once, either among
/// the voiced phonemes or among the unvoiced ones: together they hold `n`
/// names.
pub proof fn lemma_phonemes_partitioned(d: Seq<u8>, p: int, n: nat)
    ensures
        voiced_names(d, p, n).len() + unvoiced_names(d, p, n).len() == n,
    decreases n,
{
    reveal(voiced_names);
    reveal(unvoiced_names);
    if n > 0 {
        lemma_phonemes_partitioned(d, p, (n - 1) as nat);
    }
}

/// A PHG2 member at `r`: an index (keying it in decimal) and a string.
pub open spec fn phg2_pair(d: Seq<u8>, r: int) -> Result<((Seq<u8>, Seq<u8>), int), ParseError> {
    if !fits(d, r, 4) {
        Err(ParseError::UnexpectedEof)
    } else {
        match text_field(d, r + 4) {
            Err(e) => Err(e),
            Ok((t, s)) => Ok(((dec(le32(d, r) as nat), t), s)),
        }
    }
}

pub open spec fn phg2_pair_at(d: Seq<u8>) -> spec_fn(int) -> Result<((Seq<u8>, Seq<u8>), int), ParseError> {
    |r: int| phg2_pair(d, r)
}

/// The end of a PHG2 group whose members `pairs` were read up to `t`: 4
/// skipped bytes.
pub open spec fn phg2_tail(d: Seq<u8>, key: Seq<u8>, members: Result<(Seq<(Seq<u8>, Seq<u8>)>, int), ParseError>) -> Result<((Seq<u8>, Seq<(Seq<u8>, Seq<u8>)>), int), ParseError> {
    match members {
        Err(e) => Err(e),
        Ok((pairs, t)) => if !fits(d, t, 4) {
            Err(ParseError::UnexpectedEof)
        } else {
            Ok(((key, map_of::<Vec<u8>, Seq<u8>>(pairs)), t + 4))
        },
    }
}

/// A PHG2 group at `r`: its name, a count, its members and 4 skipped bytes.
pub open spec fn phg2_entry(d: Seq<u8>, r: int) -> Result<((Seq<u8>, Seq<(Seq<u8>, Seq<u8>)>), int), ParseError> {
    match text_field(d, r) {
        Err(e) => Err(e),
        Ok((key, s)) => if !fits(d, s, 4) {
            Err(ParseError::UnexpectedEof)
        } else {
            phg2_tail(d, key, rep(phg2_pair_at(d), s + 4, le32(d, s) as nat))
        },
    }
}

pub open spec fn phg2_entry_at(d: Seq<u8>) -> spec_fn(int) -> Result<((Seq<u8>, Seq<(Seq<u8>, Seq<u8>)>), int), ParseError> {
    |r: int| phg2_entry(d, r)
}

/// PHG2 members written one after another, each as its index and its string.
pub open spec fn phg2_pairs_bytes(ms: Seq<(u32, Seq<u8>)>) -> Seq<u8>
    decreases ms.len(),
{
    if ms.len() == 0 {
        Seq::empty()
    } else {
        phg2_pairs_bytes(ms.drop_last()) + enc32(ms.last().0) + field(ms.last().1)
    }
}

/// What PHG2 members read back as: each index in decimal, with its string's
/// text.
pub open spec fn phg2_members(ms: Seq<(u32, Seq<u8>)>) -> Seq<(Seq<u8>, Seq<u8>)> {
    Seq::new(ms.len(), |i: int| (dec(ms[i].0 as nat), lossy_text(ms[i].1)))
}

/// PHG2 members laid down at `p` read back one after another, and reading
/// stops right after the last.
#[verifier::rlimit(40)]
pub proof fn lemma_phg2_pairs_read(d: Seq<u8>, p: int, ms: Seq<(u32, Seq<u8>)>)
    requires
        0 <= p,
        p + phg2_pairs_bytes(ms).len() <= d.len(),
        d.subrange(p, p + phg2_pairs_bytes(ms).len()) == phg2_pairs_bytes(ms),
        forall|i: int| 0 <= i < ms.len() ==> (#[trigger] ms[i]).1.len() <= u32::MAX,
    ensures
        rep(phg2_pair_at(d), p, ms.len()) == Ok::<(Seq<(Seq<u8>, Seq<u8>)>, int), ParseError>(
            (phg2_members(ms), p + phg2_pairs_bytes(ms).len()),
        ),
    decreases ms.len(),
{
    if ms.len() == 0 {
        assert(phg2_members(ms) =~= Seq::<(Seq<u8>, Seq<u8>)>::empty());
    } else {
        let init = ms.drop_last();
        let x = ms.last();
        let bi = phg2_pairs_bytes(init);
        assert(ms[ms.len() - 1].1.len() <= u32::MAX);
        assert forall|i: int| 0 <= i < init.len() implies (#[trigger] init[i]).1.len() <= u32::MAX by {
            assert(init[i] == ms[i]);
        }
        lemma_split(d, p, bi + enc32(x.0), field(x.1));
        lemma_split(d, p, bi, enc32(x.0));
        lemma_phg2_pairs_read(d, p, init);
        let q = p + bi.len();
        lemma_le32_in(d, q, x.0);
        lemma_text_in(d, q + 4, x.1);
        assert(phg2_pair_at(d)(q) == phg2_pair(d, q));
        assert(phg2_members(init).push((dec(x.0 as nat), lossy_text(x.1))) =~= phg2_members(ms));
    }
}

/// Law: a PHG2 group laid down at `r` as its name string, the number of its
/// members, the members (each an index and a string) and 4 bytes reads back
/// as its name and the map from each member's index, in decimal, to its
/// string (a later member with the same index replacing an earlier one);
/// reading stops right after the 4 bytes.
pub proof fn lemma_phg2_entry_reads_back(d: Seq<u8>, r: int, name: Seq<u8>, ms: Seq<(u32, Seq<u8>)>)
    requires
        0 <= r,
        name.len() <= u32::MAX,
        ms.len() <= u32::MAX,
        forall|i: int| 0 <= i < ms.len() ==> (#[trigger] ms[i]).1.len() <= u32::MAX,
        ({
            let e = field(name) + enc32(ms.len() as u32) + phg2_pairs_bytes(ms);
            &&& r + e.len() + 4 <= d.len()
            &&& d.subrange(r, r + e.len()) == e
        }),
    ensures
        phg2_entry(d, r) == Ok::<((Seq<u8>, Seq<(Seq<u8>, Seq<u8>)>), int), ParseError>(
            (
                (lossy_text(name), map_of::<Vec<u8>, Seq<u8>>(phg2_members(ms))),
                r + 8 + name.len() + phg2_pairs_bytes(ms).len() + 4,
            ),
        ),
{
    let b = phg2_pairs_bytes(ms);
    lemma_split(d, r, field(name) + enc32(ms.len() as u32), b);
    lemma_split(d, r, field(name), enc32(ms.len() as u32));
    lemma_text_in(d, r, name);
    let s = r + 4 + name.len();
    lemma_le32_in(d, s, ms.len() as u32);
    lemma_phg2_pairs_read(d, s + 4, ms);
}

/// The number of leading zero bytes of `s`.
pub open spec fn leading_zeros(s: Seq<u8>) -> nat
    decreases s.len(),
{
    if s.len() > 0 && s[0] == 0 { 1 + leading_zeros(s.drop_first()) } else { 0 }
}

/// An EpR guide value: the hexadecimal digits of seven bytes from their
/// first non-zero byte (of all seven when all are zero).
pub open spec fn guide_value(s: Seq<u8>) -> Seq<u8> {
    let z = leading_zeros(s);
    if z == s.len() { hex_of(s) } else { hex_of(s.subrange(z as int, s.len() as int)) }
}

/// The values of one EpR guide entry in `b` from `off`: one per 8-byte
/// record while the next byte is zero. A record cut short by the end of the
/// buffer is corrupt.
pub open spec fn guide_values(b: Seq<u8>, off: int) -> Result<(Seq<Seq<u8>>, int), ParseError>
    decreases b.len() + 1 - off,
{
    if 0 <= off < b.len() && b[off] == 0 {
        if off + 7 > b.len() {
            Err(ParseError::Corrupt)
        } else {
            match guide_values(b, off + 8) {
                Err(e) => Err(e),
                Ok((rest, e)) => Ok((seq![guide_value(b.subrange(off, off + 7))] + rest, e)),
            }
        }
    } else {
        Ok((Seq::empty(), off))
    }
}

/// `k` EpR guide entries in `b` from `off`, added to `acc`: each a 32-byte
/// name (decoded, without surrounding NULs), 4 skipped bytes and its values.
pub open spec fn guide_entries(b: Seq<u8>, off: int, k: nat, acc: Seq<(Seq<u8>, Seq<Seq<u8>>)>) -> Result<
    Seq<(Seq<u8>, Seq<Seq<u8>>)>,
    ParseError,
>
    decreases k,
{
    if k == 0 {
        Ok(acc)
    } else if off < 0 || off + 36 > b.len() {
        Err(ParseError::Corrupt)
    } else {
        match guide_values(b, off + 36) {
            Err(e) => Err(e),
            Ok((vals, next)) => guide_entries(
                b,
                next,
                (k - 1) as nat,
                assoc_insert::<Vec<u8>, Seq<Seq<u8>>>(
                    acc,
                    trim_zeros(lossy_text(b.subrange(off, off + 32))),
                    vals,
                ),
            ),
        }
    }
}

/// The size of the EpR guide block: the PHDC size less the PHG2 size, 16,
/// 31 per phoneme and 4, in 32-bit arithmetic; `None` where that arithmetic
/// overflows.
pub open spec fn guide_size(phdc_size: u32, phg2_size: u32, n: u32) -> Option<u32> {
    let a = phdc_size - phg2_size;
    if a < 0 || a - 16 < 0 || 31 * n > u32::MAX || a - 16 - 31 * n < 0 || a - 16 - 31 * n - 4 < 0 {
        None
    } else {
        Some((a - 16 - 31 * n - 4) as u32)
    }
}

/// The EpR guide at `e`: the entry count, then the guide block, whose size
/// follows from the PHDC and PHG2 sizes and the phoneme count.
pub open spec fn guide_part(d: Seq<u8>, e: int, phdc_size: u32, phg2_size: u32, n: u32) -> Result<
    (Seq<(Seq<u8>, Seq<Seq<u8>>)>, int),
    ParseError,
> {
    if !fits(d, e, 4) {
        Err(ParseError::UnexpectedEof)
    } else {
        match guide_size(phdc_size, phg2_size, n) {
            None => Err(ParseError::Corrupt),
            Some(size) => if !fits(d, e + 4, size as int) {
                Err(ParseError::UnexpectedEof)
            } else {
                match guide_entries(d.subrange(e + 4, e + 4 + size), 0, le32(d, e) as nat, Seq::empty()) {
                    Err(x) => Err(x),
                    Ok(guide) => Ok((guide, e + 4 + size)),
                }
            },
        }
    }
}

/// What follows the PHG2 groups of a PHDC block at `p` whose PHG2 header
/// sits at `q`, given how reading the groups went.
#[verifier::opaque]
pub open spec fn phdc_tail(
    d: Seq<u8>,
    p: int,
    q: int,
    groups: Result<(Seq<(Seq<u8>, Seq<(Seq<u8>, Seq<u8>)>)>, int), ParseError>,
) -> Result<(PhdcDataV, int), ParseError> {
    let n = le32(d, p + 12);
    match groups {
        Err(e) => Err(e),
        Ok((groups, e)) => match guide_part(d, e, le32(d, p + 4), le32(d, q + 4), n) {
            Err(x) => Err(x),
            Ok((guide, end)) => Ok(
                (
                    PhdcDataV {
                        voiced: voiced_names(d, p + 16, n as nat),
                        unvoiced: unvoiced_names(d, p + 16, n as nat),
                        phg2: map_of::<Vec<u8>, Seq<(Seq<u8>, Seq<u8>)>>(groups),
                        epr_guide: guide,
                    },
                    end,
                ),
            ),
        },
    }
}

/// The PHDC block at `p`: 4 bytes, its size, 4 bytes, a phoneme count and
/// that many 31-byte phoneme records; 4 bytes, the PHG2 size, a count and
/// the PHG2 groups (keyed by name); the EpR guide count and the EpR guide
/// block, whose entries are keyed by name.
pub open spec fn phdc_section(d: Seq<u8>, p: int) -> Result<(PhdcDataV, int), ParseError> {
    if !fits(d, p, 16) {
        Err(ParseError::UnexpectedEof)
    } else {
        let n = le32(d, p + 12);
        let q = p + 16 + 31 * n;
        if !fits(d, p + 16, 31 * n) || !fits(d, q, 12) {
            Err(ParseError::UnexpectedEof)
        } else {
            phdc_tail(d, p, q, rep(phg2_entry_at(d), q + 12, le32(d, q + 8) as nat))
        }
    }
}

} // verus!
