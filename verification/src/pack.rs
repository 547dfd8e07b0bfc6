//! Packing a voicebank tree into a DDB: each sample's EpR frames and sound
//! are copied out of its articulation or stationary file into the DDB, and
//! the DDI's references are pointed at where they landed.

use vstd::prelude::*;
use vstd::string::*;
use crate::bytes::{enc64, fill, le32, le64, le_u32_at, dec, dec_bytes, extend_bytes, push_fill, push_u64_le, lemma_le64_enc64};
use crate::cursor::{ParseError, fits};
use crate::dict::{SampleRef, SampleRefV};
use crate::model::EprRef;
use crate::search::{matches_at_exec, backward_match};
use crate::ddi::{reverse_search, reverse_limit};
use crate::mixins::{frm2_sig, snd_sig, extends, lemma_extends_trans};

verus! {

// ---------------------------------------------------------------- file names

/// How a character appears in a file name of the tree: a lowercase ASCII
/// letter as itself, anything else as `%`, its code point in decimal, `%`.
pub open spec fn escape_char(c: char) -> Seq<u8> {
    if 97 <= c as u32 <= 122 {
        seq![c as u32 as u8]
    } else {
        seq![37u8] + dec(c as u32 as nat) + seq![37u8]
    }
}

/// The escaped form of the characters `s`.
pub open spec fn escape_name(s: Seq<char>) -> Seq<u8>
    decreases s.len(),
{
    if s.len() == 0 {
        Seq::empty()
    } else {
        escape_name(s.drop_last()) + escape_char(s.last())
    }
}

/// The file name under which the tree stores `filename` (as ASCII bytes).
pub fn escape_filename(filename: &str) -> (v: Vec<u8>)
    ensures
        v@ == escape_name(filename@),
{
    let n = filename.unicode_len();
    let mut v: Vec<u8> = Vec::new();
    let mut i: usize = 0;
    while i < n
        invariant
            n == filename@.len(),
            i <= n,
            v@ == escape_name(filename@.subrange(0, i as int)),
        decreases n - i,
    {
        let c = filename.get_char(i);
        let code = c as u32;
        let ghost before = v@;
        if 97 <= code && code <= 122 {
            v.push(code as u8);
        } else {
            v.push(37);
            let digits = dec_bytes(code as u64);
            extend_bytes(&mut v, digits.as_slice());
            v.push(37);
        }
        assert(v@ =~= before + escape_char(c));
        i = i + 1;
        assert(filename@.subrange(0, i as int).drop_last() =~= filename@.subrange(0, i - 1));
    }
    assert(filename@.subrange(0, n as int) =~= filename@);
    v
}

/// A byte a tree file name is made of: a lowercase ASCII letter, a decimal
/// digit or `%`.
pub open spec fn name_byte(b: u8) -> bool {
    (97 <= b <= 122) || (48 <= b <= 57) || b == 37
}

proof fn lemma_dec_digits(n: nat)
    ensures
        dec(n).len() >= 1,
        forall|i: int| 0 <= i < dec(n).len() ==> 48 <= #[trigger] dec(n)[i] <= 57,
    decreases n,
{
    if n >= 10 {
        lemma_dec_digits(n / 10);
    }
}

proof fn lemma_dec_injective(x: nat, y: nat)
    requires
        dec(x) == dec(y),
    ensures
        x == y,
    decreases x,
{
    lemma_dec_digits(x);
    lemma_dec_digits(y);
    if x >= 10 && y >= 10 {
        assert(dec(x).drop_last() == dec(x / 10));
        assert(dec(y).drop_last() == dec(y / 10));
        assert(dec(x).last() == dec(y).last());
        assert(dec(x).last() == (x % 10 + 48) as u8);
        assert(dec(y).last() == (y % 10 + 48) as u8);
        assert(x % 10 == y % 10);
        lemma_dec_injective(x / 10, y / 10);
        assert(x == 10 * (x / 10) + x % 10) by (nonlinear_arith);
        assert(y == 10 * (y / 10) + y % 10) by (nonlinear_arith);
    } else if x >= 10 {
        lemma_dec_digits(x / 10);
        assert(dec(x).len() == dec(x / 10).len() + 1);
    } else if y >= 10 {
        lemma_dec_digits(y / 10);
        assert(dec(y).len() == dec(y / 10).len() + 1);
    } else {
        assert(dec(x)[0] == dec(y)[0]);
        assert(dec(x)[0] == (x + 48) as u8);
        assert(dec(y)[0] == (y + 48) as u8);
    }
}

proof fn lemma_escape_char_bytes(c: char)
    ensures
        escape_char(c).len() >= 1,
        forall|i: int| 0 <= i < escape_char(c).len() ==> name_byte(#[trigger] escape_char(c)[i]),
        97 <= c as u32 <= 122 ==> escape_char(c) == seq![c as u32 as u8],
        !(97 <= c as u32 <= 122) ==> escape_char(c).len() >= 3 && escape_char(c)[0] == 37u8
            && escape_char(c).last() == 37u8,
{
    lemma_dec_digits(c as u32 as nat);
    if !(97 <= c as u32 <= 122) {
        let e = escape_char(c);
        let d = dec(c as u32 as nat);
        assert forall|i: int| 0 <= i < e.len() implies name_byte(#[trigger] e[i]) by {
            if 1 <= i < e.len() - 1 {
                assert(e[i] == d[i - 1]);
            }
        }
    }
}

proof fn lemma_escape_bytes(s: Seq<char>)
    ensures
        forall|i: int| 0 <= i < escape_name(s).len() ==> name_byte(#[trigger] escape_name(s)[i]),
        s.len() > 0 ==> escape_name(s).len() > 0 && escape_name(s).last() != 48u8 && !(48 <= escape_name(s).last() <= 57),
        s.len() == 0 ==> escape_name(s).len() == 0,
    decreases s.len(),
{
    if s.len() > 0 {
        lemma_escape_bytes(s.drop_last());
        lemma_escape_char_bytes(s.last());
        let p = escape_name(s.drop_last());
        let e = escape_char(s.last());
        assert forall|i: int| 0 <= i < escape_name(s).len() implies name_byte(#[trigger] escape_name(s)[i]) by {
            if i < p.len() {
                assert(escape_name(s)[i] == p[i]);
            } else {
                assert(escape_name(s)[i] == e[i - p.len()]);
            }
        }
        assert(escape_name(s).last() == e.last());
    }
}

/// Escaped names tell their characters apart: two names with equal escaped
/// forms are equal.
proof fn lemma_escape_injective(a: Seq<char>, b: Seq<char>)
    requires
        escape_name(a) == escape_name(b),
    ensures
        a == b,
    decreases a.len() + b.len(),
{
    lemma_escape_bytes(a);
    lemma_escape_bytes(b);
    if a.len() == 0 || b.len() == 0 {
        if a.len() != 0 || b.len() != 0 {
            assert(false);
        }
        assert(a =~= b);
    } else {
        let ea = escape_char(a.last());
        let eb = escape_char(b.last());
        let pa = escape_name(a.drop_last());
        let pb = escape_name(b.drop_last());
        let e = escape_name(a);
        lemma_escape_char_bytes(a.last());
        lemma_escape_char_bytes(b.last());
        lemma_escape_bytes(a.drop_last());
        lemma_escape_bytes(b.drop_last());
        assert(e == pa + ea);
        assert(e == pb + eb);
        let la = 97 <= a.last() as u32 <= 122;
        let lb = 97 <= b.last() as u32 <= 122;
        assert(e.last() == ea.last());
        assert(e.last() == eb.last());
        if la != lb {
            assert(false);
        }
        if la {
            assert(ea.len() == eb.len());
        } else {
            let da = dec(a.last() as u32 as nat);
            let db = dec(b.last() as u32 as nat);
            lemma_dec_digits(a.last() as u32 as nat);
            lemma_dec_digits(b.last() as u32 as nat);
            assert(ea == seq![37u8] + da + seq![37u8]);
            assert(eb == seq![37u8] + db + seq![37u8]);
            if da.len() < db.len() {
                let k = e.len() - 2 - da.len();
                assert(e[k] == ea[0]);
                assert(e[k] == eb[db.len() - da.len()]);
                assert(eb[db.len() - da.len()] == db[db.len() - da.len() - 1]);
                assert(false);
            } else if db.len() < da.len() {
                let k = e.len() - 2 - db.len();
                assert(e[k] == eb[0]);
                assert(e[k] == ea[da.len() - db.len()]);
                assert(ea[da.len() - db.len()] == da[da.len() - db.len() - 1]);
                assert(false);
            }
            assert(ea.len() == eb.len());
        }
        assert(ea =~= e.subrange(pa.len() as int, e.len() as int));
        assert(eb =~= e.subrange(pb.len() as int, e.len() as int));
        assert(pa =~= e.subrange(0, pa.len() as int));
        assert(pb =~= e.subrange(0, pb.len() as int));
        if la {
            assert(ea[0] == eb[0]);
            assert(a.last() as u32 == b.last() as u32);
        } else {
            let da = dec(a.last() as u32 as nat);
            let db = dec(b.last() as u32 as nat);
            assert(da =~= ea.subrange(1, ea.len() - 1));
            assert(db =~= eb.subrange(1, eb.len() - 1));
            lemma_dec_injective(a.last() as u32 as nat, b.last() as u32 as nat);
        }
        vstd::utf8::char_u32_cast(a.last(), a.last() as u32);
        vstd::utf8::char_u32_cast(b.last(), b.last() as u32);
        assert(a.last() == b.last());
        lemma_escape_injective(a.drop_last(), b.drop_last());
        assert(a =~= a.drop_last().push(a.last()));
        assert(b =~= b.drop_last().push(b.last()));
    }
}

proof fn lemma_escape_lowercase(a: Seq<char>)
    requires
        forall|i: int| 0 <= i < a.len() ==> 97 <= #[trigger] a[i] as u32 <= 122,
    ensures
        escape_name(a) == Seq::new(a.len(), |i: int| a[i] as u32 as u8),
    decreases a.len(),
{
    if a.len() > 0 {
        let t = a.drop_last();
        assert forall|i: int| 0 <= i < t.len() implies 97 <= #[trigger] t[i] as u32 <= 122 by {
            assert(t[i] == a[i]);
        }
        lemma_escape_lowercase(t);
        lemma_escape_char_bytes(a.last());
        assert(escape_name(a) =~= Seq::new(a.len(), |i: int| a[i] as u32 as u8));
    }
}

/// The escaped form of a name is made of lowercase letters, digits and `%`
/// alone; different names have different escaped forms; and a name of
/// lowercase ASCII letters is its own escaped form.
pub proof fn lemma_escape_filename_law(a: Seq<char>, b: Seq<char>)
    ensures
        forall|i: int| 0 <= i < escape_name(a).len() ==> name_byte(#[trigger] escape_name(a)[i]),
        escape_name(a) == escape_name(b) ==> a == b,
        (forall|i: int| 0 <= i < a.len() ==> 97 <= #[trigger] a[i] as u32 <= 122) ==> escape_name(a)
            == Seq::new(a.len(), |i: int| a[i] as u32 as u8),
{
    lemma_escape_bytes(a);
    if escape_name(a) == escape_name(b) {
        lemma_escape_injective(a, b);
    }
    if forall|i: int| 0 <= i < a.len() ==> 97 <= #[trigger] a[i] as u32 <= 122 {
        lemma_escape_lowercase(a);
    }
}

// ---------------------------------------------------------------- chunks

/// Why packing stopped.
#[derive(Debug, Clone, Copy, PartialEq, Eq, Structural)]
pub enum PackError {
    /// A chunk header could not be read.
    Read(ParseError),
    /// A chunk does not start with the signature expected.
    Broken,
    /// An articulation sample has no reference to its sound's start.
    MissingStart,
    /// A position does not fit in 64 bits.
    TooLarge,
}

/// The chunk of `d` at `off`: it starts with `sig`, and is as long as the
/// 32-bit length that follows says, or reaches the end of `d` if shorter.
pub open spec fn chunk(d: Seq<u8>, off: int, sig: Seq<u8>) -> Result<Seq<u8>, PackError> {
    if !fits(d, off, 4) {
        Err(PackError::Read(ParseError::UnexpectedEof))
    } else if d.subrange(off, off + 4) != sig {
        Err(PackError::Broken)
    } else if !fits(d, off + 4, 4) {
        Err(PackError::Read(ParseError::UnexpectedEof))
    } else if off + le32(d, off + 4) <= d.len() {
        Ok(d.subrange(off, off + le32(d, off + 4)))
    } else {
        Ok(d.subrange(off, d.len() as int))
    }
}

/// What packing writes: the DDI with its references updated, and the DDB.
pub struct PackOutput {
    pub ddi: Vec<u8>,
    pub ddb: Vec<u8>,
}

pub struct PackV {
    pub ddi: Seq<u8>,
    pub ddb: Seq<u8>,
}

impl PackOutput {
    pub open spec fn view(&self) -> PackV {
        PackV { ddi: self.ddi@, ddb: self.ddb@ }
    }
}

/// `s` with the little-endian bytes of `x` written at `pos`, padded with
/// zeros up to `pos` if it is shorter: a write through a cursor over a
/// vector.
#[verifier::opaque]
pub open spec fn put64(s: Seq<u8>, pos: int, x: u64) -> Seq<u8> {
    let padded = if pos > s.len() {
        s + fill(0, (pos - s.len()) as nat)
    } else {
        s
    };
    if pos + 8 <= padded.len() {
        padded.subrange(0, pos) + enc64(x) + padded.subrange(pos + 8, padded.len() as int)
    } else {
        padded.subrange(0, pos) + enc64(x)
    }
}

/// Writes the little-endian bytes of `x` at `pos`, as a cursor over `v`
/// would.
pub fn write_u64_at(v: &mut Vec<u8>, pos: usize, x: u64)
    requires
        pos + 8 <= usize::MAX,
    ensures
        final(v)@ == put64(old(v)@, pos as int, x),
{
    let len = v.len();
    if pos > len {
        push_fill(v, 0, pos - len);
    }
    let ghost padded = v@;
    let mut b: Vec<u8> = Vec::new();
    push_u64_le(&mut b, x);
    assert(b@ =~= enc64(x));
    let mut i: usize = 0;
    while i < 8
        invariant
            i <= 8,
            b@ == enc64(x),
            b@.len() == 8,
            pos + 8 <= usize::MAX,
            padded.len() >= pos,
            v@.len() == if pos + i <= padded.len() { padded.len() as int } else { pos + i },
            forall|j: int| 0 <= j < pos ==> v@[j] == padded[j],
            forall|j: int| pos + 8 <= j < v@.len() ==> v@[j] == padded[j],
            forall|j: int| 0 <= j < i ==> v@[pos + j] == b@[j],
        decreases 8 - i,
    {
        if pos + i < v.len() {
            v.set(pos + i, b[i]);
        } else {
            v.push(b[i]);
        }
        i = i + 1;
    }
    let ghost want = put64(old(v)@, pos as int, x);
    reveal(put64);
    assert(v@.len() == want.len());
    assert forall|j: int| 0 <= j < v@.len() implies v@[j] == want[j] by {
        if pos <= j < pos + 8 {
            assert(v@[pos + (j - pos)] == b@[j - pos]);
        }
    }
    assert(v@ =~= want);
}

// ---------------------------------------------------------------- samples

/// Copying the chunk of `src` at `off`, which must start with `sig`, to the
/// end of the DDB: where it lands, and the output after.
pub open spec fn copy_chunk(src: Seq<u8>, st: PackV, off: int, sig: Seq<u8>) -> (Result<u64, PackError>, PackV) {
    match chunk(src, off, sig) {
        Err(e) => (Err(e), st),
        Ok(b) => (Ok(st.ddb.len() as u64), PackV { ddi: st.ddi, ddb: st.ddb + b }),
    }
}

/// Copies the chunk of `src` at `offset` to the end of the DDB and returns
/// where it landed.
pub fn copy_chunk_bytes(src: &[u8], out: &mut PackOutput, offset: u64, sig: &[u8]) -> (r: Result<u64, PackError>)
    requires
        sig@.len() == 4,
    ensures
        (r, final(out).view()) == copy_chunk(src@, old(out).view(), offset as int, sig@),
{
    let n = src.len();
    if offset > n as u64 {
        return Err(PackError::Read(ParseError::UnexpectedEof));
    }
    let off = offset as usize;
    if n - off < 4 {
        return Err(PackError::Read(ParseError::UnexpectedEof));
    }
    if !matches_at_exec(src, sig, off) {
        return Err(PackError::Broken);
    }
    if n - off < 8 {
        return Err(PackError::Read(ParseError::UnexpectedEof));
    }
    let len = le_u32_at(src, off + 4) as usize;
    let end = if len <= n - off { off + len } else { n };
    let pos = out.ddb.len() as u64;
    extend_bytes(&mut out.ddb, vstd::slice::slice_subrange(src, off, end));
    Ok(pos)
}

/// Packing the EpR frame `e`: its chunk is copied and the DDI's reference
/// at `e.pos` is pointed at where it landed.
pub open spec fn pack_epr(src: Seq<u8>, st: PackV, e: EprRef) -> (Result<(), PackError>, PackV) {
    if e.pos + 8 > usize::MAX {
        (Err(PackError::TooLarge), st)
    } else {
        let (r, s2) = copy_chunk(src, st, e.off as int, frm2_sig());
        match r {
            Err(x) => (Err(x), s2),
            Ok(p) => (Ok(()), PackV { ddi: put64(s2.ddi, e.pos as int, p), ddb: s2.ddb }),
        }
    }
}

/// Packing the EpR frames `e` in turn; the first failure stops it.
pub open spec fn pack_eprs(src: Seq<u8>, st: PackV, e: Seq<EprRef>) -> (Result<(), PackError>, PackV)
    decreases e.len(),
{
    if e.len() == 0 {
        (Ok(()), st)
    } else {
        let (r, s2) = pack_eprs(src, st, e.drop_last());
        match r {
            Err(x) => (Err(x), s2),
            Ok(_) => pack_epr(src, s2, e.last()),
        }
    }
}

/// The chunks the EpR references `e` point at, one after another, in the
/// references' order.
pub open spec fn frm2_chunks_of(src: Seq<u8>, e: Seq<EprRef>) -> Seq<u8>
    decreases e.len(),
{
    if e.len() == 0 {
        Seq::empty()
    } else {
        frm2_chunks_of(src, e.drop_last()) + chunk(src, e.last().off as int, frm2_sig())->Ok_0
    }
}

/// Law: when packing the EpR frames of the references `e` succeeds, every
/// reference points at a frame chunk, and the DDB grows by exactly those
/// chunks, in the references' order.
pub proof fn lemma_pack_eprs_in_order(src: Seq<u8>, st: PackV, e: Seq<EprRef>)
    requires
        pack_eprs(src, st, e).0 is Ok,
    ensures
        forall|i: int| 0 <= i < e.len() ==> chunk(src, (#[trigger] e[i]).off as int, frm2_sig()) is Ok,
        pack_eprs(src, st, e).1.ddb == st.ddb + frm2_chunks_of(src, e),
    decreases e.len(),
{
    if e.len() == 0 {
        assert(st.ddb + frm2_chunks_of(src, e) =~= st.ddb);
    } else {
        let init = e.drop_last();
        let (r0, s0) = pack_eprs(src, st, init);
        if r0 is Err {
            assert(false);
        }
        lemma_pack_eprs_in_order(src, st, init);
        assert forall|i: int| 0 <= i < e.len() implies chunk(src, (#[trigger] e[i]).off as int, frm2_sig()) is Ok by {
            if i < e.len() - 1 {
                assert(e[i] == init[i]);
            }
        }
        assert(st.ddb + frm2_chunks_of(src, e) =~= st.ddb + frm2_chunks_of(src, init) + chunk(
            src,
            e.last().off as int,
            frm2_sig(),
        )->Ok_0);
    }
}

/// Once packing fails, packing more fails the same way.
pub proof fn lemma_pack_eprs_fails(src: Seq<u8>, st: PackV, e: Seq<EprRef>, k: int, m: int)
    requires
        0 <= k <= m <= e.len(),
        pack_eprs(src, st, e.subrange(0, k)).0 is Err,
    ensures
        pack_eprs(src, st, e.subrange(0, m)) == pack_eprs(src, st, e.subrange(0, k)),
    decreases m - k,
{
    if m > k {
        lemma_pack_eprs_fails(src, st, e, k, m - 1);
        assert(e.subrange(0, m).drop_last() =~= e.subrange(0, m - 1));
    }
}

fn frm2_bytes() -> (v: Vec<u8>)
    ensures
        v@ == frm2_sig(),
{
    let v = vec![70u8, 82u8, 77u8, 50u8];
    assert(v@ =~= frm2_sig());
    v
}

fn snd_bytes() -> (v: Vec<u8>)
    ensures
        v@ == snd_sig(),
{
    let v = vec![83u8, 78u8, 68u8, 32u8];
    assert(v@ =~= snd_sig());
    v
}

fn pack_epr_list(src: &[u8], out: &mut PackOutput, epr: &Vec<EprRef>) -> (r: Result<(), PackError>)
    ensures
        (r, final(out).view()) == pack_eprs(src@, old(out).view(), epr@),
{
    let frm2 = frm2_bytes();
    let ghost st0 = out.view();
    let n = epr.len();
    let mut i: usize = 0;
    assert(epr@.subrange(0, 0) =~= Seq::<EprRef>::empty());
    while i < n
        invariant
            n == epr@.len(),
            i <= n,
            frm2@ == frm2_sig(),
            st0 == old(out).view(),
            pack_eprs(src@, st0, epr@.subrange(0, i as int)) == (Ok::<(), PackError>(()), out.view()),
        decreases n - i,
    {
        let e = epr[i];
        proof {
            assert(epr@.subrange(0, i + 1).drop_last() =~= epr@.subrange(0, i as int));
            assert(epr@.subrange(0, i + 1).last() == e);
        }
        if e.pos > (usize::MAX - 8) as u64 {
            proof {
                lemma_pack_eprs_fails(src@, st0, epr@, i + 1, n as int);
                assert(epr@.subrange(0, n as int) =~= epr@);
            }
            return Err(PackError::TooLarge);
        }
        match copy_chunk_bytes(src, out, e.off, frm2.as_slice()) {
            Ok(p) => {
                write_u64_at(&mut out.ddi, e.pos as usize, p);
            },
            Err(x) => {
                proof {
                    lemma_pack_eprs_fails(src@, st0, epr@, i + 1, n as int);
                    assert(epr@.subrange(0, n as int) =~= epr@);
                }
                return Err(x);
            },
        }
        i = i + 1;
    }
    assert(epr@.subrange(0, n as int) =~= epr@);
    Ok(())
}

/// Packing an articulation sample: its EpR frames, then its sound, whose
/// DDI reference and the reference to its start (as far after it as in
/// the file) are pointed 0x12 bytes into where the sound's chunk landed.
pub open spec fn pack_art_sample(src: Seq<u8>, st: PackV, it: SampleRefV) -> (Result<(), PackError>, PackV) {
    let (r, s1) = pack_eprs(src, st, it.epr);
    match r {
        Err(x) => (Err(x), s1),
        Ok(_) => match it.snd_start {
            None => (Err(PackError::MissingStart), s1),
            Some(start) => if start.off < it.snd.off {
                (Err(PackError::Read(ParseError::Corrupt)), s1)
            } else if s1.ddb.len() + 0x12 + (start.off - it.snd.off) > u64::MAX || it.snd.pos + 16 > usize::MAX {
                (Err(PackError::TooLarge), s1)
            } else {
                let p = (s1.ddb.len() + 0x12) as u64;
                let (r2, s2) = copy_chunk(src, s1, it.snd.off as int, snd_sig());
                match r2 {
                    Err(x) => (Err(x), s2),
                    Ok(_) => (
                        Ok(()),
                        PackV {
                            ddi: put64(put64(s2.ddi, it.snd.pos as int, p), it.snd.pos + 8, (p + (start.off - it.snd.off)) as u64),
                            ddb: s2.ddb,
                        },
                    ),
                }
            },
        },
    }
}

/// Packing the articulation samples in turn; the first failure stops it.
pub open spec fn pack_art_samples(src: Seq<u8>, st: PackV, items: Seq<SampleRefV>) -> (Result<(), PackError>, PackV)
    decreases items.len(),
{
    if items.len() == 0 {
        (Ok(()), st)
    } else {
        let (r, s2) = pack_art_samples(src, st, items.drop_last());
        match r {
            Err(x) => (Err(x), s2),
            Ok(_) => pack_art_sample(src, s2, items.last()),
        }
    }
}

/// Once packing fails, packing more fails the same way.
pub proof fn lemma_pack_art_fails(src: Seq<u8>, st: PackV, items: Seq<SampleRefV>, k: int, m: int)
    requires
        0 <= k <= m <= items.len(),
        pack_art_samples(src, st, items.subrange(0, k)).0 is Err,
    ensures
        pack_art_samples(src, st, items.subrange(0, m)) == pack_art_samples(src, st, items.subrange(0, k)),
    decreases m - k,
{
    if m > k {
        lemma_pack_art_fails(src, st, items, k, m - 1);
        assert(items.subrange(0, m).drop_last() =~= items.subrange(0, m - 1));
    }
}

fn pack_art_item(art_bytes: &[u8], out: &mut PackOutput, it: &SampleRef) -> (r: Result<(), PackError>)
    ensures
        (r, final(out).view()) == pack_art_sample(art_bytes@, old(out).view(), it.deep_view()),
{
    pack_epr_list(art_bytes, out, &it.epr)?;
    let start = match it.snd_start {
        Some(s) => s,
        None => {
            return Err(PackError::MissingStart);
        },
    };
    if start.off < it.snd.off {
        return Err(PackError::Read(ParseError::Corrupt));
    }
    let delta = start.off - it.snd.off;
    let len = out.ddb.len() as u64;
    if len > u64::MAX - 0x12 || len + 0x12 > u64::MAX - delta || it.snd.pos > (usize::MAX - 16) as u64 {
        return Err(PackError::TooLarge);
    }
    let p = len + 0x12;
    let snd = snd_bytes();
    copy_chunk_bytes(art_bytes, out, it.snd.off, snd.as_slice())?;
    write_u64_at(&mut out.ddi, it.snd.pos as usize, p);
    write_u64_at(&mut out.ddi, it.snd.pos as usize + 8, p + delta);
    Ok(())
}

/// Packs the articulation samples `items`, whose frames and sounds are in
/// `art_bytes`, the articulation file of their phonemes.
pub fn pack_art_file(art_bytes: &[u8], out: &mut PackOutput, items: &Vec<SampleRef>) -> (r: Result<(), PackError>)
    ensures
        (r, final(out).view()) == pack_art_samples(art_bytes@, old(out).view(), items.deep_view()),
{
    let ghost st0 = out.view();
    let ghost s = items.deep_view();
    let n = items.len();
    let mut i: usize = 0;
    assert(s.subrange(0, 0) =~= Seq::<SampleRefV>::empty());
    while i < n
        invariant
            n == s.len(),
            s == items.deep_view(),
            i <= n,
            st0 == old(out).view(),
            pack_art_samples(art_bytes@, st0, s.subrange(0, i as int)) == (Ok::<(), PackError>(()), out.view()),
        decreases n - i,
    {
        proof {
            assert(s.subrange(0, i + 1).drop_last() =~= s.subrange(0, i as int));
            assert(s.subrange(0, i + 1).last() == items[i as int].deep_view());
        }
        match pack_art_item(art_bytes, out, &items[i]) {
            Ok(()) => {},
            Err(x) => {
                proof {
                    lemma_pack_art_fails(art_bytes@, st0, s, i + 1, n as int);
                    assert(s.subrange(0, n as int) =~= s);
                }
                return Err(x);
            },
        }
        i = i + 1;
    }
    assert(s.subrange(0, n as int) =~= s);
    Ok(())
}

/// Packing a stationary sample: its EpR frames, then its sound, whose chunk
/// starts at the `SND ` signature found searching back from the sound
/// reference; the DDI's reference is pointed as far into where the chunk
/// landed as the reference was into it. (A reference below 4, or one with
/// no signature before it, is corrupt.)
pub open spec fn pack_sta_sample(src: Seq<u8>, st: PackV, it: SampleRefV) -> (Result<(), PackError>, PackV) {
    let (r, s1) = pack_eprs(src, st, it.epr);
    match r {
        Err(x) => (Err(x), s1),
        Ok(_) => {
            let off = it.snd.off as int;
            if off < 4 || off > usize::MAX {
                (Err(PackError::Read(ParseError::Corrupt)), s1)
            } else {
                let found = backward_match(src, snd_sig(), off, reverse_limit(off, 4, -1i32)) as int;
                if found > off {
                    (Err(PackError::Read(ParseError::Corrupt)), s1)
                } else if s1.ddb.len() + (off - found) > u64::MAX || it.snd.pos + 8 > usize::MAX {
                    (Err(PackError::TooLarge), s1)
                } else {
                    let (r2, s2) = copy_chunk(src, s1, found, snd_sig());
                    match r2 {
                        Err(x) => (Err(x), s2),
                        Ok(_) => (
                            Ok(()),
                            PackV {
                                ddi: put64(s2.ddi, it.snd.pos as int, (s1.ddb.len() + (off - found)) as u64),
                                ddb: s2.ddb,
                            },
                        ),
                    }
                }
            }
        },
    }
}

/// Packs the stationary sample `item`, whose frames and sound are in
/// `sta_bytes`, its stationary file.
pub fn pack_sta_file(sta_bytes: &[u8], out: &mut PackOutput, item: &SampleRef) -> (r: Result<(), PackError>)
    ensures
        (r, final(out).view()) == pack_sta_sample(sta_bytes@, old(out).view(), item.deep_view()),
{
    pack_epr_list(sta_bytes, out, &item.epr)?;
    let off = item.snd.off;
    if off < 4 || off > usize::MAX as u64 {
        return Err(PackError::Read(ParseError::Corrupt));
    }
    let snd = snd_bytes();
    let found = reverse_search(sta_bytes, snd.as_slice(), off as usize, -1);
    proof {
        crate::search::lemma_backward_match(sta_bytes@, snd_sig(), off as int, reverse_limit(off as int, 4, -1i32), found);
    }
    if found as u64 > off {
        return Err(PackError::Read(ParseError::Corrupt));
    }
    let delta = off - found as u64;
    let len = out.ddb.len() as u64;
    if len > u64::MAX - delta || item.snd.pos > (usize::MAX - 8) as u64 {
        return Err(PackError::TooLarge);
    }
    let p = len + delta;
    copy_chunk_bytes(sta_bytes, out, found as u64, snd.as_slice())?;
    write_u64_at(&mut out.ddi, item.snd.pos as usize, p);
    Ok(())
}

// ---------------------------------------------------------------- the DDB only grows

proof fn lemma_copy_chunk_extends(src: Seq<u8>, st: PackV, off: int, sig: Seq<u8>)
    ensures
        extends(st.ddb, copy_chunk(src, st, off, sig).1.ddb),
{
    assert(copy_chunk(src, st, off, sig).1.ddb.subrange(0, st.ddb.len() as int) =~= st.ddb);
}

proof fn lemma_pack_epr_extends(src: Seq<u8>, st: PackV, e: EprRef)
    ensures
        extends(st.ddb, pack_epr(src, st, e).1.ddb),
{
    lemma_copy_chunk_extends(src, st, e.off as int, frm2_sig());
    if e.pos + 8 > usize::MAX {
        assert(st.ddb.subrange(0, st.ddb.len() as int) =~= st.ddb);
    }
}

proof fn lemma_pack_eprs_extends(src: Seq<u8>, st: PackV, e: Seq<EprRef>)
    ensures
        extends(st.ddb, pack_eprs(src, st, e).1.ddb),
    decreases e.len(),
{
    if e.len() == 0 {
        assert(st.ddb.subrange(0, st.ddb.len() as int) =~= st.ddb);
    } else {
        lemma_pack_eprs_extends(src, st, e.drop_last());
        let (r, s2) = pack_eprs(src, st, e.drop_last());
        lemma_pack_epr_extends(src, s2, e.last());
        lemma_extends_trans(st.ddb, s2.ddb, pack_epr(src, s2, e.last()).1.ddb);
    }
}

proof fn lemma_pack_art_sample_extends(src: Seq<u8>, st: PackV, it: SampleRefV)
    ensures
        extends(st.ddb, pack_art_sample(src, st, it).1.ddb),
{
    lemma_pack_eprs_extends(src, st, it.epr);
    let s1 = pack_eprs(src, st, it.epr).1;
    lemma_copy_chunk_extends(src, s1, it.snd.off as int, snd_sig());
    lemma_extends_trans(st.ddb, s1.ddb, copy_chunk(src, s1, it.snd.off as int, snd_sig()).1.ddb);
}

/// Packing only appends to the DDB: whatever it held before stays at its
/// start, whether packing succeeds or fails.
pub proof fn lemma_pack_only_appends(src: Seq<u8>, st: PackV, items: Seq<SampleRefV>, item: SampleRefV)
    ensures
        extends(st.ddb, pack_art_samples(src, st, items).1.ddb),
        extends(st.ddb, pack_sta_sample(src, st, item).1.ddb),
    decreases items.len(),
{
    if items.len() == 0 {
        assert(st.ddb.subrange(0, st.ddb.len() as int) =~= st.ddb);
    } else {
        lemma_pack_only_appends(src, st, items.drop_last(), item);
        let s2 = pack_art_samples(src, st, items.drop_last()).1;
        lemma_pack_art_sample_extends(src, s2, items.last());
        lemma_extends_trans(st.ddb, s2.ddb, pack_art_sample(src, s2, items.last()).1.ddb);
    }
    lemma_pack_eprs_extends(src, st, item.epr);
    let s1 = pack_eprs(src, st, item.epr).1;
    let off = item.snd.off as int;
    if 4 <= off <= usize::MAX {
        let found = backward_match(src, snd_sig(), off, reverse_limit(off, 4, -1i32)) as int;
        lemma_copy_chunk_extends(src, s1, found, snd_sig());
        lemma_extends_trans(st.ddb, s1.ddb, copy_chunk(src, s1, found, snd_sig()).1.ddb);
    }
}

// ---------------------------------------------------------------- references read back

/// A value written at `pos` reads back there; bytes before `pos` are kept,
/// and so are bytes from `pos + 8` on.
pub proof fn lemma_put64_reads_back(s: Seq<u8>, pos: int, x: u64)
    requires
        0 <= pos,
    ensures
        le64(put64(s, pos, x), pos) == x,
        put64(s, pos, x).len() >= pos + 8,
        forall|j: int| 0 <= j < pos && j < s.len() ==> #[trigger] put64(s, pos, x)[j] == s[j],
        forall|j: int| pos + 8 <= j < s.len() ==> #[trigger] put64(s, pos, x)[j] == s[j],
        put64(s, pos, x).len() == if pos + 8 <= s.len() { s.len() as int } else { pos + 8 },
{
    reveal(put64);
    let r = put64(s, pos, x);
    let e = enc64(x);
    lemma_le64_enc64(x);
    assert forall|k: int| 0 <= k < 8 implies r[pos + k] == e[k] by {}
    assert(le64(r, pos) == le64(e, 0));
}

/// Two values written at `pos` and `pos + 8` both read back.
pub proof fn lemma_put64_pair_reads_back(s: Seq<u8>, pos: int, x: u64, y: u64)
    requires
        0 <= pos,
    ensures
        le64(put64(put64(s, pos, x), pos + 8, y), pos) == x,
        le64(put64(put64(s, pos, x), pos + 8, y), pos + 8) == y,
{
    let a = put64(s, pos, x);
    lemma_put64_reads_back(s, pos, x);
    lemma_put64_reads_back(a, pos + 8, y);
    let b = put64(a, pos + 8, y);
    assert forall|j: int| pos <= j < pos + 8 implies #[trigger] b[j] == a[j] by {}
    assert(le64(b, pos) == le64(a, pos));
}

/// A packed EpR frame is found through its reference: the DDI's reference
/// reads back where the frame's chunk landed in the DDB, which holds the
/// chunk there.
pub proof fn lemma_packed_epr_points_at_chunk(src: Seq<u8>, st: PackV, e: EprRef)
    requires
        pack_epr(src, st, e).0 is Ok,
        st.ddb.len() <= u64::MAX,
    ensures
        chunk(src, e.off as int, frm2_sig()) is Ok,
        le64(pack_epr(src, st, e).1.ddi, e.pos as int) == st.ddb.len(),
        pack_epr(src, st, e).1.ddb == st.ddb + chunk(src, e.off as int, frm2_sig())->Ok_0,
{
    let (r, s2) = copy_chunk(src, st, e.off as int, frm2_sig());
    lemma_put64_reads_back(s2.ddi, e.pos as int, st.ddb.len() as u64);
}

/// A packed articulation sound is found through its references: the sound
/// reference reads back 0x12 bytes into where its chunk landed, and the
/// reference to its start as far after that as in the file.
pub proof fn lemma_packed_art_points_at_chunk(src: Seq<u8>, st: PackV, it: SampleRefV)
    requires
        pack_art_sample(src, st, it).0 is Ok,
    ensures
        ({
            let s1 = pack_eprs(src, st, it.epr).1;
            let out = pack_art_sample(src, st, it).1;
            let start = it.snd_start->Some_0;
            &&& it.snd_start is Some
            &&& chunk(src, it.snd.off as int, snd_sig()) is Ok
            &&& out.ddb == s1.ddb + chunk(src, it.snd.off as int, snd_sig())->Ok_0
            &&& le64(out.ddi, it.snd.pos as int) == s1.ddb.len() + 0x12
            &&& le64(out.ddi, it.snd.pos + 8) == s1.ddb.len() + 0x12 + (start.off - it.snd.off)
        }),
{
    let s1 = pack_eprs(src, st, it.epr).1;
    let start = it.snd_start->Some_0;
    let p = (s1.ddb.len() + 0x12) as u64;
    let s2 = copy_chunk(src, s1, it.snd.off as int, snd_sig()).1;
    lemma_put64_pair_reads_back(s2.ddi, it.snd.pos as int, p, (p + (start.off - it.snd.off)) as u64);
}

/// A packed stationary sound is found through its reference: the reference
/// reads back as far into where the sound's chunk landed as it pointed into
/// the chunk in the file.
pub proof fn lemma_packed_sta_points_at_chunk(src: Seq<u8>, st: PackV, it: SampleRefV)
    requires
        pack_sta_sample(src, st, it).0 is Ok,
    ensures
        ({
            let s1 = pack_eprs(src, st, it.epr).1;
            let out = pack_sta_sample(src, st, it).1;
            let off = it.snd.off as int;
            let found = backward_match(src, snd_sig(), off, reverse_limit(off, 4, -1i32)) as int;
            &&& found <= off
            &&& chunk(src, found, snd_sig()) is Ok
            &&& out.ddb == s1.ddb + chunk(src, found, snd_sig())->Ok_0
            &&& le64(out.ddi, it.snd.pos as int) == s1.ddb.len() + (off - found)
        }),
{
    let s1 = pack_eprs(src, st, it.epr).1;
    let off = it.snd.off as int;
    let found = backward_match(src, snd_sig(), off, reverse_limit(off, 4, -1i32)) as int;
    let s2 = copy_chunk(src, s1, found, snd_sig()).1;
    lemma_put64_reads_back(s2.ddi, it.snd.pos as int, (s1.ddb.len() + (off - found)) as u64);
}

} // verus!
