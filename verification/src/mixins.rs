//! Grafting the growl (VQM) samples of one voicebank onto another: the
//! segments copied out of the donor's DDB, the VQM stream written for them,
//! and the DDI with that stream spliced in.

use vstd::prelude::*;
use vstd::string::*;
use crate::bytes::{enc32, enc64, fill, push_u32_le, push_u64_le, push_fill, extend_bytes, le32, le64, le_u32_at, dec, dec_bytes};
use crate::cursor::{ParseError, fits};
use crate::format::{lemma_split, lemma_le32_in, lemma_le64_in, lemma_epr_bytes_len, lemma_epr_offsets_in};
use crate::ddi::{field, field_data};
use crate::model::{SndRef, EprRef, VoiceParams, VqmItem, VqmItemV, StapItem, StapItemV, StaEntry, StaEntryV};
use crate::ordmap::OrdMap;
use crate::search::{matches_at, matches_at_exec, backward_match};
use crate::ddi::{stream_reverse_search, stream_reverse_limit, DDIModel, ModelV, read_spec, read_aborts, empty_contents};
use crate::search::{first_match, locate, lemma_first_match_is_first};

verus! {

/// What the VQM stream records of one growl sample. Floating point fields
/// hold their IEEE-754 bits: `duration` of an `f64`, the others of `f32`s.
#[derive(Debug)]
pub struct VqmMeta {
    pub idx: Vec<u8>,
    pub epr: Vec<u64>,
    pub snd_id: u32,
    pub snd: u64,
    pub fs: u32,
    pub duration: u64,
    pub pitch2: u32,
    pub unknown2: u32,
    pub tempo: u32,
    pub dynamics: u32,
}

pub struct VqmMetaV {
    pub idx: Seq<u8>,
    pub epr: Seq<u64>,
    pub snd_id: u32,
    pub snd: u64,
    pub fs: u32,
    pub duration: u64,
    pub pitch2: u32,
    pub unknown2: u32,
    pub tempo: u32,
    pub dynamics: u32,
}

impl DeepView for VqmMeta {
    type V = VqmMetaV;

    open spec fn deep_view(&self) -> VqmMetaV {
        VqmMetaV {
            idx: self.idx@,
            epr: self.epr@,
            snd_id: self.snd_id,
            snd: self.snd,
            fs: self.fs,
            duration: self.duration,
            pitch2: self.pitch2,
            unknown2: self.unknown2,
            tempo: self.tempo,
            dynamics: self.dynamics,
        }
    }
}

impl Default for VqmMeta {
    fn default() -> (m: VqmMeta)
        ensures
            m.idx@ == Seq::<u8>::empty(),
            m.epr@ == Seq::<u64>::empty(),
            m.snd_id == 0 && m.snd == 0 && m.fs == 0 && m.duration == 0,
            m.pitch2 == 0 && m.unknown2 == 0 && m.tempo == 0 && m.dynamics == 0,
    {
        VqmMeta {
            idx: Vec::new(),
            epr: Vec::new(),
            snd_id: 0,
            snd: 0,
            fs: 0,
            duration: 0,
            pitch2: 0,
            unknown2: 0,
            tempo: 0,
            dynamics: 0,
        }
    }
}

/// The bits of the `f32` 224.0, the pitch every written growl sample gets.
pub open spec fn pitch_224() -> u32 {
    0x4360_0000
}

/// The four bytes of a tag.
pub open spec fn tag4(a: u8, b: u8, c: u8, e: u8) -> Seq<u8> {
    seq![a, b, c, e]
}

/// The little-endian bytes of each EpR offset in turn.
pub open spec fn epr_bytes(e: Seq<u64>) -> Seq<u8>
    decreases e.len(),
{
    if e.len() == 0 {
        Seq::empty()
    } else {
        epr_bytes(e.drop_last()) + enc64(e.last())
    }
}

/// The record of one growl sample in the VQM stream.
pub open spec fn vqm_record(m: VqmMetaV) -> Seq<u8> {
    fill(0xff, 8) + tag4(86, 81, 77, 112) + enc32(0) + enc32(0) + enc32(1) + enc64(m.duration)
        + enc32(1) + enc32(pitch_224()) + enc32(m.pitch2) + enc32(m.unknown2) + enc32(m.dynamics)
        + enc32(m.tempo) + enc32(0) + fill(0xff, 4) + enc32(m.epr.len() as u32) + epr_bytes(m.epr)
        + enc32(m.fs) + seq![1u8, 0u8] + enc32(m.snd_id) + enc64(m.snd) + fill(0xff, 16) + field(
        m.idx,
    )
}

/// The first 68 bytes of a growl sample record: up to the number of its
/// EpR positions.
pub open spec fn vqm_record_front(m: VqmMetaV) -> Seq<u8> {
    fill(0xff, 8) + tag4(86, 81, 77, 112) + enc32(0) + enc32(0) + enc32(1) + enc64(m.duration) + enc32(1) + enc32(pitch_224()) + enc32(m.pitch2) + enc32(m.unknown2) + enc32(m.dynamics) + enc32(m.tempo) + enc32(0) + fill(0xff, 4) + enc32(m.epr.len() as u32)
}

/// What the front of a growl sample record holds, at fixed places.
#[verifier::rlimit(40)]
pub proof fn lemma_vqm_record_front_layout(m: VqmMetaV)
    requires
        m.epr.len() <= u32::MAX,
    ensures
        ({
            let f = vqm_record_front(m);
            &&& f.len() == 68
            &&& f.subrange(8, 12) == tag4(86, 81, 77, 112)
            &&& le64(f, 24) == m.duration
            &&& le32(f, 36) == pitch_224()
            &&& le32(f, 40) == m.pitch2
            &&& le32(f, 44) == m.unknown2
            &&& le32(f, 48) == m.dynamics
            &&& le32(f, 52) == m.tempo
            &&& le32(f, 64) == m.epr.len()
        }),
{
    let f = vqm_record_front(m);
    let p0 = fill(0xff, 8);
    let p1 = p0 + tag4(86, 81, 77, 112);
    let p2 = p1 + enc32(0);
    let p3 = p2 + enc32(0);
    let p4 = p3 + enc32(1);
    let p5 = p4 + enc64(m.duration);
    let p6 = p5 + enc32(1);
    let p7 = p6 + enc32(pitch_224());
    let p8 = p7 + enc32(m.pitch2);
    let p9 = p8 + enc32(m.unknown2);
    let p10 = p9 + enc32(m.dynamics);
    let p11 = p10 + enc32(m.tempo);
    let p12 = p11 + enc32(0);
    let p13 = p12 + fill(0xff, 4);
    assert(f == p13 + enc32(m.epr.len() as u32));
    assert(f.subrange(0, f.len() as int) =~= f);
    lemma_split(f, 0, p13, enc32(m.epr.len() as u32));
    lemma_split(f, 0, p12, fill(0xff, 4));
    lemma_split(f, 0, p11, enc32(0));
    lemma_split(f, 0, p10, enc32(m.tempo));
    lemma_split(f, 0, p9, enc32(m.dynamics));
    lemma_split(f, 0, p8, enc32(m.unknown2));
    lemma_split(f, 0, p7, enc32(m.pitch2));
    lemma_split(f, 0, p6, enc32(pitch_224()));
    lemma_split(f, 0, p5, enc32(1));
    lemma_split(f, 0, p4, enc64(m.duration));
    lemma_split(f, 0, p3, enc32(1));
    lemma_split(f, 0, p2, enc32(0));
    lemma_split(f, 0, p1, enc32(0));
    lemma_split(f, 0, p0, tag4(86, 81, 77, 112));
    lemma_le64_in(f, 24, m.duration);
    lemma_le32_in(f, 36, pitch_224());
    lemma_le32_in(f, 40, m.pitch2);
    lemma_le32_in(f, 44, m.unknown2);
    lemma_le32_in(f, 48, m.dynamics);
    lemma_le32_in(f, 52, m.tempo);
    lemma_le32_in(f, 64, m.epr.len() as u32);
}

/// Bytes that begin with `f` read, within `f`, as `f` does.
pub proof fn lemma_prefix_reads(d: Seq<u8>, f: Seq<u8>)
    requires
        f.len() <= d.len(),
        d.subrange(0, f.len() as int) == f,
    ensures
        forall|i: int| 0 <= i && i + 4 <= f.len() ==> #[trigger] le32(d, i) == le32(f, i),
        forall|i: int| 0 <= i && i + 8 <= f.len() ==> #[trigger] le64(d, i) == le64(f, i),
        forall|a: int, b: int| 0 <= a <= b <= f.len() ==> #[trigger] d.subrange(a, b) == f.subrange(a, b),
{
    assert forall|i: int| 0 <= i && i + 4 <= f.len() implies #[trigger] le32(d, i) == le32(f, i) by {
        assert(d[i] == f[i] && d[i + 1] == f[i + 1] && d[i + 2] == f[i + 2] && d[i + 3] == f[i + 3]);
    }
    assert forall|i: int| 0 <= i && i + 8 <= f.len() implies #[trigger] le64(d, i) == le64(f, i) by {
        assert(d[i] == f[i] && d[i + 1] == f[i + 1] && d[i + 2] == f[i + 2] && d[i + 3] == f[i + 3]);
        assert(d[i + 4] == f[i + 4] && d[i + 5] == f[i + 5] && d[i + 6] == f[i + 6] && d[i + 7] == f[i + 7]);
    }
    assert forall|a: int, b: int| 0 <= a <= b <= f.len() implies #[trigger] d.subrange(a, b) == f.subrange(a, b) by {
        assert(d.subrange(a, b) =~= f.subrange(a, b));
    }
}

/// Law: the record written for a growl sample holds, at fixed places, the
/// `VQMp` tag, the sample's duration, the pitch 224, its second pitch, its
/// unknown value, its dynamics and its tempo (dynamics before tempo), the
/// number of its EpR positions and each of them in order, then its rate,
/// its sound id and its sound position, and ends with its index string.
#[verifier::rlimit(100)]
pub proof fn lemma_vqm_record_layout(m: VqmMetaV)
    requires
        m.epr.len() <= u32::MAX,
    ensures
        ({
            let rec = vqm_record(m);
            let n = m.epr.len();
            let r = 68 + 8 * n as int;
            &&& rec.subrange(8, 12) == tag4(86, 81, 77, 112)
            &&& le64(rec, 24) == m.duration
            &&& le32(rec, 36) == pitch_224()
            &&& le32(rec, 40) == m.pitch2
            &&& le32(rec, 44) == m.unknown2
            &&& le32(rec, 48) == m.dynamics
            &&& le32(rec, 52) == m.tempo
            &&& le32(rec, 64) == n
            &&& forall|i: int| 0 <= i < n ==> #[trigger] le64(rec, 68 + 8 * i) == m.epr[i]
            &&& le32(rec, r) == m.fs
            &&& le32(rec, r + 6) == m.snd_id
            &&& le64(rec, r + 10) == m.snd
            &&& rec.len() == r + 38 + m.idx.len()
            &&& rec.subrange(r + 34, rec.len() as int) == field(m.idx)
        }),
{
    let rec = vqm_record(m);
    let f = vqm_record_front(m);
    let n = m.epr.len();
    lemma_epr_bytes_len(m.epr);
    lemma_vqm_record_front_layout(m);
    let q15 = f + epr_bytes(m.epr);
    let q16 = q15 + enc32(m.fs);
    let q17 = q16 + seq![1u8, 0u8];
    let q18 = q17 + enc32(m.snd_id);
    let q19 = q18 + enc64(m.snd);
    let q20 = q19 + fill(0xff, 16);
    assert(rec == q20 + field(m.idx));
    assert(rec.subrange(0, rec.len() as int) =~= rec);
    lemma_split(rec, 0, q20, field(m.idx));
    lemma_split(rec, 0, q19, fill(0xff, 16));
    lemma_split(rec, 0, q18, enc64(m.snd));
    lemma_split(rec, 0, q17, enc32(m.snd_id));
    lemma_split(rec, 0, q16, seq![1u8, 0u8]);
    lemma_split(rec, 0, q15, enc32(m.fs));
    lemma_split(rec, 0, f, epr_bytes(m.epr));
    lemma_prefix_reads(rec, f);
    assert(rec.subrange(8, 12) == f.subrange(8, 12));
    lemma_epr_offsets_in(rec, 68, m.epr);
    let r = 68 + 8 * n as int;
    lemma_le32_in(rec, r, m.fs);
    lemma_le32_in(rec, r + 6, m.snd_id);
    lemma_le64_in(rec, r + 10, m.snd);
}

/// The records of the samples in turn.
pub open spec fn vqm_records(l: Seq<VqmMetaV>) -> Seq<u8>
    decreases l.len(),
{
    if l.len() == 0 {
        Seq::empty()
    } else {
        vqm_records(l.drop_last()) + vqm_record(l.last())
    }
}

/// The head of a VQM stream of `n` samples.
pub open spec fn vqm_head(n: u32) -> Seq<u8> {
    fill(0xff, 8) + tag4(86, 81, 77, 32) + enc32(0) + enc32(1) + enc32(0) + enc32(1) + fill(0xff, 8)
        + tag4(86, 81, 77, 117) + enc32(0) + enc32(1) + enc32(0) + enc32(n) + enc32(n)
}

/// The end of a VQM stream: the strings `GROWL` and `vqm`.
pub open spec fn vqm_tail() -> Seq<u8> {
    field(seq![71u8, 82u8, 79u8, 87u8, 76u8]) + field(seq![118u8, 113u8, 109u8])
}

/// The VQM stream of the samples `l`.
pub open spec fn vqm_stream(l: Seq<VqmMetaV>) -> Seq<u8> {
    vqm_head(l.len() as u32) + vqm_records(l) + vqm_tail()
}

fn push_tag(v: &mut Vec<u8>, a: u8, b: u8, c: u8, e: u8)
    ensures
        final(v)@ == old(v)@ + tag4(a, b, c, e),
{
    v.push(a);
    v.push(b);
    v.push(c);
    v.push(e);
    assert(final(v)@ =~= old(v)@ + tag4(a, b, c, e));
}

fn push_record(buf: &mut Vec<u8>, m: &VqmMeta)
    ensures
        final(buf)@ == old(buf)@ + vqm_record(m.deep_view()),
{
    push_fill(buf, 0xff, 8);
    push_tag(buf, 86, 81, 77, 112);
    push_u32_le(buf, 0);
    push_u32_le(buf, 0);
    push_u32_le(buf, 1);
    push_u64_le(buf, m.duration);
    push_u32_le(buf, 1);
    push_u32_le(buf, 0x4360_0000);
    push_u32_le(buf, m.pitch2);
    push_u32_le(buf, m.unknown2);
    push_u32_le(buf, m.dynamics);
    push_u32_le(buf, m.tempo);
    push_u32_le(buf, 0);
    push_fill(buf, 0xff, 4);
    push_u32_le(buf, m.epr.len() as u32);
    let ghost before = buf@;
    let mut i: usize = 0;
    while i < m.epr.len()
        invariant
            i <= m.epr@.len(),
            buf@ == before + epr_bytes(m.epr@.subrange(0, i as int)),
        decreases m.epr@.len() - i,
    {
        push_u64_le(buf, m.epr[i]);
        i = i + 1;
        assert(m.epr@.subrange(0, i as int).drop_last() =~= m.epr@.subrange(0, i - 1));
        assert(buf@ =~= before + epr_bytes(m.epr@.subrange(0, i as int)));
    }
    assert(m.epr@.subrange(0, m.epr@.len() as int) =~= m.epr@);
    push_u32_le(buf, m.fs);
    buf.push(1);
    buf.push(0);
    push_u32_le(buf, m.snd_id);
    push_u64_le(buf, m.snd);
    push_fill(buf, 0xff, 16);
    let idx = field_data(m.idx.as_slice());
    extend_bytes(buf, idx.as_slice());
    assert(final(buf)@ =~= old(buf)@ + vqm_record(m.deep_view()));
}

/// Writes the VQM stream of the samples `list`: a head giving their count,
/// one record each, and the strings `GROWL` and `vqm`.
pub fn create_vqm_stream(list: &[VqmMeta]) -> (buf: Vec<u8>)
    ensures
        buf@ == vqm_stream(list@.map_values(|m: VqmMeta| m.deep_view())),
{
    let ghost l = list@.map_values(|m: VqmMeta| m.deep_view());
    let mut buf: Vec<u8> = Vec::new();
    let n = list.len() as u32;
    push_fill(&mut buf, 0xff, 8);
    push_tag(&mut buf, 86, 81, 77, 32);
    push_u32_le(&mut buf, 0);
    push_u32_le(&mut buf, 1);
    push_u32_le(&mut buf, 0);
    push_u32_le(&mut buf, 1);
    push_fill(&mut buf, 0xff, 8);
    push_tag(&mut buf, 86, 81, 77, 117);
    push_u32_le(&mut buf, 0);
    push_u32_le(&mut buf, 1);
    push_u32_le(&mut buf, 0);
    push_u32_le(&mut buf, n);
    push_u32_le(&mut buf, n);
    assert(buf@ =~= vqm_head(l.len() as u32));
    let mut i: usize = 0;
    while i < list.len()
        invariant
            i <= list@.len(),
            l == list@.map_values(|m: VqmMeta| m.deep_view()),
            buf@ == vqm_head(l.len() as u32) + vqm_records(l.subrange(0, i as int)),
        decreases list@.len() - i,
    {
        push_record(&mut buf, &list[i]);
        i = i + 1;
        assert(l.subrange(0, i as int).drop_last() =~= l.subrange(0, i - 1));
        assert(buf@ =~= vqm_head(l.len() as u32) + vqm_records(l.subrange(0, i as int)));
    }
    assert(l.subrange(0, l.len() as int) =~= l);
    let growl = field_data(&[71u8, 82u8, 79u8, 87u8, 76u8]);
    let name = field_data(&[118u8, 113u8, 109u8]);
    extend_bytes(&mut buf, growl.as_slice());
    extend_bytes(&mut buf, name.as_slice());
    assert(buf@ =~= vqm_stream(l));
    buf
}

/// `src` with the `del_len` bytes at `off` replaced by `rep`.
pub open spec fn replaced(src: Seq<u8>, off: int, del_len: int, rep: Seq<u8>) -> Seq<u8> {
    src.subrange(0, off) + rep + src.subrange(off + del_len, src.len() as int)
}

/// Replaces the `del_len` bytes at `off` with `rep`.
pub fn byte_replace(src: &[u8], off: usize, del_len: usize, rep: &[u8]) -> (v: Vec<u8>)
    requires
        off <= src@.len(),
        del_len <= src@.len() - off,
    ensures
        v@ == replaced(src@, off as int, del_len as int, rep@),
{
    let n = src.len();
    let head = vstd::slice::slice_subrange(src, 0, off);
    let tail = vstd::slice::slice_subrange(src, off + del_len, n);
    let mut v = vstd::slice::slice_to_vec(head);
    extend_bytes(&mut v, rep);
    extend_bytes(&mut v, tail);
    v
}

// ---------------------------------------------------------------- copying segments

/// Why grafting stopped.
#[derive(Debug, Clone, Copy, PartialEq, Eq, Structural)]
pub enum MixError {
    /// Reading a DDI or a DDB segment failed.
    Read(ParseError),
    /// The donor DDI has no VQM stream.
    MissingVqm,
    /// The donor DDI has no stationary entry for the phoneme asked for.
    MissingStationary,
    /// A DDB segment does not start with the signature expected.
    BrokenSegment,
    /// The receiving DDI has neither a VQM stream nor the footer before
    /// which one is inserted.
    MissingFooter,
    /// The receiving DDI has no DBV section to count the new stream in.
    MissingDbv,
    /// A position in the output DDB does not fit in 64 bits.
    TooLarge,
}

/// The DDB being written: `base` bytes already in it, then `appended`.
pub struct DdbOutput {
    pub base: u64,
    pub appended: Vec<u8>,
}

/// The signature of an EpR frame segment.
pub open spec fn frm2_sig() -> Seq<u8> {
    seq![70u8, 82u8, 77u8, 50u8]
}

/// The signature of a sound segment.
pub open spec fn snd_sig() -> Seq<u8> {
    seq![83u8, 78u8, 68u8, 32u8]
}

/// The segment at `off`: it starts with `sig` and its 32-bit length
/// (counting the signature and the length) follows.
pub open spec fn segment(d: Seq<u8>, off: int, sig: Seq<u8>) -> Result<Seq<u8>, MixError> {
    if !fits(d, off, 4) {
        Err(MixError::Read(ParseError::UnexpectedEof))
    } else if d.subrange(off, off + 4) != sig {
        Err(MixError::BrokenSegment)
    } else if !fits(d, off + 4, 4) {
        Err(MixError::Read(ParseError::UnexpectedEof))
    } else if !fits(d, off, le32(d, off + 4) as int) {
        Err(MixError::Read(ParseError::UnexpectedEof))
    } else {
        Ok(d.subrange(off, off + le32(d, off + 4)))
    }
}

/// Copying the segment at `off` of `d` to the end of an output holding
/// `base` bytes and then `out`: where it lands, and what the output holds
/// after.
pub open spec fn copy_seg(d: Seq<u8>, base: u64, out: Seq<u8>, off: int, sig: Seq<u8>) -> (Result<u64, MixError>, Seq<u8>) {
    match segment(d, off, sig) {
        Err(e) => (Err(e), out),
        Ok(b) => if base + out.len() > u64::MAX {
            (Err(MixError::TooLarge), out)
        } else {
            (Ok((base + out.len()) as u64), out + b)
        },
    }
}

/// Copies the segment at `offset` of `src`, which must start with `sig`, to
/// the end of `output`; returns where it landed.
pub fn copy_segment(src: &[u8], output: &mut DdbOutput, offset: usize, sig: &[u8]) -> (r: Result<u64, MixError>)
    requires
        sig@.len() == 4,
    ensures
        final(output).base == old(output).base,
        (r, final(output).appended@) == copy_seg(src@, old(output).base, old(output).appended@, offset as int, sig@),
{
    let n = src.len();
    if offset > n || n - offset < 4 {
        return Err(MixError::Read(ParseError::UnexpectedEof));
    }
    if !matches_at_exec(src, sig, offset) {
        return Err(MixError::BrokenSegment);
    }
    if n - offset < 8 {
        return Err(MixError::Read(ParseError::UnexpectedEof));
    }
    let len = le_u32_at(src, offset + 4) as usize;
    if len > n - offset {
        return Err(MixError::Read(ParseError::UnexpectedEof));
    }
    let out_len = output.appended.len() as u64;
    if output.base > u64::MAX - out_len {
        return Err(MixError::TooLarge);
    }
    let pos = output.base + out_len;
    extend_bytes(&mut output.appended, vstd::slice::slice_subrange(src, offset, offset + len));
    Ok(pos)
}

/// A result, by the deep view of its value.
pub open spec fn res_view<T: DeepView>(r: Result<T, MixError>) -> Result<T::V, MixError> {
    match r {
        Ok(x) => Ok(x.deep_view()),
        Err(e) => Err(e),
    }
}

/// Copying the EpR segments `e` in turn: where each landed, and the output
/// after; the first failure stops the copying.
pub open spec fn copy_eprs(d: Seq<u8>, base: u64, out: Seq<u8>, e: Seq<EprRef>) -> (Result<Seq<u64>, MixError>, Seq<u8>)
    decreases e.len(),
{
    if e.len() == 0 {
        (Ok(Seq::empty()), out)
    } else {
        let (r, o) = copy_eprs(d, base, out, e.drop_last());
        match r {
            Err(x) => (Err(x), o),
            Ok(done) => {
                let (r2, o2) = copy_seg(d, base, o, e.last().off as int, frm2_sig());
                match r2 {
                    Err(x) => (Err(x), o2),
                    Ok(p) => (Ok(done.push(p)), o2),
                }
            },
        }
    }
}

/// Once copying fails, copying more fails the same way.
pub proof fn lemma_copy_eprs_fails(d: Seq<u8>, base: u64, out: Seq<u8>, e: Seq<EprRef>, k: int, m: int)
    requires
        0 <= k <= m <= e.len(),
        copy_eprs(d, base, out, e.subrange(0, k)).0 is Err,
    ensures
        copy_eprs(d, base, out, e.subrange(0, m)) == copy_eprs(d, base, out, e.subrange(0, k)),
    decreases m - k,
{
    if m > k {
        lemma_copy_eprs_fails(d, base, out, e, k, m - 1);
        assert(e.subrange(0, m).drop_last() =~= e.subrange(0, m - 1));
    }
}

/// The length field of the EpR segment `r` refers to.
pub open spec fn epr_seg_len(d: Seq<u8>, r: EprRef) -> int {
    le32(d, r.off + 4) as int
}

/// Law: when copying the EpR segments of `e_0 .. e_(n-1)` succeeds, it
/// gives one position per reference, in the same order. The first lands
/// just after what the output held; each next one just after the segment
/// before it; the output keeps what it held and after it holds, at each
/// position, the bytes of the segment referred to (which starts with the
/// `FRM2` signature and is as long as its length field says), and ends with
/// the last one.
#[verifier::rlimit(40)]
pub proof fn lemma_copy_eprs_in_order(d: Seq<u8>, base: u64, out: Seq<u8>, e: Seq<EprRef>)
    requires
        copy_eprs(d, base, out, e).0 is Ok,
    ensures
        ({
            let (r, o) = copy_eprs(d, base, out, e);
            let q = r->Ok_0;
            &&& q.len() == e.len()
            &&& o.subrange(0, out.len() as int) == out
            &&& e.len() == 0 ==> o == out
            &&& e.len() > 0 ==> q[0] == base + out.len() && base + o.len() == q[e.len() - 1] + epr_seg_len(
                d,
                e[e.len() - 1],
            )
            &&& forall|i: int| 0 <= i < e.len() - 1 ==> #[trigger] q[i + 1] == q[i] + epr_seg_len(d, e[i])
            &&& forall|i: int|
                0 <= i < e.len() ==> base + out.len() <= #[trigger] q[i] && q[i] + epr_seg_len(d, e[i]) <= base
                    + o.len() && o.subrange(q[i] - base, q[i] - base + epr_seg_len(d, e[i])) == d.subrange(
                    e[i].off as int,
                    e[i].off + epr_seg_len(d, e[i]),
                ) && matches_at(d, frm2_sig(), e[i].off as int)
        }),
    decreases e.len(),
{
    if e.len() > 0 {
        let init = e.drop_last();
        let (r0, o0) = copy_eprs(d, base, out, init);
        if r0 is Err {
            assert(false);
        }
        lemma_copy_eprs_in_order(d, base, out, init);
        let q0 = r0->Ok_0;
        let x = e.last();
        let b = segment(d, x.off as int, frm2_sig())->Ok_0;
        let (r, o) = copy_eprs(d, base, out, e);
        let q = r->Ok_0;
        let n = e.len() - 1;
        assert(q == q0.push(q[n]));
        assert(o == o0 + b);
        assert(q[n] == base + o0.len());
        assert(b.len() == epr_seg_len(d, x));
        assert(o.subrange(0, out.len() as int) =~= out) by {
            assert(o.subrange(0, out.len() as int) =~= o0.subrange(0, out.len() as int));
        }
        if n == 0 {
            assert(o0 == out);
        } else {
            assert(q[n - 1] == q0[n - 1]);
            assert(e[n - 1] == init[n - 1]);
        }
        assert forall|i: int| 0 <= i < e.len() - 1 implies #[trigger] q[i + 1] == q[i] + epr_seg_len(d, e[i]) by {
            assert(e[i] == init[i]);
            if i + 1 < n {
                assert(q[i + 1] == q0[i + 1]);
            }
        }
        assert forall|i: int| 0 <= i < e.len() implies base + out.len() <= #[trigger] q[i] && q[i] + epr_seg_len(d, e[i]) <= base
            + o.len() && o.subrange(q[i] - base, q[i] - base + epr_seg_len(d, e[i])) == d.subrange(
            e[i].off as int,
            e[i].off + epr_seg_len(d, e[i]),
        ) && matches_at(d, frm2_sig(), e[i].off as int) by {
            if i < n {
                assert(e[i] == init[i]);
                assert(q[i] == q0[i]);
                assert(q0[i] + epr_seg_len(d, init[i]) <= base + o0.len());
                assert(o.subrange(q[i] - base, q[i] - base + epr_seg_len(d, e[i])) =~= o0.subrange(
                    q[i] - base,
                    q[i] - base + epr_seg_len(d, e[i]),
                ));
            } else {
                assert(o.subrange(q[i] - base, q[i] - base + epr_seg_len(d, e[i])) =~= b);
            }
        }
    }
}

fn tag(a: u8, b: u8, c: u8, e: u8) -> (v: Vec<u8>)
    ensures
        v@ == tag4(a, b, c, e),
{
    let mut v: Vec<u8> = Vec::new();
    push_tag(&mut v, a, b, c, e);
    v
}

/// Copies the segment at the 64-bit offset `off`.
fn copy_at(src: &[u8], output: &mut DdbOutput, off: u64, sig: &[u8]) -> (r: Result<u64, MixError>)
    requires
        sig@.len() == 4,
    ensures
        final(output).base == old(output).base,
        (r, final(output).appended@) == copy_seg(src@, old(output).base, old(output).appended@, off as int, sig@),
{
    let n = src.len();
    if off > n as u64 {
        return Err(MixError::Read(ParseError::UnexpectedEof));
    }
    copy_segment(src, output, off as usize, sig)
}

/// Copies the EpR segments of the first `count` references of `epr`.
fn copy_epr_list(src: &[u8], output: &mut DdbOutput, epr: &Vec<EprRef>, count: usize) -> (r: Result<Vec<u64>, MixError>)
    requires
        count <= epr@.len(),
    ensures
        final(output).base == old(output).base,
        (res_view(r), final(output).appended@) == copy_eprs(src@, old(output).base, old(output).appended@, epr@.subrange(0, count as int)),
{
    let frm2 = tag(70, 82, 77, 50);
    let ghost d = src@;
    let ghost base = output.base;
    let ghost out0 = output.appended@;
    let mut offs: Vec<u64> = Vec::new();
    let mut i: usize = 0;
    assert(epr@.subrange(0, 0) =~= Seq::<EprRef>::empty());
    assert(offs.deep_view() =~= Seq::<u64>::empty());
    while i < count
        invariant
            count <= epr@.len(),
            i <= count,
            frm2@ == frm2_sig(),
            output.base == base,
            d == src@,
            base == old(output).base,
            out0 == old(output).appended@,
            copy_eprs(d, base, out0, epr@.subrange(0, i as int)) == (Ok::<Seq<u64>, MixError>(offs.deep_view()), output.appended@),
        decreases count - i,
    {
        let ghost before = output.appended@;
        let r = copy_at(src, output, epr[i].off, frm2.as_slice());
        proof {
            assert(epr@.subrange(0, i + 1).drop_last() =~= epr@.subrange(0, i as int));
            assert(epr@.subrange(0, i + 1).last() == epr@[i as int]);
        }
        match r {
            Ok(p) => {
                let ghost prev = offs.deep_view();
                offs.push(p);
                assert(offs.deep_view() =~= prev.push(p));
                i = i + 1;
            },
            Err(e) => {
                proof {
                    lemma_copy_eprs_fails(d, base, out0, epr@, i + 1, count as int);
                }
                return Err(e);
            },
        }
    }
    Ok(offs)
}

/// Copies the sound segment of `snd`, at `found_off` when a search found
/// where it starts, else at the offset `snd` holds; gives the sound's id
/// and where its segment landed.
fn copy_snd_common(src: &[u8], output: &mut DdbOutput, snd: SndRef, found_off: Option<usize>) -> (r: Result<(u32, u64), MixError>)
    ensures
        final(output).base == old(output).base,
        ({
            let off = match found_off {
                Some(o) => o as int,
                None => snd.off as int,
            };
            let (c, o) = copy_seg(src@, old(output).base, old(output).appended@, off, snd_sig());
            &&& final(output).appended@ == o
            &&& match c {
                Ok(p) => r == Ok::<(u32, u64), MixError>((snd.id, p)),
                Err(e) => r == Err::<(u32, u64), MixError>(e),
            }
        }),
{
    let snd_tag = tag(83, 78, 68, 32);
    let p = match found_off {
        Some(o) => copy_segment(src, output, o, snd_tag.as_slice())?,
        None => copy_at(src, output, snd.off, snd_tag.as_slice())?,
    };
    Ok((snd.id, p))
}

// ---------------------------------------------------------------- growl samples

/// The VQM record of the donor's growl sample `idx`, after copying its EpR
/// segments and then its sound segment.
pub open spec fn vqm_item_meta(d: Seq<u8>, base: u64, out: Seq<u8>, idx: u32, it: VqmItemV) -> (Result<VqmMetaV, MixError>, Seq<u8>) {
    let (r, o) = copy_eprs(d, base, out, it.epr);
    match r {
        Err(e) => (Err(e), o),
        Ok(eprs) => {
            let (r2, o2) = copy_seg(d, base, o, it.snd.off as int, snd_sig());
            match r2 {
                Err(e) => (Err(e), o2),
                Ok(p) => (
                    Ok(
                        VqmMetaV {
                            idx: dec(idx as nat),
                            epr: eprs,
                            snd_id: it.snd.id,
                            snd: p,
                            fs: it.fs,
                            duration: it.params.duration,
                            pitch2: it.params.pitch2,
                            unknown2: it.params.unknown2,
                            tempo: it.params.tempo,
                            dynamics: it.params.dynamics,
                        },
                    ),
                    o2,
                ),
            }
        },
    }
}

/// The VQM records of the donor's growl samples, in index order.
pub open spec fn vqm_metas(d: Seq<u8>, base: u64, out: Seq<u8>, items: Seq<(u32, VqmItemV)>) -> (Result<Seq<VqmMetaV>, MixError>, Seq<u8>)
    decreases items.len(),
{
    if items.len() == 0 {
        (Ok(Seq::empty()), out)
    } else {
        let (r, o) = vqm_metas(d, base, out, items.drop_last());
        match r {
            Err(e) => (Err(e), o),
            Ok(done) => {
                let (r2, o2) = vqm_item_meta(d, base, o, items.last().0, items.last().1);
                match r2 {
                    Err(e) => (Err(e), o2),
                    Ok(m) => (Ok(done.push(m)), o2),
                }
            },
        }
    }
}

/// Once the records fail, more records fail the same way.
pub proof fn lemma_vqm_metas_fails(d: Seq<u8>, base: u64, out: Seq<u8>, items: Seq<(u32, VqmItemV)>, k: int, m: int)
    requires
        0 <= k <= m <= items.len(),
        vqm_metas(d, base, out, items.subrange(0, k)).0 is Err,
    ensures
        vqm_metas(d, base, out, items.subrange(0, m)) == vqm_metas(d, base, out, items.subrange(0, k)),
    decreases m - k,
{
    if m > k {
        lemma_vqm_metas_fails(d, base, out, items, k, m - 1);
        assert(items.subrange(0, m).drop_last() =~= items.subrange(0, m - 1));
    }
}

fn vqm_meta_exec(src: &[u8], output: &mut DdbOutput, idx: u32, it: &VqmItem) -> (r: Result<VqmMeta, MixError>)
    ensures
        final(output).base == old(output).base,
        (res_view(r), final(output).appended@) == vqm_item_meta(src@, old(output).base, old(output).appended@, idx, it.deep_view()),
{
    let n = it.epr.len();
    assert(it.epr@.subrange(0, n as int) =~= it.epr@);
    let epr = copy_epr_list(src, output, &it.epr, n)?;
    assert(epr.deep_view() =~= epr@);
    let (snd_id, snd) = copy_snd_common(src, output, it.snd, None)?;
    Ok(VqmMeta {
        idx: dec_bytes(idx as u64),
        epr,
        snd_id,
        snd,
        fs: it.fs,
        duration: it.params.duration,
        pitch2: it.params.pitch2,
        unknown2: it.params.unknown2,
        tempo: it.params.tempo,
        dynamics: it.params.dynamics,
    })
}

/// Copies the segments of each of the donor's growl samples and gives
/// their VQM records.
pub fn vqm_meta_list(src: &[u8], output: &mut DdbOutput, vqm: &OrdMap<u32, VqmItem>) -> (r: Result<Vec<VqmMeta>, MixError>)
    ensures
        final(output).base == old(output).base,
        (res_view(r), final(output).appended@) == vqm_metas(src@, old(output).base, old(output).appended@, vqm.deep_view()),
{
    let ghost items = vqm.deep_view();
    let ghost d = src@;
    let ghost base = output.base;
    let ghost out0 = output.appended@;
    let mut metas: Vec<VqmMeta> = Vec::new();
    let n = vqm.entries.len();
    let mut i: usize = 0;
    assert(items.subrange(0, 0) =~= Seq::<(u32, VqmItemV)>::empty());
    assert(metas.deep_view() =~= Seq::<VqmMetaV>::empty());
    while i < n
        invariant
            n == items.len(),
            items == vqm.deep_view(),
            i <= n,
            d == src@,
            output.base == base,
            base == old(output).base,
            out0 == old(output).appended@,
            vqm_metas(d, base, out0, items.subrange(0, i as int)) == (Ok::<Seq<VqmMetaV>, MixError>(metas.deep_view()), output.appended@),
        decreases n - i,
    {
        let entry = &vqm.entries[i];
        proof {
            assert(items.subrange(0, i + 1).drop_last() =~= items.subrange(0, i as int));
            assert(items.subrange(0, i + 1).last() == items[i as int]);
            assert(items[i as int] == (entry.0, entry.1.deep_view()));
        }
        let m = match vqm_meta_exec(src, output, entry.0, &entry.1) {
            Ok(m) => m,
            Err(e) => {
                proof {
                    lemma_vqm_metas_fails(d, base, out0, items, i + 1, n as int);
                    assert(items.subrange(0, n as int) =~= items);
                }
                return Err(e);
            },
        };
        let ghost before = metas.deep_view();
        metas.push(m);
        assert(metas.deep_view() =~= before.push(m.deep_view()));
        i = i + 1;
    }
    assert(items.subrange(0, n as int) =~= items);
    Ok(metas)
}

// ---------------------------------------------------------------- stationary samples as growls

/// The VQM record made from the stationary sample at position `k` of its
/// entry: a sample with fewer than 100 EpR references is skipped; otherwise
/// its first 100 EpR segments are copied, then the sound segment found by
/// searching back from its reference for the `SND ` signature (a reference
/// below 4, or beyond what a `usize` holds, is corrupt).
pub open spec fn sta_item_meta(d: Seq<u8>, base: u64, out: Seq<u8>, k: int, it: StapItemV) -> Option<
    (Result<VqmMetaV, MixError>, Seq<u8>),
> {
    if it.epr.len() < 100 {
        None
    } else {
        let (r, o) = copy_eprs(d, base, out, it.epr.subrange(0, 100));
        Some(
            match r {
                Err(e) => (Err(e), o),
                Ok(eprs) => if it.snd.off < 4 || it.snd.off > usize::MAX {
                    (Err(MixError::Read(ParseError::Corrupt)), o)
                } else {
                    let found = backward_match(d, snd_sig(), it.snd.off as int, stream_reverse_limit(-1i32));
                    let (r2, o2) = copy_seg(d, base, o, found as int, snd_sig());
                    match r2 {
                        Err(e) => (Err(e), o2),
                        Ok(p) => (
                            Ok(
                                VqmMetaV {
                                    idx: dec(k as nat),
                                    epr: eprs,
                                    snd_id: it.snd.id,
                                    snd: p,
                                    fs: it.fs,
                                    duration: it.params.duration,
                                    pitch2: it.params.pitch2,
                                    unknown2: it.params.unknown2,
                                    tempo: it.params.tempo,
                                    dynamics: it.params.dynamics,
                                },
                            ),
                            o2,
                        ),
                    }
                },
            },
        )
    }
}

/// Law: the VQM record made from a stationary sample carries each of the
/// sample's parameters in the field of the same name (its duration, second
/// pitch, unknown value, dynamics and tempo), the sample's rate and sound
/// id, and the sample's position as its index; it lists where the sample's
/// first 100 EpR segments landed, the first just after what the output held.
pub proof fn lemma_sta_record_fields(d: Seq<u8>, base: u64, out: Seq<u8>, k: int, it: StapItemV)
    requires
        sta_item_meta(d, base, out, k, it) matches Some((Ok(_), _)),
    ensures
        ({
            let m = sta_item_meta(d, base, out, k, it)->Some_0.0->Ok_0;
            &&& m.duration == it.params.duration
            &&& m.pitch2 == it.params.pitch2
            &&& m.unknown2 == it.params.unknown2
            &&& m.dynamics == it.params.dynamics
            &&& m.tempo == it.params.tempo
            &&& m.fs == it.fs
            &&& m.snd_id == it.snd.id
            &&& m.idx == dec(k as nat)
            &&& m.epr.len() == 100
            &&& m.epr[0] == base + out.len()
        }),
{
    let es = it.epr.subrange(0, 100);
    lemma_copy_eprs_in_order(d, base, out, es);
}

/// Law: the VQM record of a growl sample carries each of the sample's
/// parameters in the field of the same name (its duration, second pitch,
/// unknown value, dynamics and tempo), the sample's rate and sound id, and
/// its index; it lists where each of the sample's EpR segments landed, in
/// the sample's order, the first just after what the output held.
pub proof fn lemma_vqm_record_fields(d: Seq<u8>, base: u64, out: Seq<u8>, idx: u32, it: VqmItemV)
    requires
        vqm_item_meta(d, base, out, idx, it).0 is Ok,
    ensures
        ({
            let m = vqm_item_meta(d, base, out, idx, it).0->Ok_0;
            &&& m.duration == it.params.duration
            &&& m.pitch2 == it.params.pitch2
            &&& m.unknown2 == it.params.unknown2
            &&& m.dynamics == it.params.dynamics
            &&& m.tempo == it.params.tempo
            &&& m.fs == it.fs
            &&& m.snd_id == it.snd.id
            &&& m.idx == dec(idx as nat)
            &&& m.epr.len() == it.epr.len()
            &&& it.epr.len() > 0 ==> m.epr[0] == base + out.len()
            &&& forall|i: int| 0 <= i < it.epr.len() - 1 ==> #[trigger] m.epr[i + 1] == m.epr[i] + epr_seg_len(d, it.epr[i])
        }),
{
    lemma_copy_eprs_in_order(d, base, out, it.epr);
}

/// The VQM records made from the samples of a stationary entry, in order.
pub open spec fn sta_metas(d: Seq<u8>, base: u64, out: Seq<u8>, items: Seq<(Seq<u8>, StapItemV)>) -> (Result<Seq<VqmMetaV>, MixError>, Seq<u8>)
    decreases items.len(),
{
    if items.len() == 0 {
        (Ok(Seq::empty()), out)
    } else {
        let (r, o) = sta_metas(d, base, out, items.drop_last());
        match r {
            Err(e) => (Err(e), o),
            Ok(done) => match sta_item_meta(d, base, o, items.len() - 1, items.last().1) {
                None => (Ok(done), o),
                Some((Err(e), o2)) => (Err(e), o2),
                Some((Ok(m), o2)) => (Ok(done.push(m)), o2),
            },
        }
    }
}

/// The record `m` carries the voice parameters `p` in the fields of the same
/// names (all but the first pitch, which every record writes as 224), the
/// rate `fs`, the sound id `snd_id` and the index `idx`.
pub open spec fn carries(m: VqmMetaV, idx: nat, p: VoiceParams, fs: u32, snd_id: u32) -> bool {
    &&& m.idx == dec(idx)
    &&& m.duration == p.duration
    &&& m.pitch2 == p.pitch2
    &&& m.unknown2 == p.unknown2
    &&& m.dynamics == p.dynamics
    &&& m.tempo == p.tempo
    &&& m.fs == fs
    &&& m.snd_id == snd_id
}

/// Law: when the records of the growl samples are all made, there is one
/// per sample, in the samples' order, each carrying its sample's index,
/// parameters, rate and sound id, and listing as many EpR positions as its
/// sample has references.
pub proof fn lemma_vqm_metas_in_order(d: Seq<u8>, base: u64, out: Seq<u8>, items: Seq<(u32, VqmItemV)>)
    requires
        vqm_metas(d, base, out, items).0 is Ok,
    ensures
        ({
            let ms = vqm_metas(d, base, out, items).0->Ok_0;
            &&& ms.len() == items.len()
            &&& forall|i: int|
                0 <= i < items.len() ==> carries(
                    #[trigger] ms[i],
                    items[i].0 as nat,
                    items[i].1.params,
                    items[i].1.fs,
                    items[i].1.snd.id,
                ) && ms[i].epr.len() == items[i].1.epr.len()
        }),
    decreases items.len(),
{
    if items.len() > 0 {
        let init = items.drop_last();
        let (r0, o0) = vqm_metas(d, base, out, init);
        if r0 is Err {
            assert(false);
        }
        lemma_vqm_metas_in_order(d, base, out, init);
        let x = items.last();
        lemma_vqm_record_fields(d, base, o0, x.0, x.1);
        let ms0 = r0->Ok_0;
        let ms = vqm_metas(d, base, out, items).0->Ok_0;
        assert(ms == ms0.push(vqm_item_meta(d, base, o0, x.0, x.1).0->Ok_0));
        assert forall|i: int| 0 <= i < items.len() implies carries(
            #[trigger] ms[i],
            items[i].0 as nat,
            items[i].1.params,
            items[i].1.fs,
            items[i].1.snd.id,
        ) && ms[i].epr.len() == items[i].1.epr.len() by {
            if i < items.len() - 1 {
                assert(ms[i] == ms0[i]);
                assert(items[i] == init[i]);
            }
        }
    }
}

/// The positions of the samples that have at least 100 EpR references, in
/// order.
pub open spec fn growl_ready(items: Seq<(Seq<u8>, StapItemV)>) -> Seq<int>
    decreases items.len(),
{
    if items.len() == 0 {
        Seq::empty()
    } else if items.last().1.epr.len() >= 100 {
        growl_ready(items.drop_last()).push(items.len() - 1)
    } else {
        growl_ready(items.drop_last())
    }
}

/// Law: when the records of a stationary's samples are all made, there is
/// one per sample that has at least 100 EpR references, in the samples'
/// order, each carrying its sample's position as its index and the
/// sample's parameters, rate and sound id, and listing 100 EpR positions.
#[verifier::rlimit(40)]
pub proof fn lemma_sta_metas_in_order(d: Seq<u8>, base: u64, out: Seq<u8>, items: Seq<(Seq<u8>, StapItemV)>)
    requires
        sta_metas(d, base, out, items).0 is Ok,
    ensures
        ({
            let ms = sta_metas(d, base, out, items).0->Ok_0;
            let g = growl_ready(items);
            &&& ms.len() == g.len()
            &&& forall|t: int| 0 <= t < g.len() ==> 0 <= #[trigger] g[t] < items.len() && items[g[t]].1.epr.len() >= 100
            &&& forall|t: int, u: int| 0 <= t < u < g.len() ==> #[trigger] g[t] < #[trigger] g[u]
            &&& forall|t: int|
                0 <= t < g.len() ==> carries(
                    #[trigger] ms[t],
                    g[t] as nat,
                    items[g[t]].1.params,
                    items[g[t]].1.fs,
                    items[g[t]].1.snd.id,
                ) && ms[t].epr.len() == 100
        }),
    decreases items.len(),
{
    if items.len() > 0 {
        let init = items.drop_last();
        let (r0, o0) = sta_metas(d, base, out, init);
        if r0 is Err {
            assert(false);
        }
        lemma_sta_metas_in_order(d, base, out, init);
        let x = items.last();
        let last = items.len() - 1;
        let ms0 = r0->Ok_0;
        let ms = sta_metas(d, base, out, items).0->Ok_0;
        let g0 = growl_ready(init);
        let g = growl_ready(items);
        assert forall|t: int| 0 <= t < g0.len() implies items[g0[t]] == init[g0[t]] by {
            assert(0 <= g0[t] < init.len());
        }
        if x.1.epr.len() >= 100 {
            lemma_sta_record_fields(d, base, o0, last, x.1);
            assert(ms == ms0.push(sta_item_meta(d, base, o0, last, x.1)->Some_0.0->Ok_0));
            assert(g == g0.push(last));
            assert forall|t: int| 0 <= t < g.len() implies 0 <= #[trigger] g[t] < items.len() && items[g[t]].1.epr.len() >= 100 by {
                if t < g0.len() {
                    assert(g[t] == g0[t]);
                    assert(0 <= g0[t] < init.len());
                }
            }
            assert forall|t: int, u: int| 0 <= t < u < g.len() implies #[trigger] g[t] < #[trigger] g[u] by {
                assert(g[t] == g0[t]);
                assert(0 <= g0[t] < init.len());
                if u < g0.len() {
                    assert(g[u] == g0[u]);
                }
            }
            assert forall|t: int| 0 <= t < g.len() implies carries(
                #[trigger] ms[t],
                g[t] as nat,
                items[g[t]].1.params,
                items[g[t]].1.fs,
                items[g[t]].1.snd.id,
            ) && ms[t].epr.len() == 100 by {
                if t < g0.len() {
                    assert(ms[t] == ms0[t]);
                    assert(g[t] == g0[t]);
                }
            }
        } else {
            assert(g == g0);
            assert(ms == ms0);
            assert forall|t: int| 0 <= t < g.len() implies 0 <= #[trigger] g[t] < items.len() && items[g[t]].1.epr.len() >= 100 by {
                assert(0 <= g0[t] < init.len());
            }
        }
    }
}

/// Once the records fail, more records fail the same way.
pub proof fn lemma_sta_metas_fails(d: Seq<u8>, base: u64, out: Seq<u8>, items: Seq<(Seq<u8>, StapItemV)>, k: int, m: int)
    requires
        0 <= k <= m <= items.len(),
        sta_metas(d, base, out, items.subrange(0, k)).0 is Err,
    ensures
        sta_metas(d, base, out, items.subrange(0, m)) == sta_metas(d, base, out, items.subrange(0, k)),
    decreases m - k,
{
    if m > k {
        lemma_sta_metas_fails(d, base, out, items, k, m - 1);
        assert(items.subrange(0, m).drop_last() =~= items.subrange(0, m - 1));
    }
}

fn sta_meta_exec(src: &[u8], output: &mut DdbOutput, k: usize, it: &StapItem) -> (r: Option<Result<VqmMeta, MixError>>)
    ensures
        final(output).base == old(output).base,
        match sta_item_meta(src@, old(output).base, old(output).appended@, k as int, it.deep_view()) {
            None => r is None && final(output).appended@ == old(output).appended@,
            Some((x, o)) => r matches Some(y) && res_view(y) == x && final(output).appended@ == o,
        },
{
    if it.epr.len() < 100 {
        return None;
    }
    let epr = match copy_epr_list(src, output, &it.epr, 100) {
        Ok(v) => v,
        Err(e) => {
            return Some(Err(e));
        },
    };
    assert(epr.deep_view() =~= epr@);
    if it.snd.off < 4 || it.snd.off > usize::MAX as u64 {
        return Some(Err(MixError::Read(ParseError::Corrupt)));
    }
    let snd_tag = tag(83, 78, 68, 32);
    let found = stream_reverse_search(src, snd_tag.as_slice(), it.snd.off as usize, -1);
    proof {
        crate::search::lemma_backward_match(src@, snd_sig(), it.snd.off as int, stream_reverse_limit(-1i32), found);
    }
    let (snd_id, snd) = match copy_snd_common(src, output, it.snd, Some(found)) {
        Ok(x) => x,
        Err(e) => {
            return Some(Err(e));
        },
    };
    Some(Ok(VqmMeta {
        idx: dec_bytes(k as u64),
        epr,
        snd_id,
        snd,
        fs: it.fs,
        duration: it.params.duration,
        pitch2: it.params.pitch2,
        unknown2: it.params.unknown2,
        tempo: it.params.tempo,
        dynamics: it.params.dynamics,
    }))
}

/// Copies the segments of each stationary sample of `entry` that has at
/// least 100 EpR references and gives their VQM records.
pub fn sta_meta_list(src: &[u8], output: &mut DdbOutput, entry: &StaEntry) -> (r: Result<Vec<VqmMeta>, MixError>)
    ensures
        final(output).base == old(output).base,
        (res_view(r), final(output).appended@) == sta_metas(src@, old(output).base, old(output).appended@, entry.deep_view().stap),
{
    let ghost items = entry.deep_view().stap;
    let ghost d = src@;
    let ghost base = output.base;
    let ghost out0 = output.appended@;
    let mut metas: Vec<VqmMeta> = Vec::new();
    let n = entry.stap.entries.len();
    let mut i: usize = 0;
    assert(items.subrange(0, 0) =~= Seq::<(Seq<u8>, StapItemV)>::empty());
    assert(metas.deep_view() =~= Seq::<VqmMetaV>::empty());
    while i < n
        invariant
            n == items.len(),
            items == entry.deep_view().stap,
            items == entry.stap.deep_view(),
            i <= n,
            d == src@,
            output.base == base,
            base == old(output).base,
            out0 == old(output).appended@,
            sta_metas(d, base, out0, items.subrange(0, i as int)) == (Ok::<Seq<VqmMetaV>, MixError>(metas.deep_view()), output.appended@),
        decreases n - i,
    {
        let item = &entry.stap.entries[i];
        proof {
            assert(items.subrange(0, i + 1).drop_last() =~= items.subrange(0, i as int));
            assert(items.subrange(0, i + 1).last() == items[i as int]);
            assert(items[i as int] == (item.0.deep_view(), item.1.deep_view()));
        }
        match sta_meta_exec(src, output, i, &item.1) {
            None => {},
            Some(Ok(m)) => {
                let ghost before = metas.deep_view();
                metas.push(m);
                assert(metas.deep_view() =~= before.push(m.deep_view()));
            },
            Some(Err(e)) => {
                proof {
                    lemma_sta_metas_fails(d, base, out0, items, i + 1, n as int);
                    assert(items.subrange(0, n as int) =~= items);
                }
                return Err(e);
            },
        }
        i = i + 1;
    }
    assert(items.subrange(0, n as int) =~= items);
    Ok(metas)
}

/// The first stationary entry, in index order, for the phoneme `ph`.
pub open spec fn find_sta(sta: Seq<(u32, StaEntryV)>, ph: Seq<u8>) -> Option<StaEntryV>
    decreases sta.len(),
{
    if sta.len() == 0 {
        None
    } else if sta[0].1.phoneme == ph {
        Some(sta[0].1)
    } else {
        find_sta(sta.drop_first(), ph)
    }
}

/// Law: the stationary taken for a phoneme is the first one, in index
/// order, with that phoneme; there is none exactly when no stationary has
/// it.
pub proof fn lemma_find_sta_first(sta: Seq<(u32, StaEntryV)>, ph: Seq<u8>)
    ensures
        find_sta(sta, ph) is None <==> forall|i: int| 0 <= i < sta.len() ==> #[trigger] sta[i].1.phoneme != ph,
        find_sta(sta, ph) is Some ==> exists|i: int|
            0 <= i < sta.len() && #[trigger] sta[i].1 == find_sta(sta, ph)->Some_0 && sta[i].1.phoneme == ph
                && forall|j: int| 0 <= j < i ==> #[trigger] sta[j].1.phoneme != ph,
    decreases sta.len(),
{
    if sta.len() > 0 {
        let t = sta.drop_first();
        lemma_find_sta_first(t, ph);
        if sta[0].1.phoneme != ph {
            assert forall|i: int| 0 <= i < t.len() implies #[trigger] t[i] == sta[i + 1] by {}
            if find_sta(t, ph) is Some {
                let i = choose|i: int|
                    0 <= i < t.len() && #[trigger] t[i].1 == find_sta(t, ph)->Some_0 && t[i].1.phoneme == ph
                        && forall|j: int| 0 <= j < i ==> #[trigger] t[j].1.phoneme != ph;
                assert(sta[i + 1].1 == find_sta(sta, ph)->Some_0);
                assert forall|j: int| 0 <= j < i + 1 implies #[trigger] sta[j].1.phoneme != ph by {
                    if j > 0 {
                        assert(sta[j] == t[j - 1]);
                    }
                }
            } else {
                assert forall|i: int| 0 <= i < sta.len() implies #[trigger] sta[i].1.phoneme != ph by {
                    if i > 0 {
                        assert(sta[i] == t[i - 1]);
                    }
                }
            }
        } else {
            assert(sta[0].1 == find_sta(sta, ph)->Some_0);
        }
    }
}

fn find_sta_exec<'a>(sta: &'a OrdMap<u32, StaEntry>, ph: &[u8]) -> (r: Option<&'a StaEntry>)
    ensures
        match find_sta(sta.deep_view(), ph@) {
            None => r is None,
            Some(e) => r matches Some(x) && x.deep_view() == e,
        },
{
    let ghost s = sta.deep_view();
    let n = sta.entries.len();
    let mut i: usize = 0;
    assert(s.subrange(0, n as int) =~= s);
    while i < n
        invariant
            n == s.len(),
            s == sta.deep_view(),
            i <= n,
            find_sta(s, ph@) == find_sta(s.subrange(i as int, n as int), ph@),
        decreases n - i,
    {
        let e = &sta.entries[i].1;
        assert(s[i as int].1 == e.deep_view());
        assert(s.subrange(i as int, n as int)[0] == s[i as int]);
        assert(s.subrange(i as int, n as int).drop_first() =~= s.subrange(i + 1, n as int));
        proof {
            crate::ordmap::lemma_vec_u8_deep_view(&e.phoneme);
        }
        if crate::ordmap::bytes_eq(e.phoneme.as_slice(), ph) {
            return Some(e);
        }
        i = i + 1;
    }
    None
}

// ---------------------------------------------------------------- splicing

/// What ends a DDI: a string field holding `voice`.
pub open spec fn footer_sig() -> Seq<u8> {
    seq![5u8, 0u8, 0u8, 0u8, 118u8, 111u8, 105u8, 99u8, 101u8]
}

/// The summary of the model lists growl samples.
pub open spec fn has_vqm_dict(m: ModelV) -> bool {
    m.dict matches Some(dd) && dd.vqm is Some
}

/// `d` with the 32-bit value at `q` replaced by `x`.
pub open spec fn put32(d: Seq<u8>, q: int, x: u32) -> Seq<u8> {
    d.subrange(0, q) + enc32(x) + d.subrange(q + 4, d.len() as int)
}

/// The DDI `d`, read into `m`, with the VQM stream `stream` in place of its
/// own, or, when it has none, inserted before its footer with the count of
/// the DBV section (24 bytes into it) raised by one.
pub open spec fn vqm_splice(d: Seq<u8>, m: ModelV, stream: Seq<u8>) -> Result<Seq<u8>, MixError> {
    if has_vqm_dict(m) {
        match m.offsets.vqm {
            Some((a, b)) => if a <= b && b <= d.len() {
                Ok(replaced(d, a as int, b - a, stream))
            } else {
                Err(MixError::Read(ParseError::Corrupt))
            },
            None => Err(MixError::Read(ParseError::Corrupt)),
        }
    } else {
        match first_match(d, footer_sig()) {
            None => Err(MixError::MissingFooter),
            Some(p) => match m.offsets.dbv {
                None => Err(MixError::MissingDbv),
                Some((dbv, _)) => if !fits(d, dbv + 0x18, 4) {
                    Err(MixError::Read(ParseError::UnexpectedEof))
                } else if le32(d, dbv + 0x18) == u32::MAX {
                    Err(MixError::Read(ParseError::Corrupt))
                } else {
                    Ok(replaced(put32(d, dbv + 0x18, (le32(d, dbv + 0x18) + 1) as u32), p as int, 0, stream))
                },
            },
        }
    }
}

fn put_u32_le(v: &mut Vec<u8>, q: usize, x: u32)
    requires
        q + 4 <= old(v)@.len(),
    ensures
        final(v)@ == put32(old(v)@, q as int, x),
{
    let n = v.len();
    v.set(q, (x % 0x100) as u8);
    v.set(q + 1, ((x / 0x100) % 0x100) as u8);
    v.set(q + 2, ((x / 0x10000) % 0x100) as u8);
    v.set(q + 3, (x / 0x1000000) as u8);
    assert(final(v)@ =~= put32(old(v)@, q as int, x));
}

/// Splices the VQM stream into the DDI of `model`.
pub fn splice_vqm(model: &DDIModel, stream: &[u8]) -> (r: Result<Vec<u8>, MixError>)
    ensures
        res_view(r) == vqm_splice(model.ddi_bytes@, model.contents(), stream@),
{
    let d = model.ddi_bytes.as_slice();
    let n = d.len();
    let has_vqm = match &model.ddi_data_dict {
        Some(dd) => dd.vqm.is_some(),
        None => false,
    };
    if has_vqm {
        match model.offset_map.vqm {
            Some((a, b)) => {
                if a <= b && b <= n {
                    let v = byte_replace(d, a, b - a, stream);
                    assert(v.deep_view() =~= v@);
                    Ok(v)
                } else {
                    Err(MixError::Read(ParseError::Corrupt))
                }
            },
            None => Err(MixError::Read(ParseError::Corrupt)),
        }
    } else {
        let footer = field_data(&[118u8, 111u8, 105u8, 99u8, 101u8]);
        assert(footer@ =~= footer_sig()) by {
            crate::bytes::lemma_le32_enc32(5);
            assert(enc32(5) =~= seq![5u8, 0u8, 0u8, 0u8]);
        }
        match locate(d, footer.as_slice()) {
            None => Err(MixError::MissingFooter),
            Some(p) => match model.offset_map.dbv {
                None => Err(MixError::MissingDbv),
                Some((dbv, _)) => {
                    if dbv > n || n - dbv < 0x18 + 4 {
                        Err(MixError::Read(ParseError::UnexpectedEof))
                    } else {
                        let q = dbv + 0x18;
                        let count = le_u32_at(d, q);
                        if count == u32::MAX {
                            Err(MixError::Read(ParseError::Corrupt))
                        } else {
                            let mut bumped = vstd::slice::slice_to_vec(d);
                            put_u32_le(&mut bumped, q, count + 1);
                            let v = byte_replace(bumped.as_slice(), p, 0, stream);
                            assert(v.deep_view() =~= v@);
                            Ok(v)
                        }
                    }
                },
            },
        }
    }
}

/// Law: when the VQM stream is spliced into a DDI, the result holds the
/// stream at one place and the DDI's own bytes around it. A DDI that has a
/// VQM section has exactly that section replaced by the stream. Otherwise
/// the stream goes right before the first footer signature, and of the
/// DDI's bytes only the four at DBV + 0x18 change: when they lie before the
/// footer, the count there grows by one and the footer follows the stream.
pub proof fn lemma_vqm_splice_places_stream(d: Seq<u8>, m: ModelV, stream: Seq<u8>)
    requires
        d.len() <= usize::MAX,
        vqm_splice(d, m, stream) is Ok,
    ensures
        ({
            let r = vqm_splice(d, m, stream)->Ok_0;
            &&& has_vqm_dict(m) ==> ({
                let (a, b) = m.offsets.vqm->Some_0;
                &&& m.offsets.vqm is Some
                &&& r.len() == d.len() - (b - a) + stream.len()
                &&& r.subrange(0, a as int) == d.subrange(0, a as int)
                &&& r.subrange(a as int, a + stream.len()) == stream
                &&& r.subrange(a + stream.len(), r.len() as int) == d.subrange(b as int, d.len() as int)
            })
            &&& !has_vqm_dict(m) ==> ({
                let p = first_match(d, footer_sig())->Some_0 as int;
                let c = m.offsets.dbv->Some_0.0 + 0x18;
                &&& first_match(d, footer_sig()) is Some
                &&& m.offsets.dbv is Some
                &&& r.len() == d.len() + stream.len()
                &&& r.subrange(p, p + stream.len()) == stream
                &&& forall|i: int| 0 <= i < p && !(c <= i < c + 4) ==> #[trigger] r[i] == d[i]
                &&& forall|i: int| p <= i < d.len() && !(c <= i < c + 4) ==> #[trigger] r[i + stream.len()] == d[i]
                &&& c + 4 <= p ==> le32(r, c) == le32(d, c) + 1
                &&& c + 4 <= p ==> r.subrange(p + stream.len(), p + stream.len() + 9) == footer_sig()
            })
        }),
{
    let r = vqm_splice(d, m, stream)->Ok_0;
    if has_vqm_dict(m) {
        let (a, b) = m.offsets.vqm->Some_0;
        assert(r == replaced(d, a as int, b - a, stream));
        assert(r.subrange(0, a as int) =~= d.subrange(0, a as int));
        assert(r.subrange(a as int, a + stream.len()) =~= stream);
        assert(r.subrange(a + stream.len(), r.len() as int) =~= d.subrange(b as int, d.len() as int));
    } else {
        let p = first_match(d, footer_sig())->Some_0 as int;
        let c = m.offsets.dbv->Some_0.0 + 0x18;
        let x = (le32(d, c) + 1) as u32;
        let d2 = put32(d, c, x);
        assert(r == replaced(d2, p, 0, stream));
        lemma_first_match_is_first(d, footer_sig());
        assert(p + 9 <= d.len());
        assert(d2.len() == d.len());
        assert(r.subrange(p, p + stream.len()) =~= stream);
        assert forall|i: int| 0 <= i < p && !(c <= i < c + 4) implies #[trigger] r[i] == d[i] by {
            assert(r[i] == d2[i]);
        }
        assert forall|i: int| p <= i < d.len() && !(c <= i < c + 4) implies #[trigger] r[i + stream.len()] == d[i] by {
            assert(r[i + stream.len()] == d2[i]);
        }
        if c + 4 <= p {
            assert(r.subrange(c, c + 4) =~= enc32(x));
            lemma_le32_in(r, c, x);
            assert(d.subrange(p, p + 9) == footer_sig());
            assert(r.subrange(p + stream.len(), p + stream.len() + 9) =~= d.subrange(p, p + 9));
        }
    }
}

/// The donor's summary lists growl samples and it holds them: only then
/// does grafting them read the receiving DDI.
pub open spec fn donor_has_growls(mix: ModelV) -> bool {
    has_vqm_dict(mix) && mix.vqm is Some
}

/// Whether the donor `model` has growl samples to graft.
pub fn has_growls(model: &DDIModel) -> (r: bool)
    ensures
        r == donor_has_growls(model.contents()),
{
    let listed = match &model.ddi_data_dict {
        Some(dd) => dd.vqm.is_some(),
        None => false,
    };
    listed && model.vqm_data.is_some()
}

/// Grafting the donor's growl samples onto the DDI `src_ddi`: what the
/// output DDB holds after, and the new DDI or why it failed.
pub open spec fn mixins_vqm_spec(src_ddi: Seq<u8>, mix: ModelV, ddb: Seq<u8>, base: u64, out: Seq<u8>) -> (Result<Seq<u8>, MixError>, Seq<u8>) {
    if !donor_has_growls(mix) {
        (Err(MixError::MissingVqm), out)
    } else {
        let (sm, rr) = read_spec(src_ddi, empty_contents());
        match rr {
            Err(e) => (Err(MixError::Read(e)), out),
            Ok(_) => {
                let (mr, o) = vqm_metas(ddb, base, out, mix.vqm.unwrap());
                match mr {
                    Err(e) => (Err(e), o),
                    Ok(ms) => (vqm_splice(src_ddi, sm, vqm_stream(ms)), o),
                }
            },
        }
    }
}

/// Copies the donor's growl samples (from its DDB `mixins_ddb`) to the end
/// of `output` and gives the DDI `src_ddi` with a VQM stream for them.
pub fn mixins_vqm(src_ddi: &[u8], output: &mut DdbOutput, mixins_model: &DDIModel, mixins_ddb: &[u8]) -> (r: Result<Vec<u8>, MixError>)
    requires
        donor_has_growls(mixins_model.contents()) ==> !read_aborts(src_ddi@),
    ensures
        final(output).base == old(output).base,
        (res_view(r), final(output).appended@) == mixins_vqm_spec(src_ddi@, mixins_model.contents(), mixins_ddb@, old(output).base, old(output).appended@),
{
    let has_vqm = match &mixins_model.ddi_data_dict {
        Some(dd) => dd.vqm.is_some(),
        None => false,
    };
    let mix_vqm = match &mixins_model.vqm_data {
        Some(v) => v,
        None => {
            return Err(MixError::MissingVqm);
        },
    };
    if !has_vqm {
        return Err(MixError::MissingVqm);
    }
    let mut src_model = DDIModel::new(vstd::slice::slice_to_vec(src_ddi));
    match src_model.read(None, false) {
        Ok(()) => {},
        Err(e) => {
            return Err(MixError::Read(e));
        },
    }
    let metas = vqm_meta_list(mixins_ddb, output, mix_vqm)?;
    let stream = create_vqm_stream(metas.as_slice());
    assert(metas@.map_values(|m: VqmMeta| m.deep_view()) =~= metas.deep_view());
    splice_vqm(&src_model, stream.as_slice())
}

/// Making growl samples of the donor's stationary samples of `ph`: what the
/// output DDB holds after, and the new DDI or why it failed.
pub open spec fn mixins_sta2vqm_spec(src_ddi: Seq<u8>, mix: ModelV, ddb: Seq<u8>, base: u64, out: Seq<u8>, ph: Seq<u8>) -> (Result<Seq<u8>, MixError>, Seq<u8>) {
    let (sm, rr) = read_spec(src_ddi, empty_contents());
    match rr {
        Err(e) => (Err(MixError::Read(e)), out),
        Ok(_) => match find_sta(mix.sta, ph) {
            None => (Err(MixError::MissingStationary), out),
            Some(entry) => {
                let (mr, o) = sta_metas(ddb, base, out, entry.stap);
                match mr {
                    Err(e) => (Err(e), o),
                    Ok(ms) => (vqm_splice(src_ddi, sm, vqm_stream(ms)), o),
                }
            },
        },
    }
}

/// Copies the donor's stationary samples of `sta2vqm_phoneme` (from its DDB
/// `mixins_ddb`) to the end of `output` and gives the DDI `src_ddi` with a
/// VQM stream that uses them as growl samples.
pub fn mixins_sta2vqm(src_ddi: &[u8], output: &mut DdbOutput, mixins_model: &DDIModel, mixins_ddb: &[u8], sta2vqm_phoneme: &str) -> (r: Result<Vec<u8>, MixError>)
    requires
        !read_aborts(src_ddi@),
    ensures
        final(output).base == old(output).base,
        (res_view(r), final(output).appended@) == mixins_sta2vqm_spec(src_ddi@, mixins_model.contents(), mixins_ddb@, old(output).base, old(output).appended@, sta2vqm_phoneme.spec_bytes()),
{
    let mut src_model = DDIModel::new(vstd::slice::slice_to_vec(src_ddi));
    match src_model.read(None, false) {
        Ok(()) => {},
        Err(e) => {
            return Err(MixError::Read(e));
        },
    }
    let entry = match find_sta_exec(&mixins_model.sta_data, sta2vqm_phoneme.as_bytes()) {
        Some(e) => e,
        None => {
            return Err(MixError::MissingStationary);
        },
    };
    let metas = sta_meta_list(mixins_ddb, output, entry)?;
    let stream = create_vqm_stream(metas.as_slice());
    assert(metas@.map_values(|m: VqmMeta| m.deep_view()) =~= metas.deep_view());
    splice_vqm(&src_model, stream.as_slice())
}

// ---------------------------------------------------------------- the output only grows

/// `b` begins with `a`.
pub open spec fn extends(a: Seq<u8>, b: Seq<u8>) -> bool {
    a.len() <= b.len() && b.subrange(0, a.len() as int) == a
}

pub proof fn lemma_extends_trans(a: Seq<u8>, b: Seq<u8>, c: Seq<u8>)
    requires
        extends(a, b),
        extends(b, c),
    ensures
        extends(a, c),
{
    assert(c.subrange(0, a.len() as int) =~= b.subrange(0, a.len() as int));
}

proof fn lemma_copy_seg_extends(d: Seq<u8>, base: u64, out: Seq<u8>, off: int, sig: Seq<u8>)
    ensures
        extends(out, copy_seg(d, base, out, off, sig).1),
{
    let o = copy_seg(d, base, out, off, sig).1;
    assert(o.subrange(0, out.len() as int) =~= out);
}

proof fn lemma_copy_eprs_extends(d: Seq<u8>, base: u64, out: Seq<u8>, e: Seq<EprRef>)
    ensures
        extends(out, copy_eprs(d, base, out, e).1),
    decreases e.len(),
{
    if e.len() == 0 {
        assert(out.subrange(0, out.len() as int) =~= out);
    } else {
        lemma_copy_eprs_extends(d, base, out, e.drop_last());
        let (r, o) = copy_eprs(d, base, out, e.drop_last());
        lemma_copy_seg_extends(d, base, o, e.last().off as int, frm2_sig());
        lemma_extends_trans(out, o, copy_seg(d, base, o, e.last().off as int, frm2_sig()).1);
    }
}

proof fn lemma_vqm_metas_extends(d: Seq<u8>, base: u64, out: Seq<u8>, items: Seq<(u32, VqmItemV)>)
    ensures
        extends(out, vqm_metas(d, base, out, items).1),
    decreases items.len(),
{
    if items.len() == 0 {
        assert(out.subrange(0, out.len() as int) =~= out);
    } else {
        lemma_vqm_metas_extends(d, base, out, items.drop_last());
        let (r, o) = vqm_metas(d, base, out, items.drop_last());
        let it = items.last().1;
        lemma_copy_eprs_extends(d, base, o, it.epr);
        let o1 = copy_eprs(d, base, o, it.epr).1;
        lemma_copy_seg_extends(d, base, o1, it.snd.off as int, snd_sig());
        lemma_extends_trans(o, o1, copy_seg(d, base, o1, it.snd.off as int, snd_sig()).1);
        lemma_extends_trans(out, o, vqm_item_meta(d, base, o, items.last().0, it).1);
    }
}

proof fn lemma_sta_metas_extends(d: Seq<u8>, base: u64, out: Seq<u8>, items: Seq<(Seq<u8>, StapItemV)>)
    ensures
        extends(out, sta_metas(d, base, out, items).1),
    decreases items.len(),
{
    if items.len() == 0 {
        assert(out.subrange(0, out.len() as int) =~= out);
    } else {
        lemma_sta_metas_extends(d, base, out, items.drop_last());
        let (r, o) = sta_metas(d, base, out, items.drop_last());
        let it = items.last().1;
        if it.epr.len() >= 100 {
            lemma_copy_eprs_extends(d, base, o, it.epr.subrange(0, 100));
            let o1 = copy_eprs(d, base, o, it.epr.subrange(0, 100)).1;
            let found = backward_match(d, snd_sig(), it.snd.off as int, stream_reverse_limit(-1i32));
            lemma_copy_seg_extends(d, base, o1, found as int, snd_sig());
            lemma_extends_trans(o, o1, copy_seg(d, base, o1, found as int, snd_sig()).1);
            lemma_extends_trans(out, o, sta_item_meta(d, base, o, items.len() - 1, it).unwrap().1);
        }
    }
}

/// Grafting only appends to the output DDB: whatever it held before stays
/// at its start, whether grafting succeeds or fails.
pub proof fn lemma_mixins_only_append(src_ddi: Seq<u8>, mix: ModelV, ddb: Seq<u8>, base: u64, out: Seq<u8>, ph: Seq<u8>)
    ensures
        extends(out, mixins_vqm_spec(src_ddi, mix, ddb, base, out).1),
        extends(out, mixins_sta2vqm_spec(src_ddi, mix, ddb, base, out, ph).1),
{
    assert(out.subrange(0, out.len() as int) =~= out);
    if has_vqm_dict(mix) && mix.vqm is Some {
        lemma_vqm_metas_extends(ddb, base, out, mix.vqm.unwrap());
    }
    match find_sta(mix.sta, ph) {
        Some(entry) => lemma_sta_metas_extends(ddb, base, out, entry.stap),
        None => {},
    }
}

} // verus!
