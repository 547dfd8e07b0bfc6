//! Extracting the sounds of a voicebank: which articulation samples there
//! are, reading a sound segment's header, and finding sound segments in a
//! stretch of the DDB.

use vstd::prelude::*;
use crate::bytes::{le16, le32, le_u16_at, le_u32_at};
use crate::model::{ArtpItem, ArtpItemV, ArtuEntry, ArtuEntryV, ArtBlock, ArtBlockV, art_block_view};
use crate::ordmap::{OrdMap, lemma_vec_u8_deep_view};
use crate::search::{matches_at, matches_at_exec};
use crate::mixins::snd_sig;
use crate::bytes::enc32;
use crate::format::{lemma_split, lemma_le32_in};

verus! {

// ---------------------------------------------------------------- articulation samples

/// An articulation sample to extract: its number within its unit (0 for
/// the units of a nested block), its phonemes, and the sample.
pub struct ArtSample<'a> {
    pub idx: usize,
    pub phonemes: Vec<Vec<u8>>,
    pub item: &'a ArtpItem,
}

pub struct ArtSampleV {
    pub idx: int,
    pub phonemes: Seq<Seq<u8>>,
    pub item: ArtpItemV,
}

impl<'a> ArtSample<'a> {
    pub open spec fn view(&self) -> ArtSampleV {
        ArtSampleV { idx: self.idx as int, phonemes: self.phonemes.deep_view(), item: self.item.deep_view() }
    }
}

pub open spec fn samples_view<'a>(v: Seq<ArtSample<'a>>) -> Seq<ArtSampleV> {
    Seq::new(v.len(), |i: int| v[i].view())
}

/// The samples of one unit after the phonemes `prefix`.
pub open spec fn unit_samples(prefix: Seq<Seq<u8>>, u: ArtuEntryV, numbered: bool) -> Seq<ArtSampleV> {
    Seq::new(
        u.artp.len(),
        |i: int| ArtSampleV { idx: if numbered { i } else { 0 }, phonemes: prefix.push(u.phoneme), item: u.artp[i].1 },
    )
}

/// The samples of the units `artu`, in order, after the phonemes `prefix`.
pub open spec fn units_samples(prefix: Seq<Seq<u8>>, artu: Seq<(Seq<u8>, ArtuEntryV)>, numbered: bool) -> Seq<ArtSampleV>
    decreases artu.len(),
{
    if artu.len() == 0 {
        Seq::empty()
    } else {
        units_samples(prefix, artu.drop_last(), numbered) + unit_samples(prefix, artu.last().1, numbered)
    }
}

/// The samples of a block: those of its units, numbered within each unit,
/// under its phoneme; then those of the units of its nested block, under
/// both phonemes.
pub open spec fn block_samples(b: ArtBlockV) -> Seq<ArtSampleV> {
    units_samples(seq![b.phoneme], b.artu, true) + match b.sub {
        Some((_, sb)) => units_samples(seq![b.phoneme, sb.phoneme], sb.artu, false),
        None => Seq::empty(),
    }
}

/// The samples of the blocks, in index order.
pub open spec fn art_samples_list(s: Seq<(u32, ArtBlockV)>) -> Seq<ArtSampleV>
    decreases s.len(),
{
    if s.len() == 0 {
        Seq::empty()
    } else {
        art_samples_list(s.drop_last()) + block_samples(s.last().1)
    }
}

fn copy_names(p: &Vec<Vec<u8>>) -> (v: Vec<Vec<u8>>)
    ensures
        v.deep_view() == p.deep_view(),
{
    let mut v: Vec<Vec<u8>> = Vec::new();
    let mut i: usize = 0;
    while i < p.len()
        invariant
            i <= p@.len(),
            v.deep_view() == p.deep_view().subrange(0, i as int),
        decreases p@.len() - i,
    {
        proof {
            lemma_vec_u8_deep_view(&p[i as int]);
        }
        let c = vstd::slice::slice_to_vec(p[i].as_slice());
        let ghost before = v.deep_view();
        v.push(c);
        proof {
            lemma_vec_u8_deep_view(&c);
        }
        assert(v.deep_view() =~= before.push(c@));
        i = i + 1;
        assert(v.deep_view() =~= p.deep_view().subrange(0, i as int));
    }
    assert(p.deep_view().subrange(0, p@.len() as int) =~= p.deep_view());
    v
}

fn push_unit<'a>(out: &mut Vec<ArtSample<'a>>, prefix: &Vec<Vec<u8>>, u: &'a ArtuEntry, numbered: bool)
    ensures
        samples_view(final(out)@) == samples_view(old(out)@) + unit_samples(prefix.deep_view(), u.deep_view(), numbered),
{
    let ghost want = unit_samples(prefix.deep_view(), u.deep_view(), numbered);
    let ghost start = samples_view(out@);
    let mut phonemes = copy_names(prefix);
    let ph = vstd::slice::slice_to_vec(u.phoneme.as_slice());
    let ghost pv = phonemes.deep_view();
    phonemes.push(ph);
    proof {
        lemma_vec_u8_deep_view(&ph);
        assert(phonemes.deep_view() =~= prefix.deep_view().push(u.phoneme@));
    }
    let n = u.artp.entries.len();
    let mut i: usize = 0;
    assert(want.subrange(0, 0) =~= Seq::<ArtSampleV>::empty());
    assert(samples_view(out@) =~= start + want.subrange(0, 0));
    while i < n
        invariant
            n == u.artp.deep_view().len(),
            want == unit_samples(prefix.deep_view(), u.deep_view(), numbered),
            phonemes.deep_view() == prefix.deep_view().push(u.phoneme@),
            i <= n,
            start == samples_view(old(out)@),
            samples_view(out@) == start + want.subrange(0, i as int),
        decreases n - i,
    {
        let names = copy_names(&phonemes);
        let s = ArtSample { idx: if numbered { i } else { 0 }, phonemes: names, item: &u.artp.entries[i].1 };
        let ghost before = out@;
        out.push(s);
        proof {
            assert(u.artp.deep_view()[i as int].1 == u.artp.entries[i as int].1.deep_view());
            assert(s.view() == want[i as int]);
            assert(samples_view(out@) =~= samples_view(before).push(s.view()));
            assert(want.subrange(0, i + 1) =~= want.subrange(0, i as int).push(want[i as int]));
        }
        i = i + 1;
    }
    assert(want.subrange(0, n as int) =~= want);
}

fn push_units<'a>(out: &mut Vec<ArtSample<'a>>, prefix: &Vec<Vec<u8>>, artu: &'a OrdMap<Vec<u8>, ArtuEntry>, numbered: bool)
    ensures
        samples_view(final(out)@) == samples_view(old(out)@) + units_samples(prefix.deep_view(), artu.deep_view(), numbered),
{
    let ghost a = artu.deep_view();
    let ghost start = samples_view(out@);
    let n = artu.entries.len();
    let mut j: usize = 0;
    assert(a.subrange(0, 0) =~= Seq::<(Seq<u8>, ArtuEntryV)>::empty());
    assert(samples_view(out@) =~= start + units_samples(prefix.deep_view(), a.subrange(0, 0), numbered));
    while j < n
        invariant
            n == a.len(),
            a == artu.deep_view(),
            j <= n,
            start == samples_view(old(out)@),
            samples_view(out@) == start + units_samples(prefix.deep_view(), a.subrange(0, j as int), numbered),
        decreases n - j,
    {
        let u = &artu.entries[j].1;
        proof {
            assert(a.subrange(0, j + 1).drop_last() =~= a.subrange(0, j as int));
            assert(a.subrange(0, j + 1).last() == a[j as int]);
            assert(a[j as int].1 == u.deep_view());
        }
        push_unit(out, prefix, u, numbered);
        j = j + 1;
        assert(samples_view(out@) =~= start + units_samples(prefix.deep_view(), a.subrange(0, j as int), numbered));
    }
    assert(a.subrange(0, n as int) =~= a);
}

/// The articulation samples to extract, block by block in index order
/// (see `block_samples`).
pub fn art_sample_list<'a>(art: &'a OrdMap<u32, ArtBlock>) -> (v: Vec<ArtSample<'a>>)
    ensures
        samples_view(v@) == art_samples_list(art.deep_view()),
{
    let ghost s = art.deep_view();
    let mut v: Vec<ArtSample<'a>> = Vec::new();
    let n = art.entries.len();
    let mut i: usize = 0;
    assert(s.subrange(0, 0) =~= Seq::<(u32, ArtBlockV)>::empty());
    assert(samples_view(v@) =~= Seq::<ArtSampleV>::empty());
    while i < n
        invariant
            n == s.len(),
            s == art.deep_view(),
            i <= n,
            samples_view(v@) == art_samples_list(s.subrange(0, i as int)),
        decreases n - i,
    {
        let b = &art.entries[i].1;
        let ghost bv = b.deep_view();
        proof {
            assert(s.subrange(0, i + 1).drop_last() =~= s.subrange(0, i as int));
            assert(s.subrange(0, i + 1).last() == s[i as int]);
            assert(s[i as int].1 == bv);
            lemma_vec_u8_deep_view(&b.phoneme);
        }
        let ghost before = samples_view(v@);
        let p1 = vec![vstd::slice::slice_to_vec(b.phoneme.as_slice())];
        proof {
            lemma_vec_u8_deep_view(&p1[0]);
            assert(p1.deep_view() =~= seq![bv.phoneme]);
        }
        push_units(&mut v, &p1, &b.artu, true);
        match &b.sub {
            Some(sub) => {
                let sb: &ArtBlock = &sub.1;
                proof {
                    lemma_vec_u8_deep_view(&sb.phoneme);
                }
                let p2 = vec![vstd::slice::slice_to_vec(b.phoneme.as_slice()), vstd::slice::slice_to_vec(sb.phoneme.as_slice())];
                proof {
                    lemma_vec_u8_deep_view(&p2[0]);
                    lemma_vec_u8_deep_view(&p2[1]);
                    assert(p2.deep_view() =~= seq![bv.phoneme, art_block_view(sb).phoneme]);
                }
                push_units(&mut v, &p2, &sb.artu, false);
                assert(samples_view(v@) =~= before + block_samples(bv));
            },
            None => {
                assert(samples_view(v@) =~= before + block_samples(bv));
            },
        }
        i = i + 1;
    }
    assert(s.subrange(0, n as int) =~= s);
    v
}

// ---------------------------------------------------------------- sound segments

/// The header of a sound segment: its length (counting the 18 header
/// bytes), sampling rate and channel count.
#[derive(Debug, Clone, Copy, PartialEq, Eq, Structural)]
pub struct SndHeader {
    pub len: u32,
    pub sample_rate: u32,
    pub channels: u16,
}

/// What the bytes at a sound reference hold.
#[derive(Debug, Clone, Copy, PartialEq, Eq, Structural)]
pub enum SndRead {
    /// No `SND ` signature.
    NotSound,
    /// The signature, but the header is cut short.
    Truncated,
    Sound(SndHeader),
}

/// Reading a sound segment's header from the bytes `b` that start where
/// the segment should: the signature, the length, the sampling rate and the
/// channel count.
pub open spec fn snd_read(b: Seq<u8>) -> SndRead {
    if b.len() < 4 || b.subrange(0, 4) != snd_sig() {
        SndRead::NotSound
    } else if b.len() < 14 {
        SndRead::Truncated
    } else {
        SndRead::Sound(SndHeader { len: le32(b, 4), sample_rate: le32(b, 8), channels: le16(b, 12) })
    }
}

/// Reads a sound segment's header from the bytes that start where the
/// segment should.
pub fn read_snd_header(b: &[u8]) -> (r: SndRead)
    ensures
        r == snd_read(b@),
{
    let sig = vec![83u8, 78u8, 68u8, 32u8];
    assert(sig@ =~= snd_sig());
    if b.len() < 4 || !matches_at_exec(b, sig.as_slice(), 0) {
        return SndRead::NotSound;
    }
    if b.len() < 14 {
        return SndRead::Truncated;
    }
    SndRead::Sound(SndHeader { len: le_u32_at(b, 4), sample_rate: le_u32_at(b, 8), channels: le_u16_at(b, 12) })
}

/// Law: a sound segment that starts with `SND `, its length, its sampling
/// rate and its channel count (each little-endian, the count in two bytes)
/// reads as a sound with that length, rate and channel count, whatever
/// follows; bytes that do not start with `SND ` are no sound.
pub proof fn lemma_snd_header_reads_back(len: u32, sample_rate: u32, channels: u16, rest: Seq<u8>)
    ensures
        snd_read(snd_sig() + enc32(len) + enc32(sample_rate) + seq![(channels % 0x100) as u8, (channels / 0x100) as u8] + rest)
            == SndRead::Sound(SndHeader { len, sample_rate, channels }),
        forall|b: Seq<u8>| b.len() >= 4 && b.subrange(0, 4) != snd_sig() ==> #[trigger] snd_read(b) == SndRead::NotSound,
{
    let lo = (channels % 0x100) as u8;
    let hi = (channels / 0x100) as u8;
    let b = snd_sig() + enc32(len) + enc32(sample_rate) + seq![lo, hi] + rest;
    assert(b.subrange(0, b.len() as int) =~= b);
    lemma_split(b, 0, snd_sig() + enc32(len) + enc32(sample_rate) + seq![lo, hi], rest);
    lemma_split(b, 0, snd_sig() + enc32(len) + enc32(sample_rate), seq![lo, hi]);
    lemma_split(b, 0, snd_sig() + enc32(len), enc32(sample_rate));
    lemma_split(b, 0, snd_sig(), enc32(len));
    lemma_le32_in(b, 4, len);
    lemma_le32_in(b, 8, sample_rate);
    assert(b[12] == lo && b[13] == hi) by {
        assert(b.subrange(12, 14)[0] == b[12]);
        assert(b.subrange(12, 14)[1] == b[13]);
    }
    assert(lo as int + hi as int * 0x100 == channels as int) by {
        assert((channels % 0x100) as u8 as int + (channels / 0x100) as u8 as int * 0x100 == channels as int) by (bit_vector);
    }
}

impl SndHeader {
    /// The number of sample bytes after the 18 header bytes, if the
    /// length covers the header.
    pub fn data_len(&self) -> (n: Option<u32>)
        ensures
            self.len >= 18 ==> n == Some((self.len - 18) as u32),
            self.len < 18 ==> n is None,
    {
        if self.len >= 18 {
            Some(self.len - 18)
        } else {
            None
        }
    }
}

/// The positions below `k` where a sound segment's signature starts within
/// `b`, in order.
pub open spec fn snd_marks(b: Seq<u8>, k: nat) -> Seq<usize>
    decreases k,
{
    if k == 0 {
        Seq::empty()
    } else if matches_at(b, snd_sig(), k - 1) {
        snd_marks(b, (k - 1) as nat).push((k - 1) as usize)
    } else {
        snd_marks(b, (k - 1) as nat)
    }
}

/// The positions in `buf` where a sound segment's signature starts.
pub fn find_snd_marks(buf: &[u8]) -> (v: Vec<usize>)
    ensures
        v@ == snd_marks(buf@, buf@.len()),
{
    let sig = vec![83u8, 78u8, 68u8, 32u8];
    assert(sig@ =~= snd_sig());
    let n = buf.len();
    let mut v: Vec<usize> = Vec::new();
    let mut i: usize = 0;
    while i < n
        invariant
            n == buf@.len(),
            sig@ == snd_sig(),
            i <= n,
            v@ == snd_marks(buf@, i as nat),
        decreases n - i,
    {
        if matches_at_exec(buf, sig.as_slice(), i) {
            v.push(i);
        }
        i = i + 1;
    }
    v
}

/// The 16-bit little-endian samples of `b`, a trailing odd byte dropped.
pub open spec fn pcm16(b: Seq<u8>) -> Seq<i16> {
    Seq::new(b.len() / 2, |i: int| le16(b, 2 * i) as i16)
}

/// The 16-bit samples of a sound segment's data.
pub fn pcm_samples(buf: &[u8]) -> (v: Vec<i16>)
    ensures
        v@ == pcm16(buf@),
{
    let len = buf.len();
    let n = len / 2;
    let mut v: Vec<i16> = Vec::new();
    let mut i: usize = 0;
    while i < n
        invariant
            len == buf@.len(),
            n == buf@.len() / 2,
            i <= n,
            v@ == pcm16(buf@).subrange(0, i as int),
        decreases n - i,
    {
        let u = le_u16_at(buf, 2 * i);
        v.push(#[verifier::truncate] (u as i16));
        i = i + 1;
        assert(v@ =~= pcm16(buf@).subrange(0, i as int));
    }
    assert(pcm16(buf@).subrange(0, n as int) =~= pcm16(buf@));
    v
}

// ---------------------------------------------------------------- scanning for sounds

/// The size of the stretches the DDB is scanned in.
pub open spec fn scan_block() -> int {
    10240
}

/// A position is among the marks below `k` exactly when a sound segment's
/// signature starts there.
proof fn lemma_push_contains(s: Seq<usize>, x: usize, y: usize)
    ensures
        s.push(x).contains(y) <==> s.contains(y) || x == y,
{
    let t = s.push(x);
    if s.contains(y) {
        let i = choose|i: int| 0 <= i < s.len() && s[i] == y;
        assert(t[i] == y);
    }
    if x == y {
        assert(t[s.len() as int] == y);
    }
    if t.contains(y) {
        let i = choose|i: int| 0 <= i < t.len() && t[i] == y;
        if i < s.len() {
            assert(s[i] == y);
        }
    }
}

pub proof fn lemma_snd_marks_members(b: Seq<u8>, k: nat, q: int)
    requires
        k <= b.len(),
        b.len() <= usize::MAX,
    ensures
        snd_marks(b, k).contains(q as usize) && 0 <= q <= usize::MAX <==> 0 <= q < k && q <= usize::MAX && matches_at(b, snd_sig(), q),
        forall|i: int| 0 <= i < snd_marks(b, k).len() ==> #[trigger] snd_marks(b, k)[i] < k,
    decreases k,
{
    if k > 0 {
        lemma_snd_marks_members(b, (k - 1) as nat, q);
        if matches_at(b, snd_sig(), k - 1) {
            assert(snd_marks(b, k) == snd_marks(b, (k - 1) as nat).push((k - 1) as usize));
            lemma_push_contains(snd_marks(b, (k - 1) as nat), (k - 1) as usize, q as usize);
        }
    }
}

/// What scanning one stretch decides: where in the DDB the sound segments
/// it holds start, and where the next stretch begins (four bytes before
/// this one ends, so that a signature across the boundary is seen), if the
/// stretch was full.
pub struct ScanStep {
    pub marks: Vec<u64>,
    pub next: Option<u64>,
}

pub open spec fn scan_next(pos: u64, n: nat) -> Option<u64> {
    if n < scan_block() {
        None
    } else {
        Some((pos + scan_block() - 4) as u64)
    }
}

/// Scans the stretch `buf` read at `pos` (at most a block).
pub fn scan_step(pos: u64, buf: &[u8]) -> (s: ScanStep)
    requires
        buf@.len() <= scan_block(),
        pos + scan_block() <= u64::MAX,
    ensures
        s.marks@ == Seq::new(
            snd_marks(buf@, buf@.len()).len(),
            |i: int| (pos + snd_marks(buf@, buf@.len())[i]) as u64,
        ),
        s.next == scan_next(pos, buf@.len()),
{
    let found = find_snd_marks(buf);
    let ghost m = snd_marks(buf@, buf@.len());
    proof {
        lemma_snd_marks_members(buf@, buf@.len(), 0);
    }
    let mut marks: Vec<u64> = Vec::new();
    let mut i: usize = 0;
    while i < found.len()
        invariant
            found@ == m,
            m == snd_marks(buf@, buf@.len()),
            buf@.len() <= scan_block(),
            pos + scan_block() <= u64::MAX,
            forall|j: int| 0 <= j < m.len() ==> #[trigger] m[j] < buf@.len(),
            i <= m.len(),
            marks@ == Seq::new(i as nat, |j: int| (pos + m[j]) as u64),
        decreases m.len() - i,
    {
        assert(m[i as int] < buf@.len());
        marks.push(pos + found[i] as u64);
        i = i + 1;
        assert(marks@ =~= Seq::new(i as nat, |j: int| (pos + m[j]) as u64));
    }
    let next = if buf.len() < 10240 { None } else { Some(pos + 10240 - 4) };
    ScanStep { marks, next }
}

/// Scanning in overlapping stretches misses no sound segment: every
/// signature that starts in a stretch before where the next one begins (or
/// anywhere in the last, short stretch) is among that stretch's marks.
pub proof fn lemma_scan_sees_every_sound(d: Seq<u8>, pos: int, n: nat, p: int)
    requires
        0 <= pos,
        n <= scan_block(),
        pos + n <= d.len(),
        n == scan_block() || pos + n == d.len(),
        pos <= p,
        n == scan_block() ==> p < pos + scan_block() - 4,
        p - pos <= usize::MAX,
        matches_at(d, snd_sig(), p),
    ensures
        snd_marks(d.subrange(pos, pos + n), n).contains((p - pos) as usize),
{
    let b = d.subrange(pos, pos + n);
    assert(b.subrange(p - pos, p - pos + 4) =~= d.subrange(p, p + 4));
    lemma_snd_marks_members(b, n, p - pos);
}

} // verus!
