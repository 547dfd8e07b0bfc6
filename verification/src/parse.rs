//! Readers for the DDI sections, each following its layout in `format`.

use vstd::prelude::*;
use crate::bytes::{le_u32_at, le_u64_at, parse_u32_exec};
use crate::cursor::{Cursor, ParseError, fits};
use crate::ddi::{read_text, read_arr};
use crate::format::{guide_part, phg2_tail, phdc_tail, phoneme_name, voiced_names, unvoiced_names, phg2_pair, phg2_pair_at, phg2_entry, phg2_entry_at, leading_zeros, guide_value, guide_values, guide_entries, guide_size, phdc_section, artp_prefix, artp_sounds, lemma_units_done, lemma_units_short, lemma_units_block, lemma_units_entry, lemma_block_unfold, lemma_loop_unfold, art_sig, default_tag, articulation_text, filled, frame_align, artp_item, artp_item_at, artu_entry, art_units, art_block, art_loop, art_section, stap_item, stap_item_at, sta_entry, sta_entry_at, sta_section, params_at, snd_at, vqm_item, vqm_item_at, vqm_section, rep, lemma_rep_fails, map_of, yields, epr_list, tdb_sub, tdb_sub_at, tdb_entry, tdb_entry_at, tdb_section, dbv_section};
use crate::model::{PhdcData, AlignGroup, FrameAlign, ArtpItem, ArtpItemV, ArtuEntry, ArtBlock, ArtBlockV, EprRef, SndRef, VoiceParams, VqmItem, VqmItemV, StapItem, StapItemV, StaEntry, StaEntryV};
use crate::ordmap::{OrdMap, lemma_vec_u8_deep_view};
use crate::search::{find, lemma_first_match_unique, is_first_match};
use crate::bytes::{dec_bytes, hex_bytes, trim_zeros_exec};
use crate::text::lossy_bytes;

verus! {

/// Reads `n` EpR references.
pub fn parse_epr_list(cur: &mut Cursor, n: u32) -> (r: Result<Vec<EprRef>, ParseError>)
    requires
        old(cur).pos <= old(cur).data@.len(),
    ensures
        final(cur).data@ == old(cur).data@,
        yields(r, epr_list(old(cur).data@, old(cur).pos as int, n as nat), final(cur).pos as int),
        r is Ok ==> final(cur).pos >= old(cur).pos,
{
    let ghost d = cur.data@;
    let ghost start = cur.pos as int;
    let mut v: Vec<EprRef> = Vec::new();
    let mut i: u32 = 0;
    while i < n
        invariant
            cur.data@ == d,
            d == old(cur).data@,
            start == old(cur).pos,
            i <= n,
            cur.pos == start + 8 * i,
            fits(d, start, 8 * i),
            v@ == Seq::new(i as nat, |j: int| EprRef { pos: (start + 8 * j) as u64, off: crate::bytes::le64(d, start + 8 * j) }),
        decreases n - i,
    {
        let pos = cur.pos;
        match cur.read_u64_le() {
            Ok(off) => {
                v.push(EprRef { pos: pos as u64, off });
                i = i + 1;
                assert(v@ =~= Seq::new(i as nat, |j: int| EprRef { pos: (start + 8 * j) as u64, off: crate::bytes::le64(d, start + 8 * j) }));
            },
            Err(e) => {
                assert(!fits(d, start, 8 * n));
                return Err(e);
            },
        }
    }
    assert(v.deep_view() =~= v@);
    Ok(v)
}

/// The voice parameters whose duration sits at `b[x..]`.
pub fn params_from(b: &[u8], x: usize) -> (v: VoiceParams)
    requires
        x + 30 <= b@.len(),
    ensures
        v == params_at(b@, x as int),
{
    let _n = b.len();
    VoiceParams {
        duration: le_u64_at(b, x),
        pitch1: le_u32_at(b, x + 10),
        pitch2: le_u32_at(b, x + 14),
        unknown2: le_u32_at(b, x + 18),
        dynamics: le_u32_at(b, x + 22),
        tempo: le_u32_at(b, x + 26),
    }
}

/// The voice parameters read through a block that was cut out of the data
/// are those of the data.
pub proof fn lemma_params_subrange(d: Seq<u8>, q: int, n: int, x: int)
    requires
        0 <= q,
        q + n <= d.len(),
        0 <= x,
        x + 30 <= n,
    ensures
        params_at(d.subrange(q, q + n), x) == params_at(d, q + x),
{
}

/// The sound reference read through a block cut out of the data.
pub proof fn lemma_snd_subrange(d: Seq<u8>, q: int, n: int, x: int, r: int)
    requires
        0 <= q,
        q + n <= d.len(),
        0 <= x,
        x + 18 <= n,
        r == q + x,
    ensures
        snd_at(d, r).off == crate::bytes::le64(d.subrange(q, q + n), x + 10),
        snd_at(d, r).id == crate::bytes::le32(d.subrange(q, q + n), x + 6),
{
}

// ---------------------------------------------------------------- TDB

fn parse_tdb_sub(cur: &mut Cursor) -> (r: Result<(), ParseError>)
    ensures
        final(cur).data@ == old(cur).data@,
        yields(r, tdb_sub(old(cur).data@, old(cur).pos as int), final(cur).pos as int),
{
    cur.read_bytes(8)?;
    read_arr(cur)?;
    read_text(cur)?;
    Ok(())
}

fn parse_tdb_entry(cur: &mut Cursor) -> (r: Result<(u32, Vec<u8>), ParseError>)
    ensures
        final(cur).data@ == old(cur).data@,
        yields(r, tdb_entry(old(cur).data@, old(cur).pos as int), final(cur).pos as int),
{
    let ghost d = cur.data@;
    let ghost q = cur.pos as int;
    let blk = cur.read_bytes(32)?;
    let idx = le_u32_at(blk, 24);
    let sn = le_u32_at(blk, 28);
    let ghost mut items: Seq<()> = Seq::empty();
    let mut i: u32 = 0;
    while i < sn
        invariant
            cur.data@ == d,
            d == old(cur).data@,
            q == old(cur).pos,
            fits(d, q, 32),
            sn == crate::bytes::le32(d, q + 28),
            i <= sn,
            rep(tdb_sub_at(d), q + 32, i as nat) == Ok::<(Seq<()>, int), ParseError>((items, cur.pos as int)),
        decreases sn - i,
    {
        match parse_tdb_sub(cur) {
            Ok(_) => {
                proof {
                    items = items.push(());
                }
                i = i + 1;
            },
            Err(e) => {
                proof {
                    lemma_rep_fails(tdb_sub_at(d), q + 32, (i + 1) as nat, sn as nat);
                }
                return Err(e);
            },
        }
    }
    let name = read_text(cur)?;
    proof {
        lemma_vec_u8_deep_view(&name);
    }
    Ok((idx, name))
}

/// Reads the TDB section: the names of the voice's tone databases by index.
pub fn parse_tdb(cur: &mut Cursor) -> (r: Result<OrdMap<u32, Vec<u8>>, ParseError>)
    ensures
        final(cur).data@ == old(cur).data@,
        yields(r, tdb_section(old(cur).data@, old(cur).pos as int), final(cur).pos as int),
{
    let ghost d = cur.data@;
    let ghost p = cur.pos as int;
    let blk = cur.read_bytes(28)?;
    let n = le_u32_at(blk, 24);
    let mut m: OrdMap<u32, Vec<u8>> = OrdMap::new();
    let ghost mut items: Seq<(u32, Seq<u8>)> = Seq::empty();
    let mut i: u32 = 0;
    while i < n
        invariant
            cur.data@ == d,
            d == old(cur).data@,
            p == old(cur).pos,
            fits(d, p, 28),
            n == crate::bytes::le32(d, p + 24),
            i <= n,
            rep(tdb_entry_at(d), p + 28, i as nat) == Ok::<(Seq<(u32, Seq<u8>)>, int), ParseError>((items, cur.pos as int)),
            m.deep_view() == map_of::<u32, Seq<u8>>(items),
        decreases n - i,
    {
        match parse_tdb_entry(cur) {
            Ok((idx, name)) => {
                let ghost x = (idx, name.deep_view());
                m.insert(idx, name);
                proof {
                    assert(items.push(x).drop_last() =~= items);
                    items = items.push(x);
                }
                i = i + 1;
            },
            Err(e) => {
                proof {
                    lemma_rep_fails(tdb_entry_at(d), p + 28, (i + 1) as nat, n as nat);
                }
                return Err(e);
            },
        }
    }
    read_text(cur)?;
    Ok(m)
}

// ---------------------------------------------------------------- DBV

/// Reads past the DBV header.
pub fn parse_dbv(cur: &mut Cursor) -> (r: Result<(), ParseError>)
    ensures
        final(cur).data@ == old(cur).data@,
        yields(r, dbv_section(old(cur).data@, old(cur).pos as int), final(cur).pos as int),
{
    cur.read_bytes(28)?;
    Ok(())
}

// ---------------------------------------------------------------- VQM

fn parse_vqm_item(cur: &mut Cursor) -> (r: Result<(u32, VqmItem), ParseError>)
    ensures
        final(cur).data@ == old(cur).data@,
        yields(r, vqm_item(old(cur).data@, old(cur).pos as int), final(cur).pos as int),
{
    let ghost d = cur.data@;
    let ghost q = cur.pos as int;
    let head = cur.read_bytes(66)?;
    let params = params_from(head, 24);
    let epr_num = le_u32_at(head, 62);
    proof {
        lemma_params_subrange(d, q, 66, 24);
    }
    let epr = parse_epr_list(cur, epr_num)?;
    let rpos = cur.pos;
    let tail = cur.read_bytes(34)?;
    let fs = le_u32_at(tail, 0);
    let snd = SndRef { pos: (rpos + 10) as u64, off: le_u64_at(tail, 10), id: le_u32_at(tail, 6) };
    proof {
        lemma_snd_subrange(d, rpos as int, 34, 0, rpos as int);
    }
    let idx_text = read_text(cur)?;
    match parse_u32_exec(idx_text.as_slice()) {
        Some(idx) => {
            let item = VqmItem { params, epr, fs, snd };
            assert(item.epr.deep_view() =~= item.epr@);
            Ok((idx, item))
        },
        None => Err(ParseError::InvalidIndex),
    }
}

/// Reads the VQM section: the growl samples by index.
pub fn parse_vqm(cur: &mut Cursor) -> (r: Result<OrdMap<u32, VqmItem>, ParseError>)
    ensures
        final(cur).data@ == old(cur).data@,
        yields(r, vqm_section(old(cur).data@, old(cur).pos as int), final(cur).pos as int),
{
    let ghost d = cur.data@;
    let ghost p = cur.pos as int;
    let blk = cur.read_bytes(60)?;
    let n = le_u32_at(blk, 52);
    let mut m: OrdMap<u32, VqmItem> = OrdMap::new();
    let ghost mut items: Seq<(u32, VqmItemV)> = Seq::empty();
    let mut i: u32 = 0;
    while i < n
        invariant
            cur.data@ == d,
            d == old(cur).data@,
            p == old(cur).pos,
            fits(d, p, 60),
            n == crate::bytes::le32(d, p + 52),
            i <= n,
            rep(vqm_item_at(d), p + 60, i as nat) == Ok::<(Seq<(u32, VqmItemV)>, int), ParseError>((items, cur.pos as int)),
            m.deep_view() == map_of::<u32, VqmItemV>(items),
        decreases n - i,
    {
        match parse_vqm_item(cur) {
            Ok((idx, item)) => {
                let ghost x = (idx, item.deep_view());
                m.insert(idx, item);
                proof {
                    assert(items.push(x).drop_last() =~= items);
                    items = items.push(x);
                }
                i = i + 1;
            },
            Err(e) => {
                proof {
                    lemma_rep_fails(vqm_item_at(d), p + 60, (i + 1) as nat, n as nat);
                }
                return Err(e);
            },
        }
    }
    read_text(cur)?;
    read_text(cur)?;
    Ok(m)
}

// ---------------------------------------------------------------- STA

fn parse_stap_item(cur: &mut Cursor) -> (r: Result<(Vec<u8>, StapItem), ParseError>)
    ensures
        final(cur).data@ == old(cur).data@,
        yields(r, stap_item(old(cur).data@, old(cur).pos as int), final(cur).pos as int),
{
    let ghost d = cur.data@;
    let ghost q = cur.pos as int;
    let head = cur.read_bytes(78)?;
    let params = params_from(head, 24);
    proof {
        lemma_params_subrange(d, q, 78, 24);
    }
    read_text(cur)?;
    let mid = cur.read_bytes(16)?;
    let snd_length = le_u32_at(mid, 0);
    read_text(cur)?;
    let pre = cur.read_bytes(8)?;
    let epr_num = le_u32_at(pre, 4);
    let epr = parse_epr_list(cur, epr_num)?;
    let rpos = cur.pos;
    let tail = cur.read_bytes(34)?;
    let fs = le_u32_at(tail, 0);
    let snd = SndRef { pos: (rpos + 10) as u64, off: le_u64_at(tail, 10), id: le_u32_at(tail, 6) };
    proof {
        lemma_snd_subrange(d, rpos as int, 34, 0, rpos as int);
    }
    let idx_text = read_text(cur)?;
    let item = StapItem { params, epr, fs, snd, snd_length };
    proof {
        assert(item.epr.deep_view() =~= item.epr@);
        lemma_vec_u8_deep_view(&idx_text);
    }
    Ok((idx_text, item))
}

fn parse_sta_entry(cur: &mut Cursor) -> (r: Result<(u32, StaEntry), ParseError>)
    ensures
        final(cur).data@ == old(cur).data@,
        yields(r, sta_entry(old(cur).data@, old(cur).pos as int), final(cur).pos as int),
{
    let ghost d = cur.data@;
    let ghost q = cur.pos as int;
    let blk = cur.read_bytes(40)?;
    let idx = le_u32_at(blk, 24);
    let n = le_u32_at(blk, 36);
    let mut m: OrdMap<Vec<u8>, StapItem> = OrdMap::new();
    let ghost mut items: Seq<(Seq<u8>, StapItemV)> = Seq::empty();
    let mut i: u32 = 0;
    while i < n
        invariant
            cur.data@ == d,
            d == old(cur).data@,
            q == old(cur).pos,
            fits(d, q, 40),
            n == crate::bytes::le32(d, q + 36),
            i <= n,
            rep(stap_item_at(d), q + 40, i as nat) == Ok::<(Seq<(Seq<u8>, StapItemV)>, int), ParseError>((items, cur.pos as int)),
            m.deep_view() == map_of::<Vec<u8>, StapItemV>(items),
        decreases n - i,
    {
        match parse_stap_item(cur) {
            Ok((k, item)) => {
                let ghost x = (k.deep_view(), item.deep_view());
                m.insert(k, item);
                proof {
                    assert(items.push(x).drop_last() =~= items);
                    items = items.push(x);
                }
                i = i + 1;
            },
            Err(e) => {
                proof {
                    lemma_rep_fails(stap_item_at(d), q + 40, (i + 1) as nat, n as nat);
                }
                return Err(e);
            },
        }
    }
    let phoneme = read_text(cur)?;
    proof {
        lemma_vec_u8_deep_view(&phoneme);
    }
    Ok((idx, StaEntry { phoneme, stap: m }))
}

/// Reads the STA section: the stationaries by index.
pub fn parse_sta(cur: &mut Cursor) -> (r: Result<OrdMap<u32, StaEntry>, ParseError>)
    ensures
        final(cur).data@ == old(cur).data@,
        yields(r, sta_section(old(cur).data@, old(cur).pos as int), final(cur).pos as int),
{
    let ghost d = cur.data@;
    let ghost p = cur.pos as int;
    let blk = cur.read_bytes(56)?;
    let n = le_u32_at(blk, 52);
    let mut m: OrdMap<u32, StaEntry> = OrdMap::new();
    let ghost mut items: Seq<(u32, StaEntryV)> = Seq::empty();
    let mut i: u32 = 0;
    while i < n
        invariant
            cur.data@ == d,
            d == old(cur).data@,
            p == old(cur).pos,
            fits(d, p, 56),
            n == crate::bytes::le32(d, p + 52),
            i <= n,
            rep(sta_entry_at(d), p + 56, i as nat) == Ok::<(Seq<(u32, StaEntryV)>, int), ParseError>((items, cur.pos as int)),
            m.deep_view() == map_of::<u32, StaEntryV>(items),
        decreases n - i,
    {
        match parse_sta_entry(cur) {
            Ok((idx, entry)) => {
                let ghost x = (idx, entry.deep_view());
                m.insert(idx, entry);
                proof {
                    assert(items.push(x).drop_last() =~= items);
                    items = items.push(x);
                }
                i = i + 1;
            },
            Err(e) => {
                proof {
                    lemma_rep_fails(sta_entry_at(d), p + 56, (i + 1) as nat, n as nat);
                }
                return Err(e);
            },
        }
    }
    read_text(cur)?;
    read_text(cur)?;
    Ok(m)
}

// ---------------------------------------------------------------- ART

/// The tag `default`.
pub fn default_tag_bytes() -> (v: Vec<u8>)
    ensures
        v@ == default_tag(),
{
    let mut v: Vec<u8> = Vec::new();
    v.push(100);
    v.push(101);
    v.push(102);
    v.push(97);
    v.push(117);
    v.push(108);
    v.push(116);
    assert(v@ =~= default_tag());
    v
}

/// Whether `b[i..i + 4]` is the signature `ART `.
pub fn is_art_sig_at(b: &[u8], i: usize) -> (r: bool)
    requires
        i + 4 <= b@.len(),
    ensures
        r == (b@.subrange(i as int, i + 4) == art_sig()),
{
    let r = b[i] == 65 && b[i + 1] == 82 && b[i + 2] == 84 && b[i + 3] == 32;
    if r {
        assert(b@.subrange(i as int, i + 4) =~= art_sig());
    } else {
        assert(b@.subrange(i as int, i + 4) != art_sig()) by {
            if b@.subrange(i as int, i + 4) == art_sig() {
                assert(b@.subrange(i as int, i + 4)[0] == 65);
                assert(b@.subrange(i as int, i + 4)[1] == 82);
                assert(b@.subrange(i as int, i + 4)[2] == 84);
                assert(b@.subrange(i as int, i + 4)[3] == 32);
            }
        }
    }
    r
}

fn parse_frame_align(cur: &mut Cursor) -> (r: Result<FrameAlign, ParseError>)
    requires
        old(cur).pos <= old(cur).data@.len(),
    ensures
        final(cur).data@ == old(cur).data@,
        yields(r, frame_align(old(cur).data@, old(cur).pos as int), final(cur).pos as int),
        r is Ok ==> final(cur).pos >= old(cur).pos,
{
    reveal(frame_align);
    let ghost d = cur.data@;
    let w = cur.pos;
    let len = cur.data.len();
    let end = if len - w >= 1024 { w + 1024 } else { len };
    let window = vstd::slice::slice_subrange(cur.data, w, end);
    let tag = default_tag_bytes();
    let found = find(window, tag.as_slice());
    proof {
        let c = choose|r: Option<usize>| is_first_match(window@, default_tag(), r);
        lemma_first_match_unique(window@, default_tag(), found, c);
    }
    match found {
        None => Ok(FrameAlign::Absent),
        Some(ap) => {
            if ap < 4 {
                return Err(ParseError::Corrupt);
            }
            let al = ap - 4;
            let blk = cur.read_bytes(al)?;
            if al > 4 {
                let g = le_u32_at(blk, 0);
                if g as usize > (al - 4) / 16 {
                    return Err(ParseError::UnexpectedEof);
                }
                let mut groups: Vec<AlignGroup> = Vec::new();
                let mut i: usize = 0;
                while i < g as usize
                    invariant
                        blk@ == d.subrange(w as int, w + al),
                        blk@.len() == al,
                        w + al <= d.len(),
                        al > 4,
                        16 * g <= al - 4,
                        i <= g,
                        groups@ == Seq::new(
                            i as nat,
                            |j: int|
                                AlignGroup {
                                    start: crate::bytes::le32(d, w + 4 + 16 * j),
                                    end: crate::bytes::le32(d, w + 8 + 16 * j),
                                    start2: crate::bytes::le32(d, w + 12 + 16 * j),
                                    end2: crate::bytes::le32(d, w + 16 + 16 * j),
                                },
                        ),
                    decreases g - i,
                {
                    let o = 4 + 16 * i;
                    assert(crate::bytes::le32(blk@, o as int) == crate::bytes::le32(d, w + o));
                    assert(crate::bytes::le32(blk@, o + 4) == crate::bytes::le32(d, w + o + 4));
                    assert(crate::bytes::le32(blk@, o + 8) == crate::bytes::le32(d, w + o + 8));
                    assert(crate::bytes::le32(blk@, o + 12) == crate::bytes::le32(d, w + o + 12));
                    groups.push(AlignGroup {
                        start: le_u32_at(blk, o),
                        end: le_u32_at(blk, o + 4),
                        start2: le_u32_at(blk, o + 8),
                        end2: le_u32_at(blk, o + 12),
                    });
                    i = i + 1;
                    assert(groups@ =~= Seq::new(
                        i as nat,
                        |j: int|
                            AlignGroup {
                                start: crate::bytes::le32(d, w + 4 + 16 * j),
                                end: crate::bytes::le32(d, w + 8 + 16 * j),
                                start2: crate::bytes::le32(d, w + 12 + 16 * j),
                                end2: crate::bytes::le32(d, w + 16 + 16 * j),
                            },
                    ));
                }
                Ok(FrameAlign::Groups(groups))
            } else if al == 4 {
                let mut vals: Vec<u32> = Vec::new();
                vals.push(le_u32_at(blk, 0));
                assert(vals@ =~= seq![crate::bytes::le32(d, w as int)]);
                Ok(FrameAlign::Values(vals))
            } else if al > 0 {
                let mut vals: Vec<u32> = Vec::new();
                vals.push(0);
                assert(vals@ =~= seq![0u32]);
                Ok(FrameAlign::Values(vals))
            } else {
                let vals: Vec<u32> = Vec::new();
                assert(vals@ =~= Seq::<u32>::empty());
                Ok(FrameAlign::Values(vals))
            }
        },
    }
}

fn parse_artp_prefix(cur: &mut Cursor) -> (r: Result<(), ParseError>)
    ensures
        final(cur).data@ == old(cur).data@,
        match artp_prefix(old(cur).data@, old(cur).pos as int) {
            Ok(u) => r is Ok && final(cur).pos == u,
            Err(e) => r == Err::<(), ParseError>(e),
        },
        r is Ok ==> final(cur).pos > old(cur).pos,
{
    cur.read_bytes(74)?;
    read_text(cur)?;
    cur.read_bytes(16)?;
    read_text(cur)?;
    Ok(())
}

fn parse_artp_sounds(cur: &mut Cursor) -> (r: Result<(u32, SndRef, SndRef), ParseError>)
    ensures
        final(cur).data@ == old(cur).data@,
        match artp_sounds(old(cur).data@, old(cur).pos as int) {
            Ok((snd, snd_start)) => r == Ok::<(u32, SndRef, SndRef), ParseError>(
                (crate::bytes::le32(old(cur).data@, old(cur).pos as int), snd, snd_start),
            ) && final(cur).pos == old(cur).pos + 26,
            Err(e) => r == Err::<(u32, SndRef, SndRef), ParseError>(e),
        },
{
    let ghost d = cur.data@;
    let vpos = cur.pos;
    let a = cur.read_bytes(18)?;
    let fs = le_u32_at(a, 0);
    let snd_id = le_u32_at(a, 6);
    let snd_off = le_u64_at(a, 10);
    proof {
        assert(crate::bytes::le32(a@, 0) == crate::bytes::le32(d, vpos as int));
        assert(crate::bytes::le32(a@, 6) == crate::bytes::le32(d, vpos + 6));
        assert(crate::bytes::le64(a@, 10) == crate::bytes::le64(d, vpos + 10));
    }
    if snd_off < 0x12 {
        return Err(ParseError::Corrupt);
    }
    let snd2_off = cur.read_u64_le()?;
    if snd2_off < 0x12 {
        return Err(ParseError::Corrupt);
    }
    Ok(
        (
            fs,
            SndRef { pos: (vpos + 10) as u64, off: snd_off - 0x12, id: snd_id },
            SndRef { pos: (vpos + 18) as u64, off: snd2_off - 0x12, id: snd_id },
        ),
    )
}

#[verifier::rlimit(40)]
fn parse_artp_item(cur: &mut Cursor) -> (r: Result<(Vec<u8>, ArtpItem), ParseError>)
    ensures
        final(cur).data@ == old(cur).data@,
        yields(r, artp_item(old(cur).data@, old(cur).pos as int), final(cur).pos as int),
        r is Ok ==> final(cur).pos > old(cur).pos,
{
    reveal(artp_item);
    let ghost d = cur.data@;
    let s = cur.pos;
    let head_start = cur.pos;
    parse_artp_prefix(cur)?;
    let head = vstd::slice::slice_subrange(cur.data, head_start, head_start + 74);
    let dev_artp = le_u64_at(head, 0);
    let params = params_from(head, 24);
    let artp_idx = le_u64_at(head, 58);
    proof {
        lemma_params_subrange(d, s as int, 74, 24);
        assert(crate::bytes::le64(head@, 58) == crate::bytes::le64(d, s + 58));
        assert(crate::bytes::le64(head@, 0) == crate::bytes::le64(d, s as int));
    }
    let epr_num = cur.read_u32_le()?;
    let epr = parse_epr_list(cur, epr_num)?;
    let (fs, snd, snd_start) = parse_artp_sounds(cur)?;
    let frame_align = parse_frame_align(cur)?;
    read_text(cur)?;
    let key = dec_bytes(artp_idx);
    let item = ArtpItem { dev_artp, params, epr, fs, snd, snd_start, frame_align };
    proof {
        assert(item.epr.deep_view() =~= item.epr@);
        lemma_vec_u8_deep_view(&key);
    }
    Ok((key, item))
}

fn parse_artu_entry(cur: &mut Cursor) -> (r: Result<(Vec<u8>, ArtuEntry), ParseError>)
    ensures
        final(cur).data@ == old(cur).data@,
        yields(r, artu_entry(old(cur).data@, old(cur).pos as int), final(cur).pos as int),
        r is Ok ==> old(cur).pos < final(cur).pos <= final(cur).data@.len(),
{
    reveal(artu_entry);
    let ghost d = cur.data@;
    let ghost q = cur.pos as int;
    let blk = cur.read_bytes(48)?;
    let idx = le_u32_at(blk, 24);
    let n = le_u32_at(blk, 44);
    let mut m: OrdMap<Vec<u8>, ArtpItem> = OrdMap::new();
    let ghost mut items: Seq<(Seq<u8>, ArtpItemV)> = Seq::empty();
    let mut i: u32 = 0;
    while i < n
        invariant
            cur.data@ == d,
            d == old(cur).data@,
            q == old(cur).pos,
            fits(d, q, 48),
            n == crate::bytes::le32(d, q + 44),
            i <= n,
            rep(artp_item_at(d), q + 48, i as nat) == Ok::<(Seq<(Seq<u8>, ArtpItemV)>, int), ParseError>((items, cur.pos as int)),
            m.deep_view() == map_of::<Vec<u8>, ArtpItemV>(items),
            q + 48 <= cur.pos,
        decreases n - i,
    {
        match parse_artp_item(cur) {
            Ok((k, item)) => {
                let ghost x = (k.deep_view(), item.deep_view());
                m.insert(k, item);
                proof {
                    assert(items.push(x).drop_last() =~= items);
                    items = items.push(x);
                }
                i = i + 1;
            },
            Err(e) => {
                proof {
                    reveal(artu_entry);
                    lemma_rep_fails(artp_item_at(d), q + 48, (i + 1) as nat, n as nat);
                }
                return Err(e);
            },
        }
    }
    let phoneme = read_text(cur)?;
    let key = dec_bytes(idx as u64);
    proof {
        lemma_vec_u8_deep_view(&phoneme);
        lemma_vec_u8_deep_view(&key);
    }
    Ok((key, ArtuEntry { phoneme, artp: m }))
}

/// The view of the nested block a block holds.
pub open spec fn sub_view(s: Option<(u32, Box<ArtBlock>)>) -> Option<(u32, Box<ArtBlockV>)> {
    match s {
        Some(x) => Some((x.0, Box::new(crate::model::art_block_view(&*x.1)))),
        None => None,
    }
}

#[verifier::rlimit(60)]
fn parse_art_block(cur: &mut Cursor) -> (r: Result<(u32, ArtBlock), ParseError>)
    ensures
        final(cur).data@ == old(cur).data@,
        yields(r, art_block(old(cur).data@, old(cur).pos as int), final(cur).pos as int),
        r is Ok ==> old(cur).pos < final(cur).pos <= final(cur).data@.len(),
    decreases old(cur).data@.len() - old(cur).pos,
{
    let ghost d = cur.data@;
    let ghost q = cur.pos as int;
    proof {
        lemma_block_unfold(d, q);
    }
    let blk = cur.read_bytes(20)?;
    let idx = le_u32_at(blk, 12);
    let n = le_u32_at(blk, 16);
    let mut artu: OrdMap<Vec<u8>, ArtuEntry> = OrdMap::new();
    let mut sub: Option<(u32, Box<ArtBlock>)> = None;
    let mut i: u32 = 0;
    while i < n
        invariant
            cur.data@ == d,
            d == old(cur).data@,
            q == old(cur).pos,
            fits(d, q, 20),
            n == crate::bytes::le32(d, q + 16),
            i <= n,
            q + 20 <= cur.pos <= d.len(),
            art_units(d, q + 20, n as nat, Seq::empty(), None) == art_units(
                d,
                cur.pos as int,
                (n - i) as nat,
                artu.deep_view(),
                sub_view(sub),
            ),
        decreases n - i,
    {
        let r = cur.pos;
        let ghost acc = artu.deep_view();
        let ghost sv = sub_view(sub);
        let hd = match cur.read_bytes(12) {
            Ok(h) => h,
            Err(e) => {
                proof {
                    lemma_units_short(d, r as int, (n - i) as nat, acc, sv);
                    lemma_block_unfold(d, q);
                }
                return Err(e);
            },
        };
        assert(hd@.subrange(8, 12) =~= d.subrange(r + 8, r + 12));
        if is_art_sig_at(hd, 8) {
            proof {
                lemma_units_block(d, r as int, (n - i) as nat, acc, sv);
            }
            match parse_art_block(cur) {
                Ok((si, sb)) => {
                    sub = Some((si, Box::new(sb)));
                },
                Err(e) => {
                    proof {
                        lemma_block_unfold(d, q);
                    }
                    return Err(e);
                },
            }
        } else {
            proof {
                lemma_units_entry(d, r as int, (n - i) as nat, acc, sv);
            }
            cur.seek(r);
            match parse_artu_entry(cur) {
                Ok((k, e)) => {
                    artu.insert(k, e);
                },
                Err(e) => {
                    proof {
                        lemma_block_unfold(d, q);
                    }
                    return Err(e);
                },
            }
        }
        i = i + 1;
    }
    proof {
        lemma_units_done(d, cur.pos as int, artu.deep_view(), sub_view(sub));
    }
    let phoneme = read_text(cur)?;
    proof {
        lemma_vec_u8_deep_view(&phoneme);
    }
    let block = ArtBlock { phoneme, artu, sub };
    Ok((idx, block))
}

/// Whether all eight bytes of `b` equal `v`.
fn is_filled(b: &[u8], v: u8) -> (r: bool)
    requires
        b@.len() == 8,
    ensures
        r == filled(b@, v),
{
    let mut i: usize = 0;
    while i < 8
        invariant
            b@.len() == 8,
            i <= 8,
            forall|j: int| 0 <= j < i ==> b@[j] == v,
        decreases 8 - i,
    {
        if b[i] != v {
            return false;
        }
        i = i + 1;
    }
    true
}

/// Whether the text is `articulation`.
fn is_articulation(t: &[u8]) -> (r: bool)
    ensures
        r == (t@ == articulation_text()),
{
    if t.len() != 12 {
        return false;
    }
    let r = t[0] == 97 && t[1] == 114 && t[2] == 116 && t[3] == 105 && t[4] == 99 && t[5] == 117
        && t[6] == 108 && t[7] == 97 && t[8] == 116 && t[9] == 105 && t[10] == 111 && t[11] == 110;
    if r {
        assert(t@ =~= articulation_text());
    } else {
        assert(t@ != articulation_text()) by {
            if t@ == articulation_text() {
                assert(t@[0] == 97 && t@[1] == 114 && t@[2] == 116 && t@[3] == 105);
                assert(t@[4] == 99 && t@[5] == 117 && t@[6] == 108 && t@[7] == 97);
                assert(t@[8] == 116 && t@[9] == 105 && t@[10] == 111 && t@[11] == 110);
            }
        }
    }
    r
}

/// Reads the ART section: the articulation blocks by index.
#[verifier::rlimit(60)]
pub fn parse_art(cur: &mut Cursor) -> (r: Result<OrdMap<u32, ArtBlock>, ParseError>)
    ensures
        final(cur).data@ == old(cur).data@,
        yields(r, art_section(old(cur).data@, old(cur).pos as int), final(cur).pos as int),
{
    let ghost d = cur.data@;
    let ghost p = cur.pos as int;
    cur.read_bytes(28)?;
    let mut m: OrdMap<u32, ArtBlock> = OrdMap::new();
    loop
        invariant
            cur.data@ == d,
            d == old(cur).data@,
            p == old(cur).pos,
            cur.pos <= d.len(),
            art_section(d, p) == art_loop(d, cur.pos as int, m.deep_view()),
        decreases d.len() - cur.pos,
    {
        let q = cur.pos;
        proof {
            lemma_loop_unfold(d, q as int, m.deep_view());
        }
        let head = match cur.read_bytes(8) {
            Ok(h) => h,
            Err(_) => {
                return Ok(m);
            },
        };
        if !is_filled(head, 0) && !is_filled(head, 0xff) {
            cur.seek(q);
            match read_text(cur) {
                Err(_) => {
                    return Ok(m);
                },
                Ok(t) => {
                    if is_articulation(t.as_slice()) {
                        return Ok(m);
                    }
                },
            }
        } else {
            let sig = cur.read_bytes(4)?;
            assert(sig@.subrange(0, 4) =~= d.subrange(q + 8, q + 12));
            if is_art_sig_at(sig, 0) {
                let (i, b) = parse_art_block(cur)?;
                m.insert(i, b);
            }
        }
    }
}

// ---------------------------------------------------------------- PHDC

/// The name in a phoneme record: its first 30 bytes, decoded, without
/// surrounding NULs.
fn phoneme_name_exec(rec: &[u8]) -> (v: Vec<u8>)
    requires
        rec@.len() >= 30,
    ensures
        v@ == phoneme_name(rec@, 0),
{
    let raw = vstd::slice::slice_subrange(rec, 0, 30);
    let t = lossy_bytes(raw);
    trim_zeros_exec(t.as_slice())
}

fn parse_phonemes(cur: &mut Cursor, n: u32) -> (r: Result<(Vec<Vec<u8>>, Vec<Vec<u8>>), ParseError>)
    requires
        old(cur).pos <= old(cur).data@.len(),
    ensures
        final(cur).data@ == old(cur).data@,
        fits(old(cur).data@, old(cur).pos as int, 31 * n) ==> {
            &&& r matches Ok((v, u))
            &&& v.deep_view() == voiced_names(old(cur).data@, old(cur).pos as int, n as nat)
            &&& u.deep_view() == unvoiced_names(old(cur).data@, old(cur).pos as int, n as nat)
            &&& final(cur).pos == old(cur).pos + 31 * n
        },
        !fits(old(cur).data@, old(cur).pos as int, 31 * n) ==> r == Err::<(Vec<Vec<u8>>, Vec<Vec<u8>>), ParseError>(ParseError::UnexpectedEof),
{
    let ghost d = cur.data@;
    let ghost p = cur.pos as int;
    let mut voiced: Vec<Vec<u8>> = Vec::new();
    let mut unvoiced: Vec<Vec<u8>> = Vec::new();
    proof {
        reveal_with_fuel(voiced_names, 1);
        reveal_with_fuel(unvoiced_names, 1);
        assert(voiced.deep_view() =~= voiced_names(d, p, 0));
        assert(unvoiced.deep_view() =~= unvoiced_names(d, p, 0));
    }
    let mut i: u32 = 0;
    while i < n
        invariant
            cur.data@ == d,
            d == old(cur).data@,
            p == old(cur).pos,
            i <= n,
            cur.pos == p + 31 * i,
            fits(d, p, 31 * i),
            voiced.deep_view() == voiced_names(d, p, i as nat),
            unvoiced.deep_view() == unvoiced_names(d, p, i as nat),
        decreases n - i,
    {
        let rpos = cur.pos;
        let rec = match cur.read_bytes(31) {
            Ok(b) => b,
            Err(e) => {
                assert(!fits(d, p, 31 * n));
                return Err(e);
            },
        };
        let name = phoneme_name_exec(rec);
        proof {
            assert(rec@.subrange(0, 30) =~= d.subrange(rpos as int, rpos + 30));
            lemma_vec_u8_deep_view(&name);
        }
        let ghost nv = name.deep_view();
        proof {
            reveal_with_fuel(voiced_names, 1);
            reveal_with_fuel(unvoiced_names, 1);
        }
        if rec[30] == 0 {
            voiced.push(name);
            assert(voiced.deep_view() =~= voiced_names(d, p, i as nat).push(nv));
        } else {
            unvoiced.push(name);
            assert(unvoiced.deep_view() =~= unvoiced_names(d, p, i as nat).push(nv));
        }
        i = i + 1;
    }
    Ok((voiced, unvoiced))
}

fn parse_phg2_pair(cur: &mut Cursor) -> (r: Result<(Vec<u8>, Vec<u8>), ParseError>)
    ensures
        final(cur).data@ == old(cur).data@,
        yields(r, phg2_pair(old(cur).data@, old(cur).pos as int), final(cur).pos as int),
{
    let idx = cur.read_u32_le()?;
    let t = read_text(cur)?;
    let k = dec_bytes(idx as u64);
    proof {
        lemma_vec_u8_deep_view(&t);
        lemma_vec_u8_deep_view(&k);
    }
    Ok((k, t))
}

fn parse_phg2_entry(cur: &mut Cursor) -> (r: Result<(Vec<u8>, OrdMap<Vec<u8>, Vec<u8>>), ParseError>)
    ensures
        final(cur).data@ == old(cur).data@,
        yields(r, phg2_entry(old(cur).data@, old(cur).pos as int), final(cur).pos as int),
{
    let ghost d = cur.data@;
    let ghost r0 = cur.pos as int;
    let key = read_text(cur)?;
    let n = cur.read_u32_le()?;
    let ghost s = cur.pos as int;
    proof {
        lemma_vec_u8_deep_view(&key);
    }
    let ghost kv = key.deep_view();
    let mut m: OrdMap<Vec<u8>, Vec<u8>> = OrdMap::new();
    let ghost mut items: Seq<(Seq<u8>, Seq<u8>)> = Seq::empty();
    let mut i: u32 = 0;
    while i < n
        invariant
            cur.data@ == d,
            d == old(cur).data@,
            i <= n,
            rep(phg2_pair_at(d), s, i as nat) == Ok::<(Seq<(Seq<u8>, Seq<u8>)>, int), ParseError>((items, cur.pos as int)),
            phg2_entry(d, r0) == phg2_tail(d, kv, rep(phg2_pair_at(d), s, n as nat)),
            r0 == old(cur).pos,
            m.deep_view() == map_of::<Vec<u8>, Seq<u8>>(items),
        decreases n - i,
    {
        match parse_phg2_pair(cur) {
            Ok((k, v)) => {
                let ghost x = (k.deep_view(), v.deep_view());
                m.insert(k, v);
                proof {
                    assert(items.push(x).drop_last() =~= items);
                    items = items.push(x);
                }
                i = i + 1;
            },
            Err(e) => {
                proof {
                    lemma_rep_fails(phg2_pair_at(d), s, (i + 1) as nat, n as nat);
                }
                return Err(e);
            },
        }
    }
    cur.read_bytes(4)?;
    proof {
        lemma_vec_u8_deep_view(&key);
    }
    Ok((key, m))
}

/// An EpR guide value of seven bytes.
fn guide_value_exec(s: &[u8]) -> (v: Vec<u8>)
    ensures
        v@ == guide_value(s@),
{
    let mut z: usize = 0;
    assert(s@.subrange(0, s@.len() as int) =~= s@);
    while z < s.len() && s[z] == 0
        invariant
            z <= s@.len(),
            leading_zeros(s@) == z + leading_zeros(s@.subrange(z as int, s@.len() as int)),
        decreases s@.len() - z,
    {
        assert(s@.subrange(z as int, s@.len() as int).drop_first() =~= s@.subrange(z + 1, s@.len() as int));
        z = z + 1;
    }
    if z == s.len() {
        hex_bytes(s)
    } else {
        hex_bytes(vstd::slice::slice_subrange(s, z, s.len()))
    }
}

fn guide_values_exec(b: &[u8], off0: usize) -> (r: Result<(Vec<Vec<u8>>, usize), ParseError>)
    requires
        b@.len() <= u32::MAX - 20,
        off0 <= b@.len() + 1,
    ensures
        match guide_values(b@, off0 as int) {
            Ok((vals, e)) => r matches Ok((v, e2)) && v.deep_view() == vals && e2 == e,
            Err(x) => r == Err::<(Vec<Vec<u8>>, usize), ParseError>(x),
        },
        r matches Ok((_, e2)) ==> e2 <= b@.len() + 1,
{
    let mut vals: Vec<Vec<u8>> = Vec::new();
    let mut off = off0;
    while off < b.len() && b[off] == 0
        invariant
            b@.len() <= u32::MAX - 20,
            off <= b@.len() + 1,
            guide_values(b@, off0 as int) == match guide_values(b@, off as int) {
                Ok((rest, e)) => Ok((vals.deep_view() + rest, e)),
                Err(x) => Err(x),
            },
        decreases b@.len() + 1 - off,
    {
        if b.len() < 7 || off > b.len() - 7 {
            return Err(ParseError::Corrupt);
        }
        let v = guide_value_exec(vstd::slice::slice_subrange(b, off, off + 7));
        proof {
            lemma_vec_u8_deep_view(&v);
        }
        let ghost old_vals = vals.deep_view();
        vals.push(v);
        proof {
            assert(vals.deep_view() =~= old_vals.push(guide_value(b@.subrange(off as int, off + 7))));
            match guide_values(b@, off + 8) {
                Ok((rest, e)) => {
                    assert(old_vals + (seq![guide_value(b@.subrange(off as int, off + 7))] + rest) =~= vals.deep_view() + rest);
                },
                Err(x) => {},
            }
        }
        off = off + 8;
    }
    assert(vals.deep_view() + Seq::<Seq<u8>>::empty() =~= vals.deep_view());
    Ok((vals, off))
}

fn guide_entries_exec(b: &[u8], k: u32) -> (r: Result<OrdMap<Vec<u8>, Vec<Vec<u8>>>, ParseError>)
    requires
        b@.len() <= u32::MAX - 20,
    ensures
        match guide_entries(b@, 0, k as nat, Seq::empty()) {
            Ok(m) => r matches Ok(x) && x.deep_view() == m,
            Err(e) => r matches Err(e2) && e2 == e,
        },
{
    let mut acc: OrdMap<Vec<u8>, Vec<Vec<u8>>> = OrdMap::new();
    let mut off: usize = 0;
    let mut i: u32 = 0;
    while i < k
        invariant
            b@.len() <= u32::MAX - 20,
            i <= k,
            off <= b@.len() + 1,
            guide_entries(b@, 0, k as nat, Seq::empty()) == guide_entries(b@, off as int, (k - i) as nat, acc.deep_view()),
        decreases k - i,
    {
        if b.len() < 36 || off > b.len() - 36 {
            return Err(ParseError::Corrupt);
        }
        let raw = vstd::slice::slice_subrange(b, off, off + 32);
        let t = lossy_bytes(raw);
        let key = trim_zeros_exec(t.as_slice());
        let (vals, next) = guide_values_exec(b, off + 36)?;
        proof {
            lemma_vec_u8_deep_view(&key);
        }
        acc.insert(key, vals);
        off = next;
        i = i + 1;
    }
    Ok(acc)
}

/// The size of the EpR guide block, or `Corrupt` where its 32-bit
/// arithmetic overflows.
fn guide_size_exec(phdc_size: u32, phg2_size: u32, n: u32) -> (r: Result<u32, ParseError>)
    ensures
        match guide_size(phdc_size, phg2_size, n) {
            Some(v) => r == Ok::<u32, ParseError>(v),
            None => r == Err::<u32, ParseError>(ParseError::Corrupt),
        },
{
    if phdc_size < phg2_size {
        return Err(ParseError::Corrupt);
    }
    let a = phdc_size - phg2_size;
    if a < 16 {
        return Err(ParseError::Corrupt);
    }
    let b = a - 16;
    if n > 138547332 {
        return Err(ParseError::Corrupt);
    }
    let m = 31 * n;
    if b < m {
        return Err(ParseError::Corrupt);
    }
    let c = b - m;
    if c < 4 {
        return Err(ParseError::Corrupt);
    }
    Ok(c - 4)
}

fn parse_guide_part(cur: &mut Cursor, phdc_size: u32, phg2_size: u32, n: u32) -> (r: Result<OrdMap<Vec<u8>, Vec<Vec<u8>>>, ParseError>)
    ensures
        final(cur).data@ == old(cur).data@,
        yields(r, guide_part(old(cur).data@, old(cur).pos as int, phdc_size, phg2_size, n), final(cur).pos as int),
{
    let guide_num = cur.read_u32_le()?;
    let size = guide_size_exec(phdc_size, phg2_size, n)?;
    let eb = cur.read_bytes(size as usize)?;
    guide_entries_exec(eb, guide_num)
}

/// Reads the PHDC block: the phoneme dictionary.
#[verifier::rlimit(100)]
pub fn parse_phdc(cur: &mut Cursor) -> (r: Result<PhdcData, ParseError>)
    ensures
        final(cur).data@ == old(cur).data@,
        yields(r, phdc_section(old(cur).data@, old(cur).pos as int), final(cur).pos as int),
{
    let ghost d = cur.data@;
    let ghost p = cur.pos as int;
    let head = cur.read_bytes(16)?;
    let phdc_size = le_u32_at(head, 4);
    let phoneme_num = le_u32_at(head, 12);
    let (voiced, unvoiced) = parse_phonemes(cur, phoneme_num)?;
    let ghost q = cur.pos as int;
    let mid = cur.read_bytes(12)?;
    let phg2_size = le_u32_at(mid, 4);
    let phg2_num = le_u32_at(mid, 8);
    assert(phdc_section(d, p) == phdc_tail(d, p, q, rep(phg2_entry_at(d), q + 12, phg2_num as nat)));
    let mut phg2: OrdMap<Vec<u8>, OrdMap<Vec<u8>, Vec<u8>>> = OrdMap::new();
    let ghost mut items: Seq<(Seq<u8>, Seq<(Seq<u8>, Seq<u8>)>)> = Seq::empty();
    let mut i: u32 = 0;
    while i < phg2_num
        invariant
            cur.data@ == d,
            d == old(cur).data@,
            p == old(cur).pos,
            fits(d, q, 12),
            phg2_num == crate::bytes::le32(d, q + 8),
            phdc_section(d, p) == phdc_tail(d, p, q, rep(phg2_entry_at(d), q + 12, phg2_num as nat)),
            i <= phg2_num,
            rep(phg2_entry_at(d), q + 12, i as nat) == Ok::<(Seq<(Seq<u8>, Seq<(Seq<u8>, Seq<u8>)>)>, int), ParseError>((items, cur.pos as int)),
            phg2.deep_view() == map_of::<Vec<u8>, Seq<(Seq<u8>, Seq<u8>)>>(items),
        decreases phg2_num - i,
    {
        match parse_phg2_entry(cur) {
            Ok((k, v)) => {
                let ghost x = (k.deep_view(), v.deep_view());
                phg2.insert(k, v);
                proof {
                    assert(items.push(x).drop_last() =~= items);
                    items = items.push(x);
                }
                i = i + 1;
            },
            Err(e) => {
                proof {
                    lemma_rep_fails(phg2_entry_at(d), q + 12, (i + 1) as nat, phg2_num as nat);
                    reveal(phdc_tail);
                }
                return Err(e);
            },
        }
    }
    let epr_guide = match parse_guide_part(cur, phdc_size, phg2_size, phoneme_num) {
        Ok(g) => g,
        Err(e) => {
            proof {
                reveal(phdc_tail);
            }
            return Err(e);
        },
    };
    proof {
        reveal(phdc_tail);
    }
    Ok(PhdcData { voiced, unvoiced, phg2, epr_guide })
}

} // verus!
