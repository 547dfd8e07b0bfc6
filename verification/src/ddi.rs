//! The DDI index file: its string and array fields, the signature searches,
//! and the model that reading a whole file produces.

use vstd::prelude::*;
use vstd::utf8::*;
use vstd::string::*;
use crate::bytes::{enc32, le32, lemma_le32_enc32, push_u32_le, extend_bytes};
use crate::cursor::{Cursor, ParseError, str_field, text_field, arr_field};
use crate::search::{matches_at, is_first_match, lemma_first_match, backward_scan, is_backward_match, locate, first_match, backward_match, lemma_backward_match, window_start, clip, lemma_backward_window};
use crate::text::{from_utf8_lossy, lossy_bytes, utf8_lossy};
use crate::format::{phdc_section, tdb_section, dbv_section, sta_section, art_section, vqm_section, map_of, tdb_names, tdb_entry_ok, tdb_section_bytes, lemma_tdb_section_in};
use crate::parse::{parse_phdc, parse_tdb, parse_dbv, parse_sta, parse_art, parse_vqm};
use crate::model::{PhdcData, PhdcDataV, StaEntry, StaEntryV, ArtBlock, ArtBlockV, VqmItem, VqmItemV};
use crate::ordmap::OrdMap;
use crate::dict::{DdiDict, DdiDictV, build_sta_dict, build_art_dict, build_vqm_list, sta_dict, art_dict, vqm_list};

verus! {

/// Reads a string stored as a little-endian `u32` byte count followed by the
/// bytes, decoding them lossily as UTF-8.
pub fn read_str(cur: &mut Cursor) -> (r: Result<String, ParseError>)
    ensures
        final(cur).data@ == old(cur).data@,
        match str_field(old(cur).data@, old(cur).pos as int) {
            Ok((raw, q)) => {
                &&& r matches Ok(s)
                &&& s@ == utf8_lossy(raw)
                &&& (valid_utf8(raw) ==> s@ == decode_utf8(raw))
                &&& final(cur).pos == q
            },
            Err(e) => {
                &&& r == Err::<String, ParseError>(e)
                &&& final(cur).pos == old(cur).data@.len()
            },
        },
{
    let n = cur.read_u32_le()?;
    let raw = cur.read_bytes(n as usize)?;
    Ok(from_utf8_lossy(raw))
}

/// `read_str`, keeping the UTF-8 bytes of the decoded string.
pub fn read_text(cur: &mut Cursor) -> (r: Result<Vec<u8>, ParseError>)
    ensures
        final(cur).data@ == old(cur).data@,
        match text_field(old(cur).data@, old(cur).pos as int) {
            Ok((t, q)) => {
                &&& r matches Ok(v)
                &&& v@ == t
                &&& final(cur).pos == q
            },
            Err(e) => {
                &&& r == Err::<Vec<u8>, ParseError>(e)
                &&& final(cur).pos == old(cur).data@.len()
            },
        },
{
    let n = cur.read_u32_le()?;
    let raw = cur.read_bytes(n as usize)?;
    Ok(lossy_bytes(raw))
}

/// The string field that stores `s`: its byte count, truncated to 32 bits as
/// a little-endian `u32`, then its UTF-8 bytes.
pub fn str_to_data(s: &str) -> (v: Vec<u8>)
    ensures
        v@ == field(s.spec_bytes()),
{
    field_data(s.as_bytes())
}

/// A string field holding the bytes `b`: their count, truncated to 32 bits,
/// then the bytes.
pub open spec fn field(b: Seq<u8>) -> Seq<u8> {
    enc32(b.len() as u32) + b
}

/// The string field holding the bytes `b`.
pub fn field_data(b: &[u8]) -> (v: Vec<u8>)
    ensures
        v@ == field(b@),
{
    let mut v: Vec<u8> = Vec::new();
    push_u32_le(&mut v, b.len() as u32);
    extend_bytes(&mut v, b);
    v
}

/// Reads an array record: a four-byte signature, four and eight bytes that
/// are skipped, and the four bytes that are returned.
pub fn read_arr(cur: &mut Cursor) -> (r: Result<Vec<u8>, ParseError>)
    ensures
        final(cur).data@ == old(cur).data@,
        match arr_field(old(cur).data@, old(cur).pos as int) {
            Ok((out, q)) => {
                &&& r matches Ok(v)
                &&& v@ == out
                &&& final(cur).pos == q
            },
            Err(e) => {
                &&& r == Err::<Vec<u8>, ParseError>(e)
                &&& final(cur).pos == old(cur).data@.len()
            },
        },
{
    let _sig = cur.read_bytes(4)?;
    let _tmp = cur.read_bytes(4)?;
    let _tmp8 = cur.read_bytes(8)?;
    let out = cur.read_bytes(4)?;
    Ok(vstd::slice::slice_to_vec(out))
}

/// How far back `reverse_search` looks: `-1` means as far as `offset -
/// pat_len`, any other value is taken as an unsigned distance.
pub open spec fn reverse_limit(offset: int, pat_len: int, limit: i32) -> int {
    if limit == -1 {
        offset - pat_len
    } else {
        limit as usize as int
    }
}

/// Searches backward for `pat`, starting at `offset - pat.len()` and going
/// down while the distance from `offset` stays within the limit (position 0
/// is never looked at). Returns the position found, or `usize::MAX`.
pub fn reverse_search(data: &[u8], pat: &[u8], offset: usize, limit: i32) -> (r: usize)
    requires
        offset >= pat@.len(),
    ensures
        is_backward_match(
            data@,
            pat@,
            offset as int,
            reverse_limit(offset as int, pat@.len() as int, limit),
            r,
        ),
{
    let lim: usize = if limit == -1 {
        offset - pat.len()
    } else {
        limit as usize
    };
    backward_scan(data, pat, offset, lim)
}

/// How far back `stream_reverse_search` looks: `-1` means 10 MiB.
pub open spec fn stream_reverse_limit(limit: i32) -> int {
    if limit == -1 {
        10485760int
    } else {
        limit as usize as int
    }
}

/// `reverse_search` over the contents of a seekable stream, where `-1` as the
/// limit means 10 MiB; a position whose read would pass the end of the stream
/// does not match.
pub fn stream_reverse_search(data: &[u8], pat: &[u8], offset: usize, limit: i32) -> (r: usize)
    requires
        offset >= pat@.len(),
    ensures
        is_backward_match(data@, pat@, offset as int, stream_reverse_limit(limit), r),
{
    let lim: usize = if limit == -1 {
        10 * 1024 * 1024
    } else {
        limit as usize
    };
    backward_scan(data, pat, offset, lim)
}

/// Where the stretch of a stream that `stream_reverse_search` looks at
/// begins: one byte below the lowest position it may look at (or 0).
pub fn stream_window_start(offset: usize, pat_len: usize, limit: i32) -> (ws: usize)
    requires
        offset >= pat_len,
    ensures
        ws == window_start(offset as int, pat_len as int, stream_reverse_limit(limit)),
{
    let lim: usize = if limit == -1 {
        10 * 1024 * 1024
    } else {
        limit as usize
    };
    let b: usize = if offset > pat_len { offset - pat_len - 1 } else { 0 };
    let a: usize = if offset > lim && offset - lim >= 2 { offset - lim - 2 } else { 0 };
    if a < b { a } else { b }
}

/// `stream_reverse_search` over the stretch of a stream it looks at:
/// `window` holds the stream's bytes from `stream_window_start` up to
/// `offset`, or to the stream's end. The result is the one the search over
/// the whole stream gives.
pub fn stream_reverse_search_window(window: &[u8], pat: &[u8], offset: usize, limit: i32) -> (r: usize)
    requires
        offset >= pat@.len() > 0,
    ensures
        forall|d: Seq<u8>|
            window@ == d.subrange(
                clip(window_start(offset as int, pat@.len() as int, stream_reverse_limit(limit)), d.len() as int),
                clip(offset as int, d.len() as int),
            ) ==> #[trigger] is_backward_match(d, pat@, offset as int, stream_reverse_limit(limit), r),
{
    let ws = stream_window_start(offset, pat.len(), limit);
    let found = stream_reverse_search(window, pat, offset - ws, limit);
    let ghost lim = stream_reverse_limit(limit);
    let ghost ret: usize = if found == usize::MAX { usize::MAX } else { (found + ws) as usize };
    proof {
        assert forall|d: Seq<u8>|
            window@ == d.subrange(
                clip(window_start(offset as int, pat@.len() as int, lim), d.len() as int),
                clip(offset as int, d.len() as int),
            ) implies #[trigger] is_backward_match(d, pat@, offset as int, lim, ret) by {
            lemma_backward_window(d, pat@, offset as int, lim, found);
        }
    }
    if found == usize::MAX {
        usize::MAX
    } else {
        found + ws
    }
}

/// A string written by `str_to_data` reads back as its own UTF-8 bytes, which
/// are valid UTF-8 and decode to the string: with the contract of `read_str`,
/// reading `str_to_data(s)` gives `s` back.
pub proof fn lemma_str_to_data_reads_back(s: Seq<char>)
    requires
        encode_utf8(s).len() <= u32::MAX,
    ensures
        str_field(enc32(encode_utf8(s).len() as u32) + encode_utf8(s), 0) == Ok::<
            (Seq<u8>, int),
            ParseError,
        >((encode_utf8(s), 4 + encode_utf8(s).len() as int)),
        valid_utf8(encode_utf8(s)),
        decode_utf8(encode_utf8(s)) == s,
{
    let b = encode_utf8(s);
    let n = b.len() as u32;
    let d = enc32(n) + b;
    lemma_le32_enc32(n);
    assert(le32(d, 0) == le32(enc32(n), 0));
    assert(d.subrange(4, 4 + n as int) =~= b);
    encode_utf8_valid_utf8(s);
    encode_utf8_decode_utf8(s);
}

// ---------------------------------------------------------------- the model

/// Where each section was read: from where reading started to where it
/// stopped.
#[derive(Debug, Clone, Copy)]
pub struct OffsetMap {
    pub phdc: Option<(usize, usize)>,
    pub tdb: Option<(usize, usize)>,
    pub dbv: Option<(usize, usize)>,
    pub sta: Option<(usize, usize)>,
    pub art: Option<(usize, usize)>,
    pub vqm: Option<(usize, usize)>,
}

impl OffsetMap {
    /// No section read yet.
    pub fn new() -> (m: OffsetMap)
        ensures
            m == empty_offsets(),
    {
        OffsetMap { phdc: None, tdb: None, dbv: None, sta: None, art: None, vqm: None }
    }
}

pub open spec fn empty_offsets() -> OffsetMap {
    OffsetMap { phdc: None, tdb: None, dbv: None, sta: None, art: None, vqm: None }
}

/// A DDI file and what reading it gave: the phoneme dictionary, the tone
/// database names, the stationary and articulation samples, the growl
/// samples, where each section lay, and the summary built from them.
pub struct DDIModel {
    pub ddi_bytes: Vec<u8>,
    pub phdc_data: Option<PhdcData>,
    pub tdb_data: OrdMap<u32, Vec<u8>>,
    pub sta_data: OrdMap<u32, StaEntry>,
    pub art_data: OrdMap<u32, ArtBlock>,
    pub vqm_data: Option<OrdMap<u32, VqmItem>>,
    pub offset_map: OffsetMap,
    pub ddi_data_dict: Option<DdiDict>,
}

/// What a `DDIModel` holds besides its bytes.
pub struct ModelV {
    pub phdc: Option<PhdcDataV>,
    pub tdb: Seq<(u32, Seq<u8>)>,
    pub sta: Seq<(u32, StaEntryV)>,
    pub art: Seq<(u32, ArtBlockV)>,
    pub vqm: Option<Seq<(u32, VqmItemV)>>,
    pub offsets: OffsetMap,
    pub dict: Option<DdiDictV>,
}

impl DDIModel {
    pub open spec fn contents(&self) -> ModelV {
        ModelV {
            phdc: self.phdc_data.deep_view(),
            tdb: self.tdb_data.deep_view(),
            sta: self.sta_data.deep_view(),
            art: self.art_data.deep_view(),
            vqm: self.vqm_data.deep_view(),
            offsets: self.offset_map,
            dict: self.ddi_data_dict.deep_view(),
        }
    }
}

/// A model that has read nothing.
pub open spec fn empty_contents() -> ModelV {
    ModelV {
        phdc: None,
        tdb: Seq::empty(),
        sta: Seq::empty(),
        art: Seq::empty(),
        vqm: None,
        offsets: empty_offsets(),
        dict: None,
    }
}

// ---------------------------------------------------------------- signatures

/// The signature that opens the PHDC block.
pub open spec fn phdc_sig() -> Seq<u8> {
    seq![80u8, 72u8, 68u8, 67u8]
}

/// Eight `fill` bytes followed by a four-byte tag: how a section is marked.
pub open spec fn section_sig(fill: u8, tag: Seq<u8>) -> Seq<u8> {
    Seq::new(8, |_i: int| fill) + tag
}

pub open spec fn tdb_sig() -> Seq<u8> {
    section_sig(0xff, seq![84u8, 68u8, 66u8, 32u8])
}

pub open spec fn dbv_sig() -> Seq<u8> {
    section_sig(0, seq![68u8, 66u8, 86u8, 32u8])
}

pub open spec fn sta_sig() -> Seq<u8> {
    section_sig(0, seq![83u8, 84u8, 65u8, 32u8])
}

pub open spec fn art_section_sig() -> Seq<u8> {
    section_sig(0, seq![65u8, 82u8, 84u8, 32u8])
}

pub open spec fn vqm_sig() -> Seq<u8> {
    section_sig(0xff, seq![86u8, 81u8, 77u8, 32u8])
}

/// The tag of an array record.
pub open spec fn arr_sig() -> Seq<u8> {
    seq![65u8, 82u8, 82u8, 32u8]
}

fn tag_bytes(a: u8, b: u8, c: u8, e: u8) -> (v: Vec<u8>)
    ensures
        v@ == seq![a, b, c, e],
{
    let mut v: Vec<u8> = Vec::new();
    v.push(a);
    v.push(b);
    v.push(c);
    v.push(e);
    assert(v@ =~= seq![a, b, c, e]);
    v
}

fn section_sig_bytes(fill: u8, a: u8, b: u8, c: u8, e: u8) -> (v: Vec<u8>)
    ensures
        v@ == section_sig(fill, seq![a, b, c, e]),
{
    let mut v: Vec<u8> = Vec::new();
    let mut i: usize = 0;
    while i < 8
        invariant
            i <= 8,
            v@ == Seq::new(i as nat, |_j: int| fill),
        decreases 8 - i,
    {
        v.push(fill);
        i = i + 1;
        assert(v@ =~= Seq::new(i as nat, |_j: int| fill));
    }
    let t = tag_bytes(a, b, c, e);
    extend_bytes(&mut v, t.as_slice());
    assert(v@ =~= section_sig(fill, seq![a, b, c, e]));
    v
}

// ---------------------------------------------------------------- stages

/// What reading one section gives: nothing when its signature is absent,
/// else what was read with the positions where reading started and stopped.
pub open spec fn stage_at<T>(start: Option<int>, section: spec_fn(int) -> Result<(T, int), ParseError>) -> Result<
    Option<(T, int, int)>,
    ParseError,
> {
    match start {
        None => Ok(None),
        Some(p) => match section(p) {
            Ok((v, q)) => Ok(Some((v, p, q))),
            Err(e) => Err(e),
        },
    }
}

pub open spec fn opt_int(o: Option<usize>) -> Option<int> {
    match o {
        Some(x) => Some(x as int),
        None => None,
    }
}

/// `r` is what an executable stage returned, given what the layout says
/// reading the section gives.
pub open spec fn stage_yields<T: DeepView>(
    r: Result<Option<(T, usize, usize)>, ParseError>,
    s: Result<Option<(T::V, int, int)>, ParseError>,
) -> bool {
    match s {
        Ok(None) => r matches Ok(None),
        Ok(Some((v, a, b))) => r matches Ok(Some(x)) && x.0.deep_view() == v && x.1 == a && x.2 == b,
        Err(e) => r matches Err(e2) && e2 == e,
    }
}

/// The array record found searching back from `pos` through the whole file.
pub open spec fn arr_before(d: Seq<u8>, pos: int) -> usize {
    backward_match(d, arr_sig(), pos, reverse_limit(pos, 4, -1i32))
}

/// A section that starts eight bytes before the array record preceding its
/// signature can't be located: the signature lies in the first four bytes,
/// or the record in the first eight.
pub open spec fn anchor_aborts(d: Seq<u8>, sig: Seq<u8>) -> bool {
    match first_match(d, sig) {
        None => false,
        Some(pos) => pos < 4 || (arr_before(d, pos as int) != usize::MAX && arr_before(d, pos as int) < 8),
    }
}

/// Where such a section starts (an array record that is absent puts it
/// eight bytes before `usize::MAX`).
pub open spec fn anchored_start(d: Seq<u8>, sig: Seq<u8>) -> Option<int> {
    match first_match(d, sig) {
        None => None,
        Some(pos) => Some(arr_before(d, pos as int) - 8),
    }
}

pub open spec fn phdc_stage(d: Seq<u8>) -> Result<Option<(PhdcDataV, int, int)>, ParseError> {
    stage_at(opt_int(first_match(d, phdc_sig())), |p: int| phdc_section(d, p))
}

pub open spec fn tdb_stage(d: Seq<u8>) -> Result<Option<(Seq<(u32, Seq<u8>)>, int, int)>, ParseError> {
    stage_at(opt_int(first_match(d, tdb_sig())), |p: int| tdb_section(d, p))
}

pub open spec fn dbv_stage(d: Seq<u8>) -> Result<Option<((), int, int)>, ParseError> {
    stage_at(opt_int(first_match(d, dbv_sig())), |p: int| dbv_section(d, p))
}

pub open spec fn sta_stage(d: Seq<u8>) -> Result<Option<(Seq<(u32, StaEntryV)>, int, int)>, ParseError> {
    stage_at(anchored_start(d, sta_sig()), |p: int| sta_section(d, p))
}

pub open spec fn art_stage(d: Seq<u8>) -> Result<Option<(Seq<(u32, ArtBlockV)>, int, int)>, ParseError> {
    stage_at(anchored_start(d, art_section_sig()), |p: int| art_section(d, p))
}

pub open spec fn vqm_stage(d: Seq<u8>) -> Result<Option<(Seq<(u32, VqmItemV)>, int, int)>, ParseError> {
    stage_at(opt_int(first_match(d, vqm_sig())), |p: int| vqm_section(d, p))
}

/// Locates a section preceded by an array record.
fn anchored_start_exec(d: &[u8], sig: &[u8]) -> (r: Option<usize>)
    requires
        !anchor_aborts(d@, sig@),
    ensures
        opt_int(r) == anchored_start(d@, sig@),
{
    match locate(d, sig) {
        None => None,
        Some(pos) => {
            let arr = tag_bytes(65, 82, 82, 32);
            let a = reverse_search(d, arr.as_slice(), pos, -1);
            proof {
                lemma_backward_match(d@, arr_sig(), pos as int, reverse_limit(pos as int, 4, -1i32), a);
            }
            Some(a - 8)
        },
    }
}

/// Whether locating a section preceded by an array record fails.
fn anchor_aborts_exec(d: &[u8], sig: &[u8]) -> (r: bool)
    ensures
        r == anchor_aborts(d@, sig@),
{
    match locate(d, sig) {
        None => false,
        Some(pos) => {
            if pos < 4 {
                true
            } else {
                let arr = tag_bytes(65, 82, 82, 32);
                let a = reverse_search(d, arr.as_slice(), pos, -1);
                proof {
                    lemma_backward_match(d@, arr_sig(), pos as int, reverse_limit(pos as int, 4, -1i32), a);
                }
                a != usize::MAX && a < 8
            }
        },
    }
}

fn phdc_stage_exec(d: &[u8]) -> (r: Result<Option<(PhdcData, usize, usize)>, ParseError>)
    ensures
        stage_yields(r, phdc_stage(d@)),
{
    let sig = tag_bytes(80, 72, 68, 67);
    match locate(d, sig.as_slice()) {
        None => Ok(None),
        Some(pos) => {
            let mut cur = Cursor::new(d);
            cur.seek(pos);
            let v = parse_phdc(&mut cur)?;
            Ok(Some((v, pos, cur.pos)))
        },
    }
}

fn tdb_stage_exec(d: &[u8]) -> (r: Result<Option<(OrdMap<u32, Vec<u8>>, usize, usize)>, ParseError>)
    ensures
        stage_yields(r, tdb_stage(d@)),
{
    let sig = section_sig_bytes(0xff, 84, 68, 66, 32);
    match locate(d, sig.as_slice()) {
        None => Ok(None),
        Some(pos) => {
            let mut cur = Cursor::new(d);
            cur.seek(pos);
            let v = parse_tdb(&mut cur)?;
            Ok(Some((v, pos, cur.pos)))
        },
    }
}

fn dbv_stage_exec(d: &[u8]) -> (r: Result<Option<((), usize, usize)>, ParseError>)
    ensures
        stage_yields(r, dbv_stage(d@)),
{
    let sig = section_sig_bytes(0, 68, 66, 86, 32);
    match locate(d, sig.as_slice()) {
        None => Ok(None),
        Some(pos) => {
            let mut cur = Cursor::new(d);
            cur.seek(pos);
            let v = parse_dbv(&mut cur)?;
            Ok(Some((v, pos, cur.pos)))
        },
    }
}

fn sta_stage_exec(d: &[u8]) -> (r: Result<Option<(OrdMap<u32, StaEntry>, usize, usize)>, ParseError>)
    requires
        !anchor_aborts(d@, sta_sig()),
    ensures
        stage_yields(r, sta_stage(d@)),
{
    let sig = section_sig_bytes(0, 83, 84, 65, 32);
    match anchored_start_exec(d, sig.as_slice()) {
        None => Ok(None),
        Some(pos) => {
            let mut cur = Cursor::new(d);
            cur.seek(pos);
            let v = parse_sta(&mut cur)?;
            Ok(Some((v, pos, cur.pos)))
        },
    }
}

fn art_stage_exec(d: &[u8]) -> (r: Result<Option<(OrdMap<u32, ArtBlock>, usize, usize)>, ParseError>)
    requires
        !anchor_aborts(d@, art_section_sig()),
    ensures
        stage_yields(r, art_stage(d@)),
{
    let sig = section_sig_bytes(0, 65, 82, 84, 32);
    match anchored_start_exec(d, sig.as_slice()) {
        None => Ok(None),
        Some(pos) => {
            let mut cur = Cursor::new(d);
            cur.seek(pos);
            let v = parse_art(&mut cur)?;
            Ok(Some((v, pos, cur.pos)))
        },
    }
}

fn vqm_stage_exec(d: &[u8]) -> (r: Result<Option<(OrdMap<u32, VqmItem>, usize, usize)>, ParseError>)
    ensures
        stage_yields(r, vqm_stage(d@)),
{
    let sig = section_sig_bytes(0xff, 86, 81, 77, 32);
    match locate(d, sig.as_slice()) {
        None => Ok(None),
        Some(pos) => {
            let mut cur = Cursor::new(d);
            cur.seek(pos);
            let v = parse_vqm(&mut cur)?;
            Ok(Some((v, pos, cur.pos)))
        },
    }
}

// ---------------------------------------------------------------- reading

pub open spec fn span(a: int, b: int) -> Option<(usize, usize)> {
    Some((a as usize, b as usize))
}

pub open spec fn with_phdc(s: ModelV, o: Option<(PhdcDataV, int, int)>) -> ModelV {
    match o {
        None => s,
        Some((v, a, b)) => ModelV { phdc: Some(v), offsets: OffsetMap { phdc: span(a, b), ..s.offsets }, ..s },
    }
}

pub open spec fn with_tdb(s: ModelV, o: Option<(Seq<(u32, Seq<u8>)>, int, int)>) -> ModelV {
    match o {
        None => s,
        Some((v, a, b)) => ModelV { tdb: v, offsets: OffsetMap { tdb: span(a, b), ..s.offsets }, ..s },
    }
}

pub open spec fn with_dbv(s: ModelV, o: Option<((), int, int)>) -> ModelV {
    match o {
        None => s,
        Some((_v, a, b)) => ModelV { offsets: OffsetMap { dbv: span(a, b), ..s.offsets }, ..s },
    }
}

pub open spec fn with_sta(s: ModelV, o: Option<(Seq<(u32, StaEntryV)>, int, int)>) -> ModelV {
    match o {
        None => s,
        Some((v, a, b)) => ModelV { sta: v, offsets: OffsetMap { sta: span(a, b), ..s.offsets }, ..s },
    }
}

pub open spec fn with_art(s: ModelV, o: Option<(Seq<(u32, ArtBlockV)>, int, int)>) -> ModelV {
    match o {
        None => s,
        Some((v, a, b)) => ModelV { art: v, offsets: OffsetMap { art: span(a, b), ..s.offsets }, ..s },
    }
}

pub open spec fn with_vqm(s: ModelV, o: Option<(Seq<(u32, VqmItemV)>, int, int)>) -> ModelV {
    match o {
        None => s,
        Some((v, a, b)) => ModelV { vqm: Some(v), offsets: OffsetMap { vqm: span(a, b), ..s.offsets }, ..s },
    }
}

/// The summary of what a model holds.
pub open spec fn dict_of(s: ModelV) -> DdiDictV {
    DdiDictV {
        sta: sta_dict(s.sta),
        art: art_dict(s.art),
        vqm: match s.vqm {
            Some(v) => Some(vqm_list(v)),
            None => None,
        },
    }
}

pub open spec fn with_dict(s: ModelV) -> ModelV {
    ModelV { dict: Some(dict_of(s)), ..s }
}

/// Reading the file `d` into a model holding `s`: the sections in turn
/// (PHDC, TDB, DBV, STA, ART, VQM), each found by its signature and
/// replacing what the model held of it; the first that fails to read stops
/// the reading with its error, keeping what the sections before it gave.
/// When all are read, the summary is built.
#[verifier::opaque]
pub open spec fn read_spec(d: Seq<u8>, s: ModelV) -> (ModelV, Result<(), ParseError>) {
    match phdc_stage(d) {
        Err(e) => (s, Err(e)),
        Ok(o1) => {
            let s1 = with_phdc(s, o1);
            match tdb_stage(d) {
                Err(e) => (s1, Err(e)),
                Ok(o2) => {
                    let s2 = with_tdb(s1, o2);
                    match dbv_stage(d) {
                        Err(e) => (s2, Err(e)),
                        Ok(o3) => {
                            let s3 = with_dbv(s2, o3);
                            match sta_stage(d) {
                                Err(e) => (s3, Err(e)),
                                Ok(o4) => {
                                    let s4 = with_sta(s3, o4);
                                    match art_stage(d) {
                                        Err(e) => (s4, Err(e)),
                                        Ok(o5) => {
                                            let s5 = with_art(s4, o5);
                                            match vqm_stage(d) {
                                                Err(e) => (s5, Err(e)),
                                                Ok(o6) => (with_dict(with_vqm(s5, o6)), Ok(())),
                                            }
                                        },
                                    }
                                },
                            }
                        },
                    }
                },
            }
        },
    }
}

/// Reading `d` reaches a section preceded by an array record that can't be
/// located (see `anchor_aborts`): reading such a file does not finish.
pub open spec fn read_aborts(d: Seq<u8>) -> bool {
    &&& phdc_stage(d) is Ok
    &&& tdb_stage(d) is Ok
    &&& dbv_stage(d) is Ok
    &&& (anchor_aborts(d, sta_sig()) || (sta_stage(d) is Ok && anchor_aborts(d, art_section_sig())))
}

impl DDIModel {
    /// A model of `ddi_bytes` that has read nothing yet.
    pub fn new(ddi_bytes: Vec<u8>) -> (m: DDIModel)
        ensures
            m.ddi_bytes@ == ddi_bytes@,
            m.contents() == empty_contents(),
    {
        let m = DDIModel {
            ddi_bytes,
            phdc_data: None,
            tdb_data: OrdMap::new(),
            sta_data: OrdMap::new(),
            art_data: OrdMap::new(),
            vqm_data: None,
            offset_map: OffsetMap::new(),
            ddi_data_dict: None,
        };
        m
    }

    /// Whether `read` would not finish on this model's bytes.
    pub fn read_would_abort(&self) -> (r: bool)
        ensures
            r == read_aborts(self.ddi_bytes@),
    {
        let d = self.ddi_bytes.as_slice();
        if phdc_stage_exec(d).is_err() || tdb_stage_exec(d).is_err() || dbv_stage_exec(d).is_err() {
            return false;
        }
        let sta = section_sig_bytes(0, 83, 84, 65, 32);
        if anchor_aborts_exec(d, sta.as_slice()) {
            return true;
        }
        if sta_stage_exec(d).is_err() {
            return false;
        }
        let art = section_sig_bytes(0, 65, 82, 84, 32);
        anchor_aborts_exec(d, art.as_slice())
    }

    /// Reads the sections of the file into the model (unless `cat_only`),
    /// then builds the summary.
    pub fn read(&mut self, _temp_path: Option<&str>, cat_only: bool) -> (r: Result<(), ParseError>)
        requires
            cat_only || !read_aborts(old(self).ddi_bytes@),
        ensures
            final(self).ddi_bytes@ == old(self).ddi_bytes@,
            cat_only ==> final(self).contents() == old(self).contents() && r is Ok,
            !cat_only ==> (final(self).contents(), r) == read_spec(old(self).ddi_bytes@, old(self).contents()),
    {
        if cat_only {
            return Ok(());
        }
        proof {
            reveal(read_spec);
        }
        let d = self.ddi_bytes.as_slice();
        if let Some((v, a, b)) = phdc_stage_exec(d)? {
            self.phdc_data = Some(v);
            self.offset_map.phdc = Some((a, b));
        }
        if let Some((v, a, b)) = tdb_stage_exec(d)? {
            self.tdb_data = v;
            self.offset_map.tdb = Some((a, b));
        }
        if let Some((_v, a, b)) = dbv_stage_exec(d)? {
            self.offset_map.dbv = Some((a, b));
        }
        if let Some((v, a, b)) = sta_stage_exec(d)? {
            self.sta_data = v;
            self.offset_map.sta = Some((a, b));
        }
        if let Some((v, a, b)) = art_stage_exec(d)? {
            self.art_data = v;
            self.offset_map.art = Some((a, b));
        }
        if let Some((v, a, b)) = vqm_stage_exec(d)? {
            self.vqm_data = Some(v);
            self.offset_map.vqm = Some((a, b));
        }
        self.build_ddi_dict();
        Ok(())
    }

    /// Builds the summary from the stationary, articulation and growl
    /// samples.
    fn build_ddi_dict(&mut self)
        ensures
            final(self).ddi_bytes@ == old(self).ddi_bytes@,
            final(self).contents() == with_dict(old(self).contents()),
    {
        let sta = build_sta_dict(&self.sta_data);
        let art = build_art_dict(&self.art_data);
        let vqm = match &self.vqm_data {
            Some(v) => Some(build_vqm_list(v)),
            None => None,
        };
        self.ddi_data_dict = Some(DdiDict { sta, art, vqm });
    }
}

/// Reading a file again into a model that has read it succeeds and changes
/// nothing: what a successful read leaves depends on the file alone where a
/// section was found.
pub proof fn lemma_read_again(d: Seq<u8>, s: ModelV)
    requires
        read_spec(d, s).1 is Ok,
    ensures
        read_spec(d, read_spec(d, s).0) == (read_spec(d, s).0, Ok::<(), ParseError>(())),
{
    reveal(read_spec);
}

/// What a successful read from an empty model holds: the summary is built,
/// and each section's data and offsets are set exactly when its signature
/// was found.
pub proof fn lemma_read_fresh(d: Seq<u8>)
    requires
        read_spec(d, empty_contents()).1 is Ok,
    ensures
        ({
            let m = read_spec(d, empty_contents()).0;
            &&& m.dict == Some(dict_of(m))
            &&& (m.phdc is Some <==> first_match(d, phdc_sig()) is Some)
            &&& (m.offsets.phdc is Some <==> first_match(d, phdc_sig()) is Some)
            &&& (m.offsets.tdb is Some <==> first_match(d, tdb_sig()) is Some)
            &&& (m.offsets.dbv is Some <==> first_match(d, dbv_sig()) is Some)
            &&& (m.offsets.sta is Some <==> first_match(d, sta_sig()) is Some)
            &&& (m.offsets.art is Some <==> first_match(d, art_section_sig()) is Some)
            &&& (m.vqm is Some <==> first_match(d, vqm_sig()) is Some)
            &&& (m.offsets.vqm is Some <==> first_match(d, vqm_sig()) is Some)
        }),
{
    reveal(read_spec);
}

/// Law: reading a file whose PHDC stage reads and whose first TDB signature
/// starts a TDB section laid out as 24 header bytes, a count, the entries
/// and a trailing string leaves the model holding, as its tone names, the
/// map from each entry's index to its name, and, as where the TDB section
/// lies, its start and the end of its trailing string, whatever the
/// sections after it hold.
pub proof fn lemma_read_tdb(
    d: Seq<u8>,
    s: ModelV,
    p: int,
    head: Seq<u8>,
    es: Seq<(Seq<u8>, u32, Seq<(Seq<u8>, Seq<u8>, Seq<u8>)>, Seq<u8>)>,
    trailing: Seq<u8>,
)
    requires
        d.len() <= usize::MAX,
        phdc_stage(d) is Ok,
        matches_at(d, tdb_sig(), p),
        forall|j: int| 0 <= j < p ==> !#[trigger] matches_at(d, tdb_sig(), j),
        head.len() == 24,
        es.len() <= u32::MAX,
        forall|i: int| 0 <= i < es.len() ==> tdb_entry_ok(#[trigger] es[i]),
        trailing.len() <= u32::MAX,
        p + tdb_section_bytes(head, es, trailing).len() <= d.len(),
        d.subrange(p, p + tdb_section_bytes(head, es, trailing).len()) == tdb_section_bytes(head, es, trailing),
    ensures
        read_spec(d, s).0.tdb == map_of::<u32, Seq<u8>>(tdb_names(es)),
        read_spec(d, s).0.offsets.tdb == span(p, p + tdb_section_bytes(head, es, trailing).len()),
{
    reveal(read_spec);
    assert(is_first_match(d, tdb_sig(), Some(p as usize)));
    lemma_first_match(d, tdb_sig(), Some(p as usize));
    lemma_tdb_section_in(d, p, head, es, trailing);
}

} // verus!
