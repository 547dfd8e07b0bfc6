//! Names of the files a voicebank is extracted to: escaped X-SAMPA
//! phonemes, the group a sample belongs to, and the directory it goes in.

use vstd::prelude::*;
use crate::bytes::{dec, dec_bytes, extend_bytes};

verus! {

/// `s` begins at `i` with `Sil`.
pub open spec fn sil_at(s: Seq<u8>, i: int) -> bool {
    i + 3 <= s.len() && s[i] == 83u8 && s[i + 1] == 105u8 && s[i + 2] == 108u8
}

/// `s` with every `Sil`, left to right, written `sil`.
pub open spec fn lower_sil(s: Seq<u8>) -> Seq<u8>
    decreases s.len(),
{
    if s.len() == 0 {
        s
    } else if sil_at(s, 0) {
        seq![115u8, 105u8, 108u8] + lower_sil(s.subrange(3, s.len() as int))
    } else {
        seq![s[0]] + lower_sil(s.drop_first())
    }
}

/// The first byte of `lower_sil(s)`: the `s` of a lowered `Sil`, else the
/// first byte of `s`; the length is kept.
proof fn lemma_lower_sil_first(s: Seq<u8>)
    ensures
        lower_sil(s).len() == s.len(),
        s.len() > 0 ==> lower_sil(s)[0] == if sil_at(s, 0) { 115u8 } else { s[0] },
    decreases s.len(),
{
    if s.len() > 0 {
        if sil_at(s, 0) {
            lemma_lower_sil_first(s.subrange(3, s.len() as int));
        } else {
            lemma_lower_sil_first(s.drop_first());
        }
    }
}

/// Law: once every `Sil` is lowered, no `Sil` is left, whatever the text:
/// lowering never makes a new one.
pub proof fn lemma_lower_sil_leaves_none(s: Seq<u8>)
    ensures
        forall|i: int| 0 <= i ==> !#[trigger] sil_at(lower_sil(s), i),
    decreases s.len(),
{
    let r = lower_sil(s);
    lemma_lower_sil_first(s);
    if s.len() > 0 {
        if sil_at(s, 0) {
            let t = s.subrange(3, s.len() as int);
            lemma_lower_sil_leaves_none(t);
            assert forall|i: int| 0 <= i implies !#[trigger] sil_at(r, i) by {
                if i >= 3 {
                    assert(!sil_at(lower_sil(t), i - 3));
                    if sil_at(r, i) {
                        assert(r[i] == lower_sil(t)[i - 3]);
                        assert(r[i + 1] == lower_sil(t)[i - 2]);
                        assert(r[i + 2] == lower_sil(t)[i - 1]);
                    }
                } else if i + 3 <= r.len() {
                    assert(r[0] == 115u8 && r[1] == 105u8 && r[2] == 108u8);
                }
            }
        } else {
            let t = s.drop_first();
            lemma_lower_sil_leaves_none(t);
            lemma_lower_sil_first(t);
            assert forall|i: int| 0 <= i implies !#[trigger] sil_at(r, i) by {
                if i >= 1 {
                    assert(!sil_at(lower_sil(t), i - 1));
                    if sil_at(r, i) {
                        assert(r[i] == lower_sil(t)[i - 1]);
                        assert(r[i + 1] == lower_sil(t)[i]);
                        assert(r[i + 2] == lower_sil(t)[i + 1]);
                    }
                } else if sil_at(r, 0) {
                    assert(r[0] == s[0]);
                    assert(r[1] == lower_sil(t)[0]);
                    assert(lower_sil(t)[0] == t[0]);
                    let t2 = t.drop_first();
                    lemma_lower_sil_first(t2);
                    assert(lower_sil(t) == seq![t[0]] + lower_sil(t2));
                    assert(r[2] == lower_sil(t2)[0]);
                    assert(!sil_at(t2, 0));
                    assert(lower_sil(t2)[0] == t2[0]);
                    assert(s[1] == t[0] && s[2] == t2[0]);
                }
            }
        }
    }
}

/// What a byte becomes in a file name: `\` `-`, `/` `~`, `?` `!`, `:` `;`,
/// `<` `(`, `>` `)`, `*` a bullet (in UTF-8); others stay.
pub open spec fn xsampa_byte(b: u8) -> Seq<u8> {
    if b == 92 {
        seq![45u8]
    } else if b == 47 {
        seq![126u8]
    } else if b == 63 {
        seq![33u8]
    } else if b == 58 {
        seq![59u8]
    } else if b == 60 {
        seq![40u8]
    } else if b == 62 {
        seq![41u8]
    } else if b == 42 {
        seq![0xe2u8, 0x80u8, 0xa2u8]
    } else {
        seq![b]
    }
}

/// Each byte of `s` as `xsampa_byte` writes it.
pub open spec fn map_xsampa(s: Seq<u8>) -> Seq<u8>
    decreases s.len(),
{
    if s.len() == 0 {
        s
    } else {
        map_xsampa(s.drop_last()) + xsampa_byte(s.last())
    }
}

/// The UTF-8 bytes of an X-SAMPA phoneme as it appears in a file name.
/// (The characters replaced are ASCII, whose bytes never occur inside the
/// encoding of another character.)
pub open spec fn escape_xsampa_spec(s: Seq<u8>) -> Seq<u8> {
    map_xsampa(lower_sil(s))
}

/// The bytes a file name cannot hold: `\`, `/`, `?`, `:`, `<`, `>` and `*`.
pub open spec fn unsafe_in_name(b: u8) -> bool {
    b == 92 || b == 47 || b == 63 || b == 58 || b == 60 || b == 62 || b == 42
}

/// Mapped bytes hold none of the bytes a file name cannot hold.
proof fn lemma_map_xsampa_safe(s: Seq<u8>)
    ensures
        forall|i: int| 0 <= i < map_xsampa(s).len() ==> !unsafe_in_name(#[trigger] map_xsampa(s)[i]),
    decreases s.len(),
{
    if s.len() > 0 {
        let a = map_xsampa(s.drop_last());
        let b = xsampa_byte(s.last());
        lemma_map_xsampa_safe(s.drop_last());
        assert forall|i: int| 0 <= i < b.len() implies !unsafe_in_name(#[trigger] b[i]) by {}
        assert forall|i: int| 0 <= i < map_xsampa(s).len() implies !unsafe_in_name(#[trigger] map_xsampa(s)[i]) by {
            if i < a.len() {
                assert(map_xsampa(s)[i] == a[i]);
            } else {
                assert(map_xsampa(s)[i] == b[i - a.len()]);
            }
        }
    }
}

/// Law: an escaped phoneme holds none of the bytes a file name cannot hold
/// (`\`, `/`, `?`, `:`, `<`, `>`, `*`), whatever the phoneme.
pub proof fn lemma_escaped_phoneme_is_safe(s: Seq<u8>)
    ensures
        forall|i: int| 0 <= i < escape_xsampa_spec(s).len() ==> !unsafe_in_name(#[trigger] escape_xsampa_spec(s)[i]),
{
    lemma_map_xsampa_safe(lower_sil(s));
}

fn lower_sil_exec(s: &[u8]) -> (v: Vec<u8>)
    ensures
        v@ == lower_sil(s@),
{
    let n = s.len();
    let mut v: Vec<u8> = Vec::new();
    let mut i: usize = 0;
    assert(s@.subrange(0, n as int) =~= s@);
    while i < n
        invariant
            n == s@.len(),
            i <= n,
            v@ + lower_sil(s@.subrange(i as int, n as int)) == lower_sil(s@),
        decreases n - i,
    {
        let ghost t = s@.subrange(i as int, n as int);
        if n - i >= 3 && s[i] == 83 && s[i + 1] == 105 && s[i + 2] == 108 {
            assert(sil_at(t, 0));
            assert(t.subrange(3, t.len() as int) =~= s@.subrange(i + 3, n as int));
            v.push(115);
            v.push(105);
            v.push(108);
            i = i + 3;
        } else {
            assert(!sil_at(t, 0));
            assert(t.drop_first() =~= s@.subrange(i + 1, n as int));
            v.push(s[i]);
            i = i + 1;
        }
        assert(v@ + lower_sil(s@.subrange(i as int, n as int)) =~= lower_sil(s@));
    }
    assert(lower_sil(s@.subrange(n as int, n as int)) =~= Seq::<u8>::empty());
    assert(v@ =~= v@ + Seq::<u8>::empty());
    v
}

/// Writes an X-SAMPA phoneme as it appears in file names: `Sil` as `sil`,
/// and the characters a file system may refuse replaced.
pub fn escape_xsampa(xsampa: &[u8]) -> (v: Vec<u8>)
    ensures
        v@ == escape_xsampa_spec(xsampa@),
{
    let t = lower_sil_exec(xsampa);
    let n = t.len();
    let mut v: Vec<u8> = Vec::new();
    let mut i: usize = 0;
    assert(t@.subrange(0, 0) =~= Seq::<u8>::empty());
    while i < n
        invariant
            n == t@.len(),
            i <= n,
            v@ == map_xsampa(t@.subrange(0, i as int)),
        decreases n - i,
    {
        let b = t[i];
        let ghost before = v@;
        if b == 92 {
            v.push(45);
        } else if b == 47 {
            v.push(126);
        } else if b == 63 {
            v.push(33);
        } else if b == 58 {
            v.push(59);
        } else if b == 60 {
            v.push(40);
        } else if b == 62 {
            v.push(41);
        } else if b == 42 {
            v.push(0xe2);
            v.push(0x80);
            v.push(0xa2);
        } else {
            v.push(b);
        }
        assert(v@ =~= before + xsampa_byte(b));
        i = i + 1;
        assert(t@.subrange(0, i as int).drop_last() =~= t@.subrange(0, i - 1));
    }
    assert(t@.subrange(0, n as int) =~= t@);
    v
}

/// The lowercase hexadecimal digits of `n`, without leading zeros.
pub open spec fn hex_digits(n: nat) -> Seq<u8>
    decreases n,
{
    if n < 16 {
        seq![hex_char(n)]
    } else {
        hex_digits(n / 16).push(hex_char(n % 16))
    }
}

pub open spec fn hex_char(d: nat) -> u8 {
    if d < 10 {
        (d + 48) as u8
    } else {
        (d + 87) as u8
    }
}

/// `n` in lowercase hexadecimal, padded with zeros to at least `w`
/// digits: what `{:0w$x}` writes.
pub open spec fn hex_pad(n: nat, w: nat) -> Seq<u8> {
    let h = hex_digits(n);
    if h.len() < w {
        Seq::new((w - h.len()) as nat, |_i: int| 48u8) + h
    } else {
        h
    }
}

/// `n` as `{:08x}` writes it.
pub open spec fn hex8(n: nat) -> Seq<u8> {
    hex_pad(n, 8)
}

/// `n` as `{:08x}` writes it.
pub fn hex8_bytes(n: u64) -> (v: Vec<u8>)
    ensures
        v@ == hex8(n as nat),
{
    hex_pad_bytes(n, 8)
}

/// `n` as `{:0w$x}` writes it.
pub fn hex_pad_bytes(n: u64, w: usize) -> (v: Vec<u8>)
    ensures
        v@ == hex_pad(n as nat, w as nat),
{
    let mut m = n;
    let mut v: Vec<u8> = Vec::new();
    while m >= 16
        invariant
            hex_digits(n as nat) == hex_digits(m as nat) + v@,
        decreases m,
    {
        let ghost old_v = v@;
        let d = m % 16;
        let c = if d < 10 { (d + 48) as u8 } else { (d + 87) as u8 };
        v.insert(0, c);
        assert(hex_digits(m as nat) == hex_digits((m / 16) as nat).push(hex_char((m % 16) as nat)));
        assert(hex_digits(m as nat) + old_v =~= hex_digits((m / 16) as nat) + v@);
        m = m / 16;
    }
    let ghost old_v = v@;
    let c = if m < 10 { (m + 48) as u8 } else { (m + 87) as u8 };
    v.insert(0, c);
    assert(hex_digits(m as nat) + old_v =~= v@);
    let ghost h = v@;
    if v.len() < w {
        let k = w - v.len();
        let mut i: usize = 0;
        while i < k
            invariant
                i <= k,
                k == w - h.len(),
                v@ == Seq::new(i as nat, |_j: int| 48u8) + h,
            decreases k - i,
        {
            v.insert(0, 48);
            i = i + 1;
            assert(v@ =~= Seq::new(i as nat, |_j: int| 48u8) + h);
        }
    }
    v
}

/// The group a sample's phonemes put it in.
#[derive(Debug, Clone, Copy, PartialEq, Eq, Structural)]
pub enum SampleGroup {
    Growl,
    Stationary,
    Articulation,
    Triphone,
}

/// The bytes of `growl`.
pub open spec fn growl_text() -> Seq<u8> {
    seq![103u8, 114u8, 111u8, 119u8, 108u8]
}

/// The group of a sample with phonemes `p`: one phoneme `growl` is a growl,
/// one other a stationary, two an articulation, three a triphone; any other
/// count has no group.
pub open spec fn group_of(p: Seq<Seq<u8>>) -> Option<SampleGroup> {
    if p.len() == 1 && p[0] == growl_text() {
        Some(SampleGroup::Growl)
    } else if p.len() == 1 {
        Some(SampleGroup::Stationary)
    } else if p.len() == 2 {
        Some(SampleGroup::Articulation)
    } else if p.len() == 3 {
        Some(SampleGroup::Triphone)
    } else {
        None
    }
}

/// The directory name of a group.
pub open spec fn group_name(g: SampleGroup) -> Seq<u8> {
    match g {
        SampleGroup::Growl => growl_text(),
        SampleGroup::Stationary => seq![115u8, 116u8, 97u8],
        SampleGroup::Articulation => seq![97u8, 114u8, 116u8],
        SampleGroup::Triphone => seq![116u8, 114u8, 105u8],
    }
}

/// The phonemes escaped and joined with spaces.
pub open spec fn joined_escaped(p: Seq<Seq<u8>>) -> Seq<u8>
    decreases p.len(),
{
    if p.len() == 0 {
        Seq::empty()
    } else if p.len() == 1 {
        escape_xsampa_spec(p[0])
    } else {
        joined_escaped(p.drop_last()) + seq![32u8] + escape_xsampa_spec(p.last())
    }
}

/// A sample's file name, around its pitch (which `{:+0.2}` writes between
/// the two parts), or the whole name of a sample without a group.
#[derive(Debug)]
pub enum FileName {
    Unknown(Vec<u8>),
    Sample { head: Vec<u8>, tail: Vec<u8> },
}

/// The bytes of `lab`.
pub open spec fn lab_text() -> Seq<u8> {
    seq![108u8, 97u8, 98u8]
}

/// The directory of a sample file in group `g`: the group, when
/// classifying and indexed the index plus one, then `lab` for labels or
/// `wav` for any other type.
pub open spec fn sample_dir(g: SampleGroup, classify: bool, idx: Option<usize>, ty: Seq<u8>) -> Seq<u8> {
    let prefix = if ty == lab_text() { lab_text() } else { seq![119u8, 97u8, 118u8] };
    match (classify, idx) {
        (true, Some(i)) => group_name(g) + seq![47u8] + dec((i + 1) as nat) + seq![47u8] + prefix,
        _ => group_name(g) + seq![47u8] + prefix,
    }
}

/// The end of a sample file name: `_`, the offset and the type.
pub open spec fn sample_tail(offset: u64, ty: Seq<u8>) -> Seq<u8> {
    seq![95u8] + hex8(offset as nat) + seq![46u8] + ty
}

/// The name of the file of type `ty` for a sample with phonemes `p` whose
/// sound is at `offset`: with no group, `unknown` and the tail; otherwise
/// the directory, the escaped phonemes in brackets, `_pit`, [the pitch],
/// and the tail.
pub open spec fn file_name_spec(p: Seq<Seq<u8>>, classify: bool, offset: u64, ty: Seq<u8>, idx: Option<usize>) -> (bool, Seq<u8>, Seq<u8>) {
    match group_of(p) {
        None => (false, seq![117u8, 110u8, 107u8, 110u8, 111u8, 119u8, 110u8] + sample_tail(offset, ty), Seq::empty()),
        Some(g) => (
            true,
            sample_dir(g, classify, idx, ty) + seq![47u8, 91u8] + joined_escaped(p) + seq![93u8, 95u8, 112u8, 105u8, 116u8],
            sample_tail(offset, ty),
        ),
    }
}

/// The view of a file name: whether it has a pitch, and its parts.
pub open spec fn file_name_view(f: FileName) -> (bool, Seq<u8>, Seq<u8>) {
    match f {
        FileName::Unknown(v) => (false, v@, Seq::empty()),
        FileName::Sample { head, tail } => (true, head@, tail@),
    }
}

fn bytes_of(s: &[u8]) -> (v: Vec<u8>)
    ensures
        v@ == s@,
{
    vstd::slice::slice_to_vec(s)
}

fn group_exec(phonemes: &Vec<Vec<u8>>) -> (g: Option<SampleGroup>)
    ensures
        g == group_of(phonemes.deep_view()),
{
    let n = phonemes.len();
    if n == 1 {
        proof {
            crate::ordmap::lemma_vec_u8_deep_view(&phonemes[0]);
        }
        if crate::ordmap::bytes_eq(phonemes[0].as_slice(), &[103u8, 114u8, 111u8, 119u8, 108u8]) {
            Some(SampleGroup::Growl)
        } else {
            Some(SampleGroup::Stationary)
        }
    } else if n == 2 {
        Some(SampleGroup::Articulation)
    } else if n == 3 {
        Some(SampleGroup::Triphone)
    } else {
        None
    }
}

fn group_bytes(g: SampleGroup) -> (v: Vec<u8>)
    ensures
        v@ == group_name(g),
{
    let v = match g {
        SampleGroup::Growl => vec![103u8, 114u8, 111u8, 119u8, 108u8],
        SampleGroup::Stationary => vec![115u8, 116u8, 97u8],
        SampleGroup::Articulation => vec![97u8, 114u8, 116u8],
        SampleGroup::Triphone => vec![116u8, 114u8, 105u8],
    };
    assert(v@ =~= group_name(g));
    v
}

fn joined_escaped_exec(phonemes: &Vec<Vec<u8>>) -> (v: Vec<u8>)
    ensures
        v@ == joined_escaped(phonemes.deep_view()),
{
    let ghost p = phonemes.deep_view();
    let n = phonemes.len();
    let mut v: Vec<u8> = Vec::new();
    let mut i: usize = 0;
    assert(p.subrange(0, 0) =~= Seq::<Seq<u8>>::empty());
    while i < n
        invariant
            n == p.len(),
            p == phonemes.deep_view(),
            i <= n,
            v@ == joined_escaped(p.subrange(0, i as int)),
        decreases n - i,
    {
        proof {
            crate::ordmap::lemma_vec_u8_deep_view(&phonemes[i as int]);
            assert(p.subrange(0, i + 1).drop_last() =~= p.subrange(0, i as int));
            assert(p.subrange(0, i + 1).last() == p[i as int]);
        }
        if i > 0 {
            v.push(32);
        }
        let e = escape_xsampa(phonemes[i].as_slice());
        extend_bytes(&mut v, e.as_slice());
        i = i + 1;
        assert(i == 1 ==> p.subrange(0, i as int)[0] == p[0]);
    }
    assert(p.subrange(0, n as int) =~= p);
    v
}

fn sample_dir_exec(g: SampleGroup, classify: bool, idx: Option<usize>, ty: &[u8]) -> (v: Vec<u8>)
    requires
        idx matches Some(i) ==> i < u64::MAX,
    ensures
        v@ == sample_dir(g, classify, idx, ty@),
{
    let is_lab = crate::ordmap::bytes_eq(ty, &[108u8, 97u8, 98u8]);
    let prefix = if is_lab { vec![108u8, 97u8, 98u8] } else { vec![119u8, 97u8, 118u8] };
    assert(prefix@ =~= (if ty@ == lab_text() { lab_text() } else { seq![119u8, 97u8, 118u8] })) by {
        assert(seq![108u8, 97u8, 98u8] =~= lab_text());
    }
    let mut v = group_bytes(g);
    v.push(47);
    match (classify, idx) {
        (true, Some(i)) => {
            let d = dec_bytes(i as u64 + 1);
            extend_bytes(&mut v, d.as_slice());
            v.push(47);
        },
        _ => {},
    }
    extend_bytes(&mut v, prefix.as_slice());
    assert(v@ =~= sample_dir(g, classify, idx, ty@));
    v
}

fn sample_tail_exec(offset: u64, ty: &[u8]) -> (v: Vec<u8>)
    ensures
        v@ == sample_tail(offset, ty@),
{
    let hex = hex8_bytes(offset);
    let mut v = vec![95u8];
    extend_bytes(&mut v, hex.as_slice());
    v.push(46);
    extend_bytes(&mut v, ty);
    assert(v@ =~= sample_tail(offset, ty@));
    v
}

/// The name of the file of type `ty` for a sample with phonemes
/// `phonemes` whose sound is at `offset` (see `file_name_spec`).
pub fn create_file_name(phonemes: &Vec<Vec<u8>>, classify: bool, offset: u64, ty: &[u8], idx: Option<usize>) -> (f: FileName)
    requires
        idx matches Some(i) ==> i < u64::MAX,
    ensures
        file_name_view(f) == file_name_spec(phonemes.deep_view(), classify, offset, ty@, idx),
{
    let tail = sample_tail_exec(offset, ty);
    match group_exec(phonemes) {
        None => {
            let mut v = vec![117u8, 110u8, 107u8, 110u8, 111u8, 119u8, 110u8];
            extend_bytes(&mut v, tail.as_slice());
            assert(v@ =~= seq![117u8, 110u8, 107u8, 110u8, 111u8, 119u8, 110u8] + sample_tail(offset, ty@));
            FileName::Unknown(v)
        },
        Some(g) => {
            let mut head = sample_dir_exec(g, classify, idx, ty);
            let ghost dir = head@;
            head.push(47);
            head.push(91);
            let j = joined_escaped_exec(phonemes);
            extend_bytes(&mut head, j.as_slice());
            head.push(93);
            head.push(95);
            head.push(112);
            head.push(105);
            head.push(116);
            assert(head@ =~= dir + seq![47u8, 91u8] + joined_escaped(phonemes.deep_view()) + seq![93u8, 95u8, 112u8, 105u8, 116u8]);
            FileName::Sample { head, tail }
        },
    }
}

/// `s` without its first `^`, if any: what `replacen('^', "", 1)` gives.
pub open spec fn drop_first_caret(s: Seq<u8>) -> Seq<u8>
    decreases s.len(),
{
    if s.len() == 0 {
        s
    } else if s[0] == 94u8 {
        s.drop_first()
    } else {
        seq![s[0]] + drop_first_caret(s.drop_first())
    }
}

pub fn drop_first_caret_exec(s: &[u8]) -> (v: Vec<u8>)
    ensures
        v@ == drop_first_caret(s@),
{
    let n = s.len();
    let mut v: Vec<u8> = Vec::new();
    let mut i: usize = 0;
    assert(s@.subrange(0, n as int) =~= s@);
    while i < n
        invariant
            n == s@.len(),
            i <= n,
            v@ + drop_first_caret(s@.subrange(i as int, n as int)) == drop_first_caret(s@),
        decreases n - i,
    {
        let ghost t = s@.subrange(i as int, n as int);
        assert(t.drop_first() =~= s@.subrange(i + 1, n as int));
        if s[i] == 94 {
            let rest = vstd::slice::slice_subrange(s, i + 1, n);
            extend_bytes(&mut v, rest);
            return v;
        }
        v.push(s[i]);
        i = i + 1;
        assert(v@ + drop_first_caret(s@.subrange(i as int, n as int)) =~= drop_first_caret(s@));
    }
    assert(drop_first_caret(s@.subrange(n as int, n as int)) =~= Seq::<u8>::empty());
    assert(v@ =~= v@ + Seq::<u8>::empty());
    v
}

/// The phonemes a label file lists for a sample: for a triphone the middle
/// one, without its first `^`, twice; otherwise the sample's phonemes.
pub open spec fn lab_phonemes(p: Seq<Seq<u8>>) -> Seq<Seq<u8>> {
    if p.len() == 3 {
        seq![p[0], drop_first_caret(p[1]), drop_first_caret(p[1]), p[2]]
    } else {
        p
    }
}

/// The phonemes a segmentation lists for a sample: for a triphone the
/// middle one without its first `^`; otherwise the sample's phonemes.
pub open spec fn seg_phonemes(p: Seq<Seq<u8>>) -> Seq<Seq<u8>> {
    if p.len() == 3 {
        seq![p[0], drop_first_caret(p[1]), p[2]]
    } else {
        p
    }
}

fn copy_names(p: &Vec<Vec<u8>>) -> (v: Vec<Vec<u8>>)
    ensures
        v.deep_view() == p.deep_view(),
{
    let mut v: Vec<Vec<u8>> = Vec::new();
    let mut i: usize = 0;
    while i < p.len()
        invariant
            i <= p@.len(),
            v.deep_view() == p.deep_view().subrange(0, i as int),
        decreases p@.len() - i,
    {
        proof {
            crate::ordmap::lemma_vec_u8_deep_view(&p[i as int]);
        }
        let c = bytes_of(p[i].as_slice());
        let ghost before = v.deep_view();
        v.push(c);
        proof {
            crate::ordmap::lemma_vec_u8_deep_view(&c);
        }
        assert(v.deep_view() =~= before.push(c@));
        i = i + 1;
        assert(v.deep_view() =~= p.deep_view().subrange(0, i as int));
    }
    assert(p.deep_view().subrange(0, p@.len() as int) =~= p.deep_view());
    v
}

/// The phonemes of a label file (see `lab_phonemes`).
pub fn lab_phoneme_list(p: &Vec<Vec<u8>>) -> (v: Vec<Vec<u8>>)
    ensures
        v.deep_view() == lab_phonemes(p.deep_view()),
{
    if p.len() == 3 {
        proof {
            crate::ordmap::lemma_vec_u8_deep_view(&p[0]);
            crate::ordmap::lemma_vec_u8_deep_view(&p[1]);
            crate::ordmap::lemma_vec_u8_deep_view(&p[2]);
        }
        let c1 = drop_first_caret_exec(p[1].as_slice());
        let c2 = drop_first_caret_exec(p[1].as_slice());
        let v = vec![bytes_of(p[0].as_slice()), c1, c2, bytes_of(p[2].as_slice())];
        proof {
            assert(v.deep_view() =~= lab_phonemes(p.deep_view())) by {
                crate::ordmap::lemma_vec_u8_deep_view(&v[0]);
                crate::ordmap::lemma_vec_u8_deep_view(&v[1]);
                crate::ordmap::lemma_vec_u8_deep_view(&v[2]);
                crate::ordmap::lemma_vec_u8_deep_view(&v[3]);
            }
        }
        v
    } else {
        copy_names(p)
    }
}

/// The phonemes of a segmentation (see `seg_phonemes`).
pub fn seg_phoneme_list(p: &Vec<Vec<u8>>) -> (v: Vec<Vec<u8>>)
    ensures
        v.deep_view() == seg_phonemes(p.deep_view()),
{
    if p.len() == 3 {
        proof {
            crate::ordmap::lemma_vec_u8_deep_view(&p[0]);
            crate::ordmap::lemma_vec_u8_deep_view(&p[1]);
            crate::ordmap::lemma_vec_u8_deep_view(&p[2]);
        }
        let c1 = drop_first_caret_exec(p[1].as_slice());
        let v = vec![bytes_of(p[0].as_slice()), c1, bytes_of(p[2].as_slice())];
        proof {
            assert(v.deep_view() =~= seg_phonemes(p.deep_view())) by {
                crate::ordmap::lemma_vec_u8_deep_view(&v[0]);
                crate::ordmap::lemma_vec_u8_deep_view(&v[1]);
                crate::ordmap::lemma_vec_u8_deep_view(&v[2]);
            }
        }
        v
    } else {
        copy_names(p)
    }
}

/// How the summary writes an EpR reference: where its offset field sits
/// and the offset, each as `{:08x}`, joined by `=`.
pub open spec fn epr_text(e: crate::model::EprRef) -> Seq<u8> {
    hex8(e.pos as nat) + seq![61u8] + hex8(e.off as nat)
}

/// How the summary writes a sound reference: where its offset field sits
/// (`{:08x}`), `=`, the offset (`{:016x}`), `_` and the sound id (`{:08x}`).
pub open spec fn snd_text(s: crate::model::SndRef) -> Seq<u8> {
    hex8(s.pos as nat) + seq![61u8] + hex_pad(s.off as nat, 16) + seq![95u8] + hex8(s.id as nat)
}

/// The text of an EpR reference in the summary.
pub fn epr_ref_text(e: crate::model::EprRef) -> (v: Vec<u8>)
    ensures
        v@ == epr_text(e),
{
    let mut v = hex8_bytes(e.pos);
    v.push(61);
    let o = hex8_bytes(e.off);
    extend_bytes(&mut v, o.as_slice());
    v
}

/// The text of a sound reference in the summary.
pub fn snd_ref_text(s: crate::model::SndRef) -> (v: Vec<u8>)
    ensures
        v@ == snd_text(s),
{
    let mut v = hex8_bytes(s.pos);
    v.push(61);
    let o = hex_pad_bytes(s.off, 16);
    extend_bytes(&mut v, o.as_slice());
    v.push(95);
    let i = hex8_bytes(s.id as u64);
    extend_bytes(&mut v, i.as_slice());
    v
}

} // verus!
