//! The summary of a DDI that the tools work from: for each stationary
//! phoneme and each articulation its samples' sound and EpR references and
//! pitch, and the growl samples.

use vstd::prelude::*;
use crate::format::insert_all;
use crate::wav::{units_samples, art_samples_list};
use crate::model::{EprRef, SndRef, StapItemV, StaEntry, StaEntryV, ArtpItemV, ArtuEntryV, ArtBlock, ArtBlockV, VqmItem, VqmItemV, art_block_view};
use crate::ordmap::{OrdMap, assoc_insert, lemma_vec_u8_deep_view, sorted_keys, lookup, lemma_insert_sorted};

verus! {

/// What the summary keeps of a sample: its sound reference, for
/// articulations the reference to its start, its EpR references and its
/// first pitch (as `f32` bits).
#[derive(Clone)]
pub struct SampleRef {
    pub snd: SndRef,
    pub snd_start: Option<SndRef>,
    pub epr: Vec<EprRef>,
    pub pitch: u32,
}

pub struct SampleRefV {
    pub snd: SndRef,
    pub snd_start: Option<SndRef>,
    pub epr: Seq<EprRef>,
    pub pitch: u32,
}

impl DeepView for SampleRef {
    type V = SampleRefV;

    open spec fn deep_view(&self) -> SampleRefV {
        SampleRefV { snd: self.snd, snd_start: self.snd_start, epr: self.epr@, pitch: self.pitch }
    }
}

/// The summary: stationary samples by phoneme, articulation samples by
/// their phonemes joined with spaces, and the growl samples if the voice
/// has a VQM stream.
pub struct DdiDict {
    pub sta: OrdMap<Vec<u8>, Vec<SampleRef>>,
    pub art: OrdMap<Vec<u8>, Vec<SampleRef>>,
    pub vqm: Option<Vec<SampleRef>>,
}

pub struct DdiDictV {
    pub sta: Seq<(Seq<u8>, Seq<SampleRefV>)>,
    pub art: Seq<(Seq<u8>, Seq<SampleRefV>)>,
    pub vqm: Option<Seq<SampleRefV>>,
}

impl DeepView for DdiDict {
    type V = DdiDictV;

    open spec fn deep_view(&self) -> DdiDictV {
        DdiDictV { sta: self.sta.deep_view(), art: self.art.deep_view(), vqm: self.vqm.deep_view() }
    }
}

pub open spec fn stap_sample(v: StapItemV) -> SampleRefV {
    SampleRefV { snd: v.snd, snd_start: None, epr: v.epr, pitch: v.params.pitch1 }
}

pub open spec fn artp_sample(v: ArtpItemV) -> SampleRefV {
    SampleRefV { snd: v.snd, snd_start: Some(v.snd_start), epr: v.epr, pitch: v.params.pitch1 }
}

pub open spec fn vqm_sample(v: VqmItemV) -> SampleRefV {
    SampleRefV { snd: v.snd, snd_start: None, epr: v.epr, pitch: v.params.pitch1 }
}

/// The summaries of a stationary's samples, in key order.
pub open spec fn sta_samples(stap: Seq<(Seq<u8>, StapItemV)>) -> Seq<SampleRefV> {
    Seq::new(stap.len(), |i: int| stap_sample(stap[i].1))
}

/// The summaries of an articulation unit's samples, in key order.
pub open spec fn art_samples(artp: Seq<(Seq<u8>, ArtpItemV)>) -> Seq<SampleRefV> {
    Seq::new(artp.len(), |i: int| artp_sample(artp[i].1))
}

/// The stationary part of the summary: each stationary in index order sets
/// the entry of its phoneme.
pub open spec fn sta_dict(s: Seq<(u32, StaEntryV)>) -> Seq<(Seq<u8>, Seq<SampleRefV>)>
    decreases s.len(),
{
    if s.len() == 0 {
        Seq::empty()
    } else {
        assoc_insert::<Vec<u8>, Seq<SampleRefV>>(
            sta_dict(s.drop_last()),
            s.last().1.phoneme,
            sta_samples(s.last().1.stap),
        )
    }
}

/// `a`, a space and `b`.
pub open spec fn join2(a: Seq<u8>, b: Seq<u8>) -> Seq<u8> {
    a + seq![32u8] + b
}

/// The entries an articulation unit list contributes, each under `prefix`,
/// a space and the unit's phoneme.
pub open spec fn unit_pairs(prefix: Seq<u8>, artu: Seq<(Seq<u8>, ArtuEntryV)>) -> Seq<(Seq<u8>, Seq<SampleRefV>)> {
    Seq::new(artu.len(), |i: int| (join2(prefix, artu[i].1.phoneme), art_samples(artu[i].1.artp)))
}

/// The entries an articulation block contributes: its units under its
/// phoneme, then the units of the nested block it holds under both
/// phonemes.
pub open spec fn block_pairs(b: ArtBlockV) -> Seq<(Seq<u8>, Seq<SampleRefV>)> {
    unit_pairs(b.phoneme, b.artu) + match b.sub {
        Some((_, sb)) => unit_pairs(join2(b.phoneme, sb.phoneme), sb.artu),
        None => Seq::empty(),
    }
}

/// The articulation part of the summary: the entries of each block, in
/// index order, each set in turn.
pub open spec fn art_dict(s: Seq<(u32, ArtBlockV)>) -> Seq<(Seq<u8>, Seq<SampleRefV>)>
    decreases s.len(),
{
    if s.len() == 0 {
        Seq::empty()
    } else {
        insert_all::<Vec<u8>, Seq<SampleRefV>>(art_dict(s.drop_last()), block_pairs(s.last().1))
    }
}

/// The growl part of the summary: the samples in index order.
pub open spec fn vqm_list(s: Seq<(u32, VqmItemV)>) -> Seq<SampleRefV> {
    Seq::new(s.len(), |i: int| vqm_sample(s[i].1))
}

fn copy_epr(v: &Vec<EprRef>) -> (r: Vec<EprRef>)
    ensures
        r@ == v@,
{
    let mut r: Vec<EprRef> = Vec::new();
    let mut i: usize = 0;
    while i < v.len()
        invariant
            i <= v@.len(),
            r@ == v@.subrange(0, i as int),
        decreases v@.len() - i,
    {
        r.push(v[i]);
        i = i + 1;
        assert(r@ =~= v@.subrange(0, i as int));
    }
    assert(v@.subrange(0, v@.len() as int) =~= v@);
    r
}

fn copy_bytes(v: &Vec<u8>) -> (r: Vec<u8>)
    ensures
        r@ == v@,
{
    vstd::slice::slice_to_vec(v.as_slice())
}

/// `a`, a space and `b`.
fn join2_exec(a: &Vec<u8>, b: &Vec<u8>) -> (r: Vec<u8>)
    ensures
        r@ == join2(a@, b@),
{
    let mut r = copy_bytes(a);
    r.push(32);
    crate::bytes::extend_bytes(&mut r, b.as_slice());
    assert(r@ =~= join2(a@, b@));
    r
}

/// The stationary part of the summary.
pub fn build_sta_dict(sta: &OrdMap<u32, StaEntry>) -> (r: OrdMap<Vec<u8>, Vec<SampleRef>>)
    ensures
        r.deep_view() == sta_dict(sta.deep_view()),
{
    let mut dict: OrdMap<Vec<u8>, Vec<SampleRef>> = OrdMap::new();
    let n = sta.entries.len();
    let mut i: usize = 0;
    while i < n
        invariant
            n == sta.deep_view().len(),
            i <= n,
            dict.deep_view() == sta_dict(sta.deep_view().subrange(0, i as int)),
        decreases n - i,
    {
        let entry = &sta.entries[i].1;
        let m = entry.stap.entries.len();
        let mut items: Vec<SampleRef> = Vec::new();
        let mut j: usize = 0;
        while j < m
            invariant
                m == entry.stap.deep_view().len(),
                j <= m,
                items.deep_view() == sta_samples(entry.stap.deep_view()).subrange(0, j as int),
            decreases m - j,
        {
            let it = &entry.stap.entries[j].1;
            let sr = SampleRef { snd: it.snd, snd_start: None, epr: copy_epr(&it.epr), pitch: it.params.pitch1 };
            assert(entry.stap.deep_view()[j as int].1 == it.deep_view());
            assert(sr.deep_view() == stap_sample(it.deep_view()));
            let ghost before = items.deep_view();
            items.push(sr);
            assert(items.deep_view() =~= before.push(sr.deep_view()));
            j = j + 1;
            assert(items.deep_view() =~= sta_samples(entry.stap.deep_view()).subrange(0, j as int));
        }
        let key = copy_bytes(&entry.phoneme);
        proof {
            lemma_vec_u8_deep_view(&key);
            assert(sta_samples(entry.stap.deep_view()).subrange(0, m as int) =~= sta_samples(entry.stap.deep_view()));
            assert(sta.deep_view().subrange(0, i + 1).drop_last() =~= sta.deep_view().subrange(0, i as int));
        }
        dict.insert(key, items);
        i = i + 1;
    }
    assert(sta.deep_view().subrange(0, n as int) =~= sta.deep_view());
    dict
}

/// Law: the stationary part of the summary has an entry for the phoneme of
/// each stationary and none other; the entry of a phoneme holds the samples
/// of the last stationary, in index order, with that phoneme. Its keys
/// strictly increase.
pub proof fn lemma_sta_dict_entries(s: Seq<(u32, StaEntryV)>)
    ensures
        sorted_keys::<Vec<u8>, Seq<SampleRefV>>(sta_dict(s)),
        forall|k: Seq<u8>|
            #[trigger] lookup::<Vec<u8>, Seq<SampleRefV>>(sta_dict(s), k) is None <==> forall|i: int|
                0 <= i < s.len() ==> #[trigger] s[i].1.phoneme != k,
        forall|i: int|
            0 <= i < s.len() && (forall|j: int| i < j < s.len() ==> #[trigger] s[j].1.phoneme != s[i].1.phoneme)
                ==> #[trigger] lookup::<Vec<u8>, Seq<SampleRefV>>(sta_dict(s), s[i].1.phoneme) == Some(
                sta_samples(s[i].1.stap),
            ),
    decreases s.len(),
{
    if s.len() > 0 {
        let init = s.drop_last();
        let x = s.last().1;
        let last = s.len() - 1;
        let mi = sta_dict(init);
        let r = sta_dict(s);
        lemma_sta_dict_entries(init);
        lemma_insert_sorted::<Vec<u8>, Seq<SampleRefV>>(mi, x.phoneme, sta_samples(x.stap), x.phoneme);
        assert(s[last].1 == x);
        assert forall|k: Seq<u8>|
            #[trigger] lookup::<Vec<u8>, Seq<SampleRefV>>(r, k) is None <==> forall|i: int|
                0 <= i < s.len() ==> #[trigger] s[i].1.phoneme != k by {
            if k != x.phoneme {
                assert(lookup::<Vec<u8>, Seq<SampleRefV>>(r, k) == lookup::<Vec<u8>, Seq<SampleRefV>>(mi, k));
                if lookup::<Vec<u8>, Seq<SampleRefV>>(r, k) is None {
                    assert forall|i: int| 0 <= i < s.len() implies #[trigger] s[i].1.phoneme != k by {
                        if i < last {
                            assert(s[i] == init[i]);
                        }
                    }
                } else {
                    let i = choose|i: int| 0 <= i < init.len() && #[trigger] init[i].1.phoneme == k;
                    assert(s[i] == init[i]);
                }
            } else {
                assert(s[last].1.phoneme == k);
            }
        }
        assert forall|i: int|
            0 <= i < s.len() && (forall|j: int| i < j < s.len() ==> #[trigger] s[j].1.phoneme != s[i].1.phoneme)
                implies #[trigger] lookup::<Vec<u8>, Seq<SampleRefV>>(r, s[i].1.phoneme) == Some(
                sta_samples(s[i].1.stap),
            ) by {
            if i < last {
                assert(s[last].1.phoneme != s[i].1.phoneme);
                assert(s[i] == init[i]);
                assert forall|j: int| i < j < init.len() implies #[trigger] init[j].1.phoneme != init[i].1.phoneme by {
                    assert(init[j] == s[j]);
                }
            }
        }
    }
}

/// Setting the entries of `a` and then those of `b` sets those of `a + b`.
pub proof fn lemma_insert_all_concat<W>(m: Seq<(Seq<u8>, W)>, a: Seq<(Seq<u8>, W)>, b: Seq<(Seq<u8>, W)>)
    ensures
        insert_all::<Vec<u8>, W>(insert_all::<Vec<u8>, W>(m, a), b) == insert_all::<Vec<u8>, W>(m, a + b),
    decreases b.len(),
{
    if b.len() == 0 {
        assert(a + b =~= a);
    } else {
        lemma_insert_all_concat(m, a, b.drop_last());
        assert((a + b).drop_last() =~= a + b.drop_last());
        assert((a + b).last() == b.last());
    }
}

/// The summaries of a unit's samples.
fn art_samples_exec(artp: &OrdMap<Vec<u8>, crate::model::ArtpItem>) -> (r: Vec<SampleRef>)
    ensures
        r.deep_view() == art_samples(artp.deep_view()),
{
    let m = artp.entries.len();
    let mut items: Vec<SampleRef> = Vec::new();
    let mut j: usize = 0;
    while j < m
        invariant
            m == artp.deep_view().len(),
            j <= m,
            items.deep_view() == art_samples(artp.deep_view()).subrange(0, j as int),
        decreases m - j,
    {
        let it = &artp.entries[j].1;
        let sr = SampleRef { snd: it.snd, snd_start: Some(it.snd_start), epr: copy_epr(&it.epr), pitch: it.params.pitch1 };
        assert(artp.deep_view()[j as int].1 == it.deep_view());
        assert(sr.deep_view() == artp_sample(it.deep_view()));
        let ghost before = items.deep_view();
        items.push(sr);
        assert(items.deep_view() =~= before.push(sr.deep_view()));
        j = j + 1;
        assert(items.deep_view() =~= art_samples(artp.deep_view()).subrange(0, j as int));
    }
    assert(art_samples(artp.deep_view()).subrange(0, m as int) =~= art_samples(artp.deep_view()));
    items
}

/// Sets the entries that a unit list contributes under `prefix`.
fn add_unit_pairs(dict: &mut OrdMap<Vec<u8>, Vec<SampleRef>>, prefix: &Vec<u8>, artu: &OrdMap<Vec<u8>, crate::model::ArtuEntry>)
    ensures
        final(dict).deep_view() == insert_all::<Vec<u8>, Seq<SampleRefV>>(
            old(dict).deep_view(),
            unit_pairs(prefix@, artu.deep_view()),
        ),
{
    let ghost up = unit_pairs(prefix@, artu.deep_view());
    let n = artu.entries.len();
    let mut j: usize = 0;
    assert(up.subrange(0, 0) =~= Seq::<(Seq<u8>, Seq<SampleRefV>)>::empty());
    while j < n
        invariant
            n == artu.deep_view().len(),
            up == unit_pairs(prefix@, artu.deep_view()),
            j <= n,
            dict.deep_view() == insert_all::<Vec<u8>, Seq<SampleRefV>>(old(dict).deep_view(), up.subrange(0, j as int)),
        decreases n - j,
    {
        let au = &artu.entries[j].1;
        let key = join2_exec(prefix, &au.phoneme);
        let items = art_samples_exec(&au.artp);
        proof {
            lemma_vec_u8_deep_view(&key);
            assert(artu.deep_view()[j as int].1 == au.deep_view());
            assert(up.subrange(0, j + 1).drop_last() =~= up.subrange(0, j as int));
            assert(up.subrange(0, j + 1).last() == up[j as int]);
        }
        dict.insert(key, items);
        j = j + 1;
    }
    assert(up.subrange(0, n as int) =~= up);
}

/// Inserting the pairs `ps` in turn into a map whose keys strictly increase:
/// every key of `ps` is then present, every key present before stays
/// present, and each value held is one held before or the value of a pair
/// of `ps` with that key.
pub proof fn lemma_insert_all_lookup<W>(m: Seq<(Seq<u8>, W)>, ps: Seq<(Seq<u8>, W)>)
    requires
        sorted_keys::<Vec<u8>, W>(m),
    ensures
        sorted_keys::<Vec<u8>, W>(insert_all::<Vec<u8>, W>(m, ps)),
        forall|t: int| 0 <= t < ps.len() ==> #[trigger] lookup::<Vec<u8>, W>(insert_all::<Vec<u8>, W>(m, ps), ps[t].0) is Some,
        forall|k: Seq<u8>| #[trigger] lookup::<Vec<u8>, W>(m, k) is Some ==> lookup::<Vec<u8>, W>(insert_all::<Vec<u8>, W>(m, ps), k) is Some,
        forall|k: Seq<u8>| #[trigger] lookup::<Vec<u8>, W>(insert_all::<Vec<u8>, W>(m, ps), k) is Some ==> lookup::<Vec<u8>, W>(m, k)
            == lookup::<Vec<u8>, W>(insert_all::<Vec<u8>, W>(m, ps), k) || exists|t: int| 0 <= t < ps.len() && #[trigger] ps[t] == (k, lookup::<Vec<u8>, W>(insert_all::<Vec<u8>, W>(m, ps), k)->Some_0),
    decreases ps.len(),
{
    if ps.len() > 0 {
        let init = ps.drop_last();
        let x = ps.last();
        let mi = insert_all::<Vec<u8>, W>(m, init);
        let r = insert_all::<Vec<u8>, W>(m, ps);
        lemma_insert_all_lookup(m, init);
        lemma_insert_sorted::<Vec<u8>, W>(mi, x.0, x.1, x.0);
        assert(r == assoc_insert::<Vec<u8>, W>(mi, x.0, x.1));
        assert forall|t: int| 0 <= t < ps.len() implies #[trigger] lookup::<Vec<u8>, W>(r, ps[t].0) is Some by {
            if t < ps.len() - 1 && ps[t].0 != x.0 {
                assert(ps[t] == init[t]);
                assert(lookup::<Vec<u8>, W>(mi, init[t].0) is Some);
            }
        }
        assert forall|k: Seq<u8>| #[trigger] lookup::<Vec<u8>, W>(m, k) is Some implies lookup::<Vec<u8>, W>(r, k) is Some by {
            if k != x.0 {
                assert(lookup::<Vec<u8>, W>(mi, k) is Some);
            }
        }
        assert forall|k: Seq<u8>| #[trigger] lookup::<Vec<u8>, W>(r, k) is Some implies lookup::<Vec<u8>, W>(m, k)
            == lookup::<Vec<u8>, W>(r, k) || exists|t: int| 0 <= t < ps.len() && #[trigger] ps[t] == (k, lookup::<Vec<u8>, W>(r, k)->Some_0) by {
            if k == x.0 {
                assert(ps[ps.len() - 1] == (k, lookup::<Vec<u8>, W>(r, k)->Some_0));
            } else {
                assert(lookup::<Vec<u8>, W>(r, k) == lookup::<Vec<u8>, W>(mi, k));
                if lookup::<Vec<u8>, W>(m, k) != lookup::<Vec<u8>, W>(mi, k) {
                    let t = choose|t: int| 0 <= t < init.len() && #[trigger] init[t] == (k, lookup::<Vec<u8>, W>(mi, k)->Some_0);
                    assert(ps[t] == init[t]);
                }
            }
        }
    }
}

/// The key of the diphone entry of unit `j` of the block `b`: the block's
/// phoneme, a space and the unit's phoneme.
pub open spec fn diphone_key(b: ArtBlockV, j: int) -> Seq<u8> {
    b.phoneme + seq![32u8] + b.artu[j].1.phoneme
}

/// The key of the triphone entry of unit `j` of the block `sb` nested in
/// `b`: the outer phoneme, the nested phoneme and the unit's phoneme, with
/// a space between each.
pub open spec fn triphone_key(b: ArtBlockV, sb: ArtBlockV, j: int) -> Seq<u8> {
    b.phoneme + seq![32u8] + sb.phoneme + seq![32u8] + sb.artu[j].1.phoneme
}

/// The unit `j` of the block `b` gives the entry `k` with the samples `v`
/// under the diphone key, or the unit `j` of the block nested in `b` gives
/// it under the triphone key.
pub open spec fn unit_gives(b: ArtBlockV, j: int, k: Seq<u8>, v: Seq<SampleRefV>) -> bool {
    (0 <= j < b.artu.len() && k == diphone_key(b, j) && v == art_samples(b.artu[j].1.artp)) || (
    b.sub matches Some((_, sb)) && 0 <= j < sb.artu.len() && k == triphone_key(b, *sb, j) && v
        == art_samples(sb.artu[j].1.artp))
}

/// Some unit of the blocks `s` gives the entry `k` with the samples `v`.
pub open spec fn art_entry_of(s: Seq<(u32, ArtBlockV)>, k: Seq<u8>, v: Seq<SampleRefV>) -> bool {
    exists|i: int, j: int| 0 <= i < s.len() && #[trigger] unit_gives(s[i].1, j, k, v)
}

/// Law: the articulation part of the summary has an entry for every unit of
/// every block, keyed by the block's phoneme, a space and the unit's
/// phoneme, and for every unit of a nested block, keyed by the outer
/// phoneme, the nested phoneme and the unit's phoneme with a space between
/// each; every entry it has is of one of these kinds and holds the samples
/// of a unit that gives its key. Its keys strictly increase.
#[verifier::rlimit(40)]
pub proof fn lemma_art_dict_entries(s: Seq<(u32, ArtBlockV)>)
    ensures
        sorted_keys::<Vec<u8>, Seq<SampleRefV>>(art_dict(s)),
        forall|i: int, j: int|
            0 <= i < s.len() && 0 <= j < s[i].1.artu.len() ==> #[trigger] lookup::<Vec<u8>, Seq<SampleRefV>>(
                art_dict(s),
                diphone_key(s[i].1, j),
            ) is Some,
        forall|i: int, j: int|
            0 <= i < s.len() && s[i].1.sub is Some && 0 <= j < s[i].1.sub->Some_0.1.artu.len()
                ==> #[trigger] lookup::<Vec<u8>, Seq<SampleRefV>>(
                art_dict(s),
                triphone_key(s[i].1, *s[i].1.sub->Some_0.1, j),
            ) is Some,
        forall|k: Seq<u8>|
            #[trigger] lookup::<Vec<u8>, Seq<SampleRefV>>(art_dict(s), k) is Some ==> art_entry_of(
                s,
                k,
                lookup::<Vec<u8>, Seq<SampleRefV>>(art_dict(s), k)->Some_0,
            ),
    decreases s.len(),
{
    if s.len() > 0 {
        let init = s.drop_last();
        let b = s.last().1;
        let ps = block_pairs(b);
        let mi = art_dict(init);
        let r = art_dict(s);
        lemma_art_dict_entries(init);
        lemma_insert_all_lookup(mi, ps);
        assert(r == insert_all::<Vec<u8>, Seq<SampleRefV>>(mi, ps));
        let nd = b.artu.len() as int;
        let last = s.len() - 1;
        assert(s[last].1 == b);
        assert forall|i: int, j: int|
            0 <= i < s.len() && 0 <= j < s[i].1.artu.len() implies #[trigger] lookup::<Vec<u8>, Seq<SampleRefV>>(
            r,
            diphone_key(s[i].1, j),
        ) is Some by {
            if i < last {
                assert(s[i] == init[i]);
                assert(lookup::<Vec<u8>, Seq<SampleRefV>>(mi, diphone_key(init[i].1, j)) is Some);
            } else {
                assert(ps[j].0 == diphone_key(b, j));
                assert(lookup::<Vec<u8>, Seq<SampleRefV>>(r, ps[j].0) is Some);
            }
        }
        assert forall|i: int, j: int|
            0 <= i < s.len() && s[i].1.sub is Some && 0 <= j < s[i].1.sub->Some_0.1.artu.len()
                implies #[trigger] lookup::<Vec<u8>, Seq<SampleRefV>>(
            r,
            triphone_key(s[i].1, *s[i].1.sub->Some_0.1, j),
        ) is Some by {
            if i < last {
                assert(s[i] == init[i]);
                assert(lookup::<Vec<u8>, Seq<SampleRefV>>(mi, triphone_key(init[i].1, *init[i].1.sub->Some_0.1, j)) is Some);
            } else {
                let sb = *b.sub->Some_0.1;
                assert(ps[nd + j].0 == triphone_key(b, sb, j));
                assert(lookup::<Vec<u8>, Seq<SampleRefV>>(r, ps[nd + j].0) is Some);
            }
        }
        assert forall|k: Seq<u8>|
            #[trigger] lookup::<Vec<u8>, Seq<SampleRefV>>(r, k) is Some implies art_entry_of(
            s,
            k,
            lookup::<Vec<u8>, Seq<SampleRefV>>(r, k)->Some_0,
        ) by {
            let v = lookup::<Vec<u8>, Seq<SampleRefV>>(r, k)->Some_0;
            if lookup::<Vec<u8>, Seq<SampleRefV>>(mi, k) == lookup::<Vec<u8>, Seq<SampleRefV>>(r, k) {
                assert(art_entry_of(init, k, v));
                let (i, j) = choose|i: int, j: int| 0 <= i < init.len() && #[trigger] unit_gives(init[i].1, j, k, v);
                assert(s[i] == init[i]);
                assert(unit_gives(s[i].1, j, k, v));
            } else {
                let t = choose|t: int| 0 <= t < ps.len() && #[trigger] ps[t] == (k, v);
                if t < nd {
                    assert(k == diphone_key(s[last].1, t));
                    assert(unit_gives(s[last].1, t, k, v));
                } else {
                    let sb = *b.sub->Some_0.1;
                    assert(ps[t] == unit_pairs(join2(b.phoneme, sb.phoneme), sb.artu)[t - nd]);
                    assert(k == triphone_key(s[last].1, sb, t - nd));
                    assert(unit_gives(s[last].1, t - nd, k, v));
                }
            }
        }
    }
}

/// Each sample of a unit list is listed under the phonemes `prefix` and
/// the phoneme of one of the units.
pub proof fn lemma_units_samples_from(prefix: Seq<Seq<u8>>, artu: Seq<(Seq<u8>, ArtuEntryV)>, numbered: bool)
    ensures
        forall|k: int|
            0 <= k < units_samples(prefix, artu, numbered).len() ==> exists|j: int|
                0 <= j < artu.len() && #[trigger] units_samples(prefix, artu, numbered)[k].phonemes == prefix.push(
                    artu[j].1.phoneme,
                ),
    decreases artu.len(),
{
    if artu.len() > 0 {
        let init = artu.drop_last();
        let l0 = units_samples(prefix, init, numbered);
        let l = units_samples(prefix, artu, numbered);
        lemma_units_samples_from(prefix, init, numbered);
        assert forall|k: int| 0 <= k < l.len() implies exists|j: int|
            0 <= j < artu.len() && #[trigger] l[k].phonemes == prefix.push(artu[j].1.phoneme) by {
            if k < l0.len() {
                let j = choose|j: int| 0 <= j < init.len() && #[trigger] l0[k].phonemes == prefix.push(init[j].1.phoneme);
                assert(l[k] == l0[k]);
                assert(artu[j] == init[j]);
            } else {
                assert(l[k].phonemes == prefix.push(artu[artu.len() - 1].1.phoneme));
            }
        }
    }
}

/// The key under which the summary files the samples listed with the
/// phonemes `ph`: the phonemes joined with spaces.
pub open spec fn path_key(ph: Seq<Seq<u8>>) -> Seq<u8> {
    if ph.len() == 2 {
        ph[0] + seq![32u8] + ph[1]
    } else {
        ph[0] + seq![32u8] + ph[1] + seq![32u8] + ph[2]
    }
}

/// Law: every articulation sample that the sample list gives is listed
/// under two phonemes (a block's and a unit's) or three (a block's, its
/// nested block's and a unit's), and the articulation part of the summary
/// has an entry under those phonemes joined with spaces: the sample list
/// and the summary name each articulation by the same path.
pub proof fn lemma_art_samples_in_dict(s: Seq<(u32, ArtBlockV)>)
    ensures
        forall|k: int|
            0 <= k < art_samples_list(s).len() ==> {
                let ph = #[trigger] art_samples_list(s)[k].phonemes;
                &&& ph.len() == 2 || ph.len() == 3
                &&& lookup::<Vec<u8>, Seq<SampleRefV>>(art_dict(s), path_key(ph)) is Some
            },
    decreases s.len(),
{
    lemma_art_dict_entries(s);
    if s.len() > 0 {
        let init = s.drop_last();
        let b = s.last().1;
        let last = s.len() - 1;
        lemma_art_samples_in_dict(init);
        lemma_art_dict_entries(init);
        let l0 = art_samples_list(init);
        let l = art_samples_list(s);
        let ud = units_samples(seq![b.phoneme], b.artu, true);
        lemma_units_samples_from(seq![b.phoneme], b.artu, true);
        assert(s[last].1 == b);
        lemma_insert_all_lookup(art_dict(init), block_pairs(b));
        assert forall|k: int| 0 <= k < l.len() implies {
            let ph = #[trigger] l[k].phonemes;
            &&& ph.len() == 2 || ph.len() == 3
            &&& lookup::<Vec<u8>, Seq<SampleRefV>>(art_dict(s), path_key(ph)) is Some
        } by {
            if k < l0.len() {
                assert(l[k] == l0[k]);
                let ph = l0[k].phonemes;
                assert(lookup::<Vec<u8>, Seq<SampleRefV>>(art_dict(init), path_key(ph)) is Some);
            } else if k < l0.len() + ud.len() {
                let k2 = k - l0.len();
                assert(l[k] == ud[k2]);
                let j = choose|j: int| 0 <= j < b.artu.len() && #[trigger] ud[k2].phonemes == seq![b.phoneme].push(b.artu[j].1.phoneme);
                let ph = ud[k2].phonemes;
                assert(ph =~= seq![b.phoneme, b.artu[j].1.phoneme]);
                assert(path_key(ph) == diphone_key(s[last].1, j));
            } else {
                let sb = *b.sub->Some_0.1;
                let us = units_samples(seq![b.phoneme, sb.phoneme], sb.artu, false);
                let k2 = k - l0.len() - ud.len();
                assert(l[k] == us[k2]);
                lemma_units_samples_from(seq![b.phoneme, sb.phoneme], sb.artu, false);
                let j = choose|j: int| 0 <= j < sb.artu.len() && #[trigger] us[k2].phonemes == seq![b.phoneme, sb.phoneme].push(sb.artu[j].1.phoneme);
                let ph = us[k2].phonemes;
                assert(ph =~= seq![b.phoneme, sb.phoneme, sb.artu[j].1.phoneme]);
                assert(path_key(ph) == triphone_key(s[last].1, sb, j));
            }
        }
    }
}

/// The articulation part of the summary.
pub fn build_art_dict(art: &OrdMap<u32, ArtBlock>) -> (r: OrdMap<Vec<u8>, Vec<SampleRef>>)
    ensures
        r.deep_view() == art_dict(art.deep_view()),
{
    let mut dict: OrdMap<Vec<u8>, Vec<SampleRef>> = OrdMap::new();
    let n = art.entries.len();
    let mut i: usize = 0;
    while i < n
        invariant
            n == art.deep_view().len(),
            i <= n,
            dict.deep_view() == art_dict(art.deep_view().subrange(0, i as int)),
        decreases n - i,
    {
        let block = &art.entries[i].1;
        let ghost bv = block.deep_view();
        let ghost prev = dict.deep_view();
        assert(art.deep_view()[i as int].1 == bv);
        add_unit_pairs(&mut dict, &block.phoneme, &block.artu);
        let ghost mid = dict.deep_view();
        match &block.sub {
            Some(s) => {
                let sb: &ArtBlock = &s.1;
                let pre = join2_exec(&block.phoneme, &sb.phoneme);
                add_unit_pairs(&mut dict, &pre, &sb.artu);
                proof {
                    lemma_insert_all_concat(prev, unit_pairs(bv.phoneme, bv.artu), unit_pairs(join2(bv.phoneme, art_block_view(sb).phoneme), art_block_view(sb).artu));
                }
            },
            None => {
                assert(unit_pairs(bv.phoneme, bv.artu) + Seq::<(Seq<u8>, Seq<SampleRefV>)>::empty() =~= unit_pairs(bv.phoneme, bv.artu));
            },
        }
        proof {
            assert(art.deep_view().subrange(0, i + 1).drop_last() =~= art.deep_view().subrange(0, i as int));
        }
        i = i + 1;
    }
    assert(art.deep_view().subrange(0, n as int) =~= art.deep_view());
    dict
}

/// The growl part of the summary.
pub fn build_vqm_list(vqm: &OrdMap<u32, VqmItem>) -> (r: Vec<SampleRef>)
    ensures
        r.deep_view() == vqm_list(vqm.deep_view()),
{
    let m = vqm.entries.len();
    let mut items: Vec<SampleRef> = Vec::new();
    let mut j: usize = 0;
    while j < m
        invariant
            m == vqm.deep_view().len(),
            j <= m,
            items.deep_view() == vqm_list(vqm.deep_view()).subrange(0, j as int),
        decreases m - j,
    {
        let it = &vqm.entries[j].1;
        let sr = SampleRef { snd: it.snd, snd_start: None, epr: copy_epr(&it.epr), pitch: it.params.pitch1 };
        assert(vqm.deep_view()[j as int].1 == it.deep_view());
        let ghost before = items.deep_view();
        items.push(sr);
        assert(items.deep_view() =~= before.push(sr.deep_view()));
        j = j + 1;
        assert(items.deep_view() =~= vqm_list(vqm.deep_view()).subrange(0, j as int));
    }
    assert(vqm_list(vqm.deep_view()).subrange(0, m as int) =~= vqm_list(vqm.deep_view()));
    items
}

} // verus!
