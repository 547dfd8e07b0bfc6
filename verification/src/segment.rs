//! The text parts of the segmentation files written beside extracted
//! samples: the transcription, and which phonemes of an articulation are
//! voiced.

use vstd::prelude::*;
use crate::bytes::extend_bytes;
use crate::ordmap::{bytes_eq, lemma_vec_u8_deep_view};

verus! {

/// The names joined with spaces.
pub open spec fn joined(p: Seq<Seq<u8>>) -> Seq<u8>
    decreases p.len(),
{
    if p.len() == 0 {
        Seq::empty()
    } else if p.len() == 1 {
        p[0]
    } else {
        joined(p.drop_last()) + seq![32u8] + p.last()
    }
}

/// A transcription: the phonemes joined with spaces, a newline, and the
/// same in brackets.
pub open spec fn transcription(p: Seq<Seq<u8>>) -> Seq<u8> {
    joined(p) + seq![10u8, 91u8] + joined(p) + seq![93u8]
}

fn joined_exec(names: &Vec<Vec<u8>>) -> (v: Vec<u8>)
    ensures
        v@ == joined(names.deep_view()),
{
    let ghost p = names.deep_view();
    let n = names.len();
    let mut v: Vec<u8> = Vec::new();
    let mut i: usize = 0;
    assert(p.subrange(0, 0) =~= Seq::<Seq<u8>>::empty());
    while i < n
        invariant
            n == p.len(),
            p == names.deep_view(),
            i <= n,
            v@ == joined(p.subrange(0, i as int)),
        decreases n - i,
    {
        proof {
            lemma_vec_u8_deep_view(&names[i as int]);
            assert(p.subrange(0, i + 1).drop_last() =~= p.subrange(0, i as int));
            assert(p.subrange(0, i + 1).last() == p[i as int]);
        }
        if i > 0 {
            v.push(32);
        }
        extend_bytes(&mut v, names[i].as_slice());
        i = i + 1;
        assert(i == 1 ==> p.subrange(0, i as int)[0] == p[0]);
        assert(i == 1 ==> v@ =~= p[0]);
    }
    assert(p.subrange(0, n as int) =~= p);
    v
}

/// The transcription of a segmentation with the phonemes `names`.
pub fn generate_transcription(names: &Vec<Vec<u8>>) -> (v: Vec<u8>)
    ensures
        v@ == transcription(names.deep_view()),
{
    let j = joined_exec(names);
    let mut v = vstd::slice::slice_to_vec(j.as_slice());
    v.push(10);
    v.push(91);
    extend_bytes(&mut v, j.as_slice());
    v.push(93);
    assert(v@ =~= transcription(names.deep_view()));
    v
}

/// A phoneme is voiced unless it is unvoiced in the phoneme dictionary or
/// is `Sil`, `Asp` or `?`.
pub open spec fn is_voiced(ph: Seq<u8>, unvoiced: Seq<Seq<u8>>) -> bool {
    !(unvoiced.contains(ph) || ph == seq![83u8, 105u8, 108u8] || ph == seq![65u8, 115u8, 112u8]
        || ph == seq![63u8])
}

/// Whether each of the first `k` phonemes of `p` is voiced; in a triphone
/// the middle one is listed twice.
pub open spec fn voiced_upto(p: Seq<Seq<u8>>, k: nat, unvoiced: Seq<Seq<u8>>) -> Seq<bool>
    decreases k,
{
    if k == 0 {
        Seq::empty()
    } else {
        let prev = voiced_upto(p, (k - 1) as nat, unvoiced);
        let v = is_voiced(p[k - 1], unvoiced);
        if p.len() == 3 && k - 1 == 1 {
            prev.push(v).push(v)
        } else {
            prev.push(v)
        }
    }
}

/// The voicing of an articulation's phonemes, as its segmentation lists it.
pub open spec fn voiced_flags(p: Seq<Seq<u8>>, unvoiced: Seq<Seq<u8>>) -> Seq<bool> {
    voiced_upto(p, p.len(), unvoiced)
}

/// The flags of the first `k` phonemes of a list that is not a triphone.
proof fn lemma_voiced_upto_plain(p: Seq<Seq<u8>>, k: nat, unvoiced: Seq<Seq<u8>>)
    requires
        p.len() != 3,
        k <= p.len(),
    ensures
        voiced_upto(p, k, unvoiced) == Seq::new(k, |i: int| is_voiced(p[i], unvoiced)),
    decreases k,
{
    if k > 0 {
        lemma_voiced_upto_plain(p, (k - 1) as nat, unvoiced);
        assert(voiced_upto(p, k, unvoiced) =~= Seq::new(k, |i: int| is_voiced(p[i], unvoiced)));
    } else {
        assert(voiced_upto(p, k, unvoiced) =~= Seq::new(k, |i: int| is_voiced(p[i], unvoiced)));
    }
}

/// Law: the segmentation of an articulation lists one voicing flag per
/// phoneme, in order, each telling whether that phoneme is voiced; in a
/// triphone the middle phoneme's flag is listed twice.
pub proof fn lemma_voiced_flags_per_phoneme(p: Seq<Seq<u8>>, unvoiced: Seq<Seq<u8>>)
    ensures
        p.len() == 3 ==> voiced_flags(p, unvoiced) == seq![
            is_voiced(p[0], unvoiced),
            is_voiced(p[1], unvoiced),
            is_voiced(p[1], unvoiced),
            is_voiced(p[2], unvoiced),
        ],
        p.len() != 3 ==> voiced_flags(p, unvoiced) == Seq::new(p.len(), |i: int| is_voiced(p[i], unvoiced)),
{
    if p.len() == 3 {
        let a0 = voiced_upto(p, 0, unvoiced);
        let a1 = voiced_upto(p, 1, unvoiced);
        let a2 = voiced_upto(p, 2, unvoiced);
        let a3 = voiced_upto(p, 3, unvoiced);
        assert(a0 == Seq::<bool>::empty());
        assert(a1 == a0.push(is_voiced(p[0], unvoiced)));
        assert(a2 == a1.push(is_voiced(p[1], unvoiced)).push(is_voiced(p[1], unvoiced)));
        assert(a3 == a2.push(is_voiced(p[2], unvoiced)));
        assert(voiced_flags(p, unvoiced) =~= seq![
            is_voiced(p[0], unvoiced),
            is_voiced(p[1], unvoiced),
            is_voiced(p[1], unvoiced),
            is_voiced(p[2], unvoiced),
        ]);
    } else {
        lemma_voiced_upto_plain(p, p.len(), unvoiced);
    }
}

fn is_named(ph: &[u8], name: &[u8]) -> (r: bool)
    ensures
        r == (ph@ == name@),
{
    bytes_eq(ph, name)
}

fn is_voiced_exec(ph: &Vec<u8>, unvoiced: &Vec<Vec<u8>>) -> (r: bool)
    ensures
        r == is_voiced(ph@, unvoiced.deep_view()),
{
    let ghost u = unvoiced.deep_view();
    let mut found = false;
    let mut i: usize = 0;
    while i < unvoiced.len()
        invariant
            u == unvoiced.deep_view(),
            i <= u.len(),
            found == exists|j: int| 0 <= j < i && u[j] == ph@,
        decreases u.len() - i,
    {
        proof {
            lemma_vec_u8_deep_view(&unvoiced[i as int]);
            lemma_vec_u8_deep_view(ph);
            assert(u[i as int] == unvoiced[i as int]@);
        }
        let ghost was = found;
        if bytes_eq(unvoiced[i].as_slice(), ph.as_slice()) {
            found = true;
        }
        proof {
            if found && !was {
                assert(0 <= i < i + 1 && u[i as int] == ph@);
            }
            if !found {
                assert forall|j: int| 0 <= j < i + 1 implies u[j] != ph@ by {
                    if j < i {
                    }
                }
            }
        }
        i = i + 1;
    }
    assert(found == u.contains(ph@)) by {
        if u.contains(ph@) {
            let j = choose|j: int| 0 <= j < u.len() && u[j] == ph@;
            assert(0 <= j < i && u[j] == ph@);
        }
    }
    let sil = vec![83u8, 105u8, 108u8];
    let asp = vec![65u8, 115u8, 112u8];
    let q = vec![63u8];
    assert(sil@ =~= seq![83u8, 105u8, 108u8]);
    assert(asp@ =~= seq![65u8, 115u8, 112u8]);
    assert(q@ =~= seq![63u8]);
    !(found || is_named(ph.as_slice(), sil.as_slice()) || is_named(ph.as_slice(), asp.as_slice())
        || is_named(ph.as_slice(), q.as_slice()))
}

/// Whether each phoneme of an articulation is voiced (see `voiced_upto`).
pub fn voiced_list(phonemes: &Vec<Vec<u8>>, unvoiced: &Vec<Vec<u8>>) -> (v: Vec<bool>)
    ensures
        v@ == voiced_flags(phonemes.deep_view(), unvoiced.deep_view()),
{
    let ghost p = phonemes.deep_view();
    let n = phonemes.len();
    let is_tri = n == 3;
    let mut v: Vec<bool> = Vec::new();
    let mut i: usize = 0;
    while i < n
        invariant
            n == p.len(),
            p == phonemes.deep_view(),
            is_tri == (n == 3),
            i <= n,
            v@ == voiced_upto(p, i as nat, unvoiced.deep_view()),
        decreases n - i,
    {
        proof {
            lemma_vec_u8_deep_view(&phonemes[i as int]);
        }
        let b = is_voiced_exec(&phonemes[i], unvoiced);
        v.push(b);
        if is_tri && i == 1 {
            v.push(b);
        }
        i = i + 1;
    }
    v
}

} // verus!
