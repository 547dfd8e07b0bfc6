//! An ordered map held as a vector of entries sorted by key, with the
//! insertion rule of a search tree: an equal key has its value replaced,
//! a new key goes before the first greater one.

use vstd::prelude::*;

verus! {

/// Keys of an ordered map: an order on their deep views, and executable tests.
pub trait MapKey: DeepView + Sized {
    spec fn key_lt(a: Self::V, b: Self::V) -> bool;

    /// `key_lt` is a strict total order.
    proof fn lemma_key_order(a: Self::V, b: Self::V, c: Self::V)
        ensures
            !Self::key_lt(a, a),
            Self::key_lt(a, b) && Self::key_lt(b, c) ==> Self::key_lt(a, c),
            a != b ==> Self::key_lt(a, b) || Self::key_lt(b, a),
    ;

    fn key_less(&self, other: &Self) -> (r: bool)
        ensures
            r == Self::key_lt(self.deep_view(), other.deep_view()),
    ;

    fn key_eq(&self, other: &Self) -> (r: bool)
        ensures
            r == (self.deep_view() == other.deep_view()),
    ;
}

/// `a` comes before `b` in byte-wise lexicographic order, the order of `str`.
pub open spec fn lex_lt(a: Seq<u8>, b: Seq<u8>) -> bool
    decreases a.len(),
{
    if b.len() == 0 {
        false
    } else if a.len() == 0 {
        true
    } else if a[0] != b[0] {
        a[0] < b[0]
    } else {
        lex_lt(a.drop_first(), b.drop_first())
    }
}

/// Byte-wise lexicographic order is a strict total order.
pub proof fn lemma_lex_order(a: Seq<u8>, b: Seq<u8>, c: Seq<u8>)
    ensures
        !lex_lt(a, a),
        lex_lt(a, b) && lex_lt(b, c) ==> lex_lt(a, c),
        a != b ==> lex_lt(a, b) || lex_lt(b, a),
    decreases a.len(),
{
    if a.len() > 0 && b.len() > 0 && c.len() > 0 {
        lemma_lex_order(a.drop_first(), b.drop_first(), c.drop_first());
    } else if a.len() > 0 && b.len() > 0 {
        lemma_lex_order(a.drop_first(), b.drop_first(), b.drop_first());
    } else if a.len() > 0 {
        lemma_lex_order(a.drop_first(), a.drop_first(), a.drop_first());
    }
    if a != b && a.len() > 0 && b.len() > 0 && a[0] == b[0] {
        assert(a.drop_first() != b.drop_first()) by {
            if a.drop_first() == b.drop_first() {
                assert(a =~= seq![a[0]] + a.drop_first());
                assert(b =~= seq![b[0]] + b.drop_first());
            }
        }
    }
    if a.len() == 0 && b.len() == 0 {
        assert(a =~= b);
    }
}

pub proof fn lemma_vec_u8_deep_view(v: &Vec<u8>)
    ensures
        v.deep_view() == v@,
{
    assert(v.deep_view() =~= v@);
}

/// Whether `a` comes before `b` in byte-wise lexicographic order.
pub fn bytes_less(a: &[u8], b: &[u8]) -> (r: bool)
    ensures
        r == lex_lt(a@, b@),
{
    let mut i: usize = 0;
    assert(a@.subrange(0, a@.len() as int) =~= a@);
    assert(b@.subrange(0, b@.len() as int) =~= b@);
    while i < a.len() && i < b.len() && a[i] == b[i]
        invariant
            i <= a@.len(),
            i <= b@.len(),
            a@.subrange(0, i as int) == b@.subrange(0, i as int),
            lex_lt(a@, b@) == lex_lt(a@.subrange(i as int, a@.len() as int), b@.subrange(i as int, b@.len() as int)),
        decreases a@.len() - i,
    {
        let ghost sa = a@.subrange(i as int, a@.len() as int);
        let ghost sb = b@.subrange(i as int, b@.len() as int);
        assert(sa.drop_first() =~= a@.subrange(i + 1, a@.len() as int));
        assert(sb.drop_first() =~= b@.subrange(i + 1, b@.len() as int));
        assert(a@.subrange(0, i + 1) =~= a@.subrange(0, i as int).push(a@[i as int]));
        assert(b@.subrange(0, i + 1) =~= b@.subrange(0, i as int).push(b@[i as int]));
        i = i + 1;
    }
    if i == b.len() {
        false
    } else if i == a.len() {
        true
    } else {
        a[i] < b[i]
    }
}

/// Whether two byte strings are equal.
pub fn bytes_eq(a: &[u8], b: &[u8]) -> (r: bool)
    ensures
        r == (a@ == b@),
{
    if a.len() != b.len() {
        return false;
    }
    let mut i: usize = 0;
    while i < a.len()
        invariant
            a@.len() == b@.len(),
            i <= a@.len(),
            forall|j: int| 0 <= j < i ==> a@[j] == b@[j],
        decreases a@.len() - i,
    {
        if a[i] != b[i] {
            return false;
        }
        i = i + 1;
    }
    assert(a@ =~= b@);
    true
}

impl MapKey for Vec<u8> {
    open spec fn key_lt(a: Seq<u8>, b: Seq<u8>) -> bool {
        lex_lt(a, b)
    }

    proof fn lemma_key_order(a: Seq<u8>, b: Seq<u8>, c: Seq<u8>) {
        lemma_lex_order(a, b, c);
    }

    fn key_less(&self, other: &Self) -> (r: bool) {
        proof {
            lemma_vec_u8_deep_view(self);
            lemma_vec_u8_deep_view(other);
        }
        bytes_less(self.as_slice(), other.as_slice())
    }

    fn key_eq(&self, other: &Self) -> (r: bool) {
        proof {
            lemma_vec_u8_deep_view(self);
            lemma_vec_u8_deep_view(other);
        }
        bytes_eq(self.as_slice(), other.as_slice())
    }
}

impl MapKey for u32 {
    open spec fn key_lt(a: u32, b: u32) -> bool {
        a < b
    }

    proof fn lemma_key_order(a: u32, b: u32, c: u32) {
    }

    fn key_less(&self, other: &Self) -> (r: bool) {
        *self < *other
    }

    fn key_eq(&self, other: &Self) -> (r: bool) {
        *self == *other
    }
}

/// The entries after inserting `k` with `v`: the value of an equal key is
/// replaced; otherwise the new entry goes before the first entry whose key is
/// not below `k`.
pub open spec fn assoc_insert<K: MapKey, W>(s: Seq<(K::V, W)>, k: K::V, v: W) -> Seq<(K::V, W)>
    decreases s.len(),
{
    if s.len() == 0 {
        seq![(k, v)]
    } else if s[0].0 == k {
        seq![(k, v)] + s.drop_first()
    } else if K::key_lt(s[0].0, k) {
        seq![s[0]] + assoc_insert::<K, W>(s.drop_first(), k, v)
    } else {
        seq![(k, v)] + s
    }
}

/// Where `assoc_insert` puts the new entry, given the index of the first key
/// that is not below `k`.
pub proof fn lemma_assoc_insert_at<K: MapKey, W>(s: Seq<(K::V, W)>, k: K::V, v: W, i: int)
    requires
        0 <= i <= s.len(),
        forall|j: int| 0 <= j < i ==> K::key_lt(#[trigger] s[j].0, k) && s[j].0 != k,
        i < s.len() ==> !K::key_lt(s[i].0, k) || s[i].0 == k,
    ensures
        assoc_insert::<K, W>(s, k, v) == if i < s.len() && s[i].0 == k {
            s.subrange(0, i) + seq![(k, v)] + s.subrange(i + 1, s.len() as int)
        } else {
            s.subrange(0, i) + seq![(k, v)] + s.subrange(i, s.len() as int)
        },
    decreases i,
{
    if i == 0 {
        if s.len() > 0 && s[0].0 == k {
            assert(s.subrange(0, 0) + seq![(k, v)] + s.subrange(1, s.len() as int) =~= seq![(k, v)]
                + s.drop_first());
        } else {
            assert(s.subrange(0, 0) + seq![(k, v)] + s.subrange(0, s.len() as int) =~= seq![(k, v)]
                + s);
        }
    } else {
        let t = s.drop_first();
        assert forall|j: int| 0 <= j < i - 1 implies K::key_lt(#[trigger] t[j].0, k) && t[j].0 != k by {
            assert(t[j] == s[j + 1]);
        }
        lemma_assoc_insert_at::<K, W>(t, k, v, i - 1);
        assert(s[0].0 != k && K::key_lt(s[0].0, k)) by {
            assert(s[0] == s[0]);
        }
        if i < s.len() && s[i].0 == k {
            assert(seq![s[0]] + (t.subrange(0, i - 1) + seq![(k, v)] + t.subrange(i, t.len() as int))
                =~= s.subrange(0, i) + seq![(k, v)] + s.subrange(i + 1, s.len() as int));
        } else {
            assert(seq![s[0]] + (t.subrange(0, i - 1) + seq![(k, v)] + t.subrange(i - 1, t.len() as int))
                =~= s.subrange(0, i) + seq![(k, v)] + s.subrange(i, s.len() as int));
        }
    }
}

/// The keys of `s` strictly increase.
pub open spec fn sorted_keys<K: MapKey, W>(s: Seq<(K::V, W)>) -> bool {
    forall|i: int, j: int| 0 <= i < j < s.len() ==> K::key_lt(#[trigger] s[i].0, #[trigger] s[j].0)
}

/// The value held for `k`, if any.
pub open spec fn lookup<K: MapKey, W>(s: Seq<(K::V, W)>, k: K::V) -> Option<W>
    decreases s.len(),
{
    if s.len() == 0 {
        None
    } else if s[0].0 == k {
        Some(s[0].1)
    } else {
        lookup::<K, W>(s.drop_first(), k)
    }
}

/// Inserting into a map whose keys strictly increase keeps them so; looking
/// up the inserted key then gives the inserted value, and looking up any other
/// key gives what it gave before. Every key of the result is above a bound
/// that `k` and every key before were above.
pub proof fn lemma_insert_sorted<K: MapKey, W>(s: Seq<(K::V, W)>, k: K::V, v: W, bound: K::V)
    requires
        sorted_keys::<K, W>(s),
    ensures
        sorted_keys::<K, W>(assoc_insert::<K, W>(s, k, v)),
        lookup::<K, W>(assoc_insert::<K, W>(s, k, v), k) == Some(v),
        forall|k2: K::V| k2 != k ==> #[trigger] lookup::<K, W>(assoc_insert::<K, W>(s, k, v), k2) == lookup::<K, W>(s, k2),
        (K::key_lt(bound, k) && forall|j: int| 0 <= j < s.len() ==> K::key_lt(bound, #[trigger] s[j].0))
            ==> forall|i: int| 0 <= i < assoc_insert::<K, W>(s, k, v).len()
                ==> K::key_lt(bound, #[trigger] assoc_insert::<K, W>(s, k, v)[i].0),
    decreases s.len(),
{
    let r = assoc_insert::<K, W>(s, k, v);
    if s.len() == 0 {
        assert(r =~= seq![(k, v)]);
        assert(lookup::<K, W>(r.drop_first(), k) == None::<W>);
        assert forall|k2: K::V| k2 != k implies #[trigger] lookup::<K, W>(r, k2) == lookup::<K, W>(s, k2) by {
            assert(r.drop_first().len() == 0);
            assert(lookup::<K, W>(r.drop_first(), k2) == None::<W>);
        }
    } else if s[0].0 == k {
        let t = s.drop_first();
        assert(r.drop_first() =~= t);
        assert forall|i: int, j: int| 0 <= i < j < r.len() implies K::key_lt(#[trigger] r[i].0, #[trigger] r[j].0) by {
            assert(r[j] == s[j]);
            if i > 0 {
                assert(r[i] == s[i]);
            }
        }
        assert forall|k2: K::V| k2 != k implies #[trigger] lookup::<K, W>(r, k2) == lookup::<K, W>(s, k2) by {
        }
    } else if K::key_lt(s[0].0, k) {
        let t = s.drop_first();
        let rt = assoc_insert::<K, W>(t, k, v);
        assert(sorted_keys::<K, W>(t)) by {
            assert forall|i: int, j: int| 0 <= i < j < t.len() implies K::key_lt(#[trigger] t[i].0, #[trigger] t[j].0) by {
                assert(t[i] == s[i + 1] && t[j] == s[j + 1]);
            }
        }
        assert forall|j: int| 0 <= j < t.len() implies K::key_lt(s[0].0, #[trigger] t[j].0) by {
            assert(t[j] == s[j + 1]);
        }
        lemma_insert_sorted::<K, W>(t, k, v, s[0].0);
        if K::key_lt(bound, k) && forall|j: int| 0 <= j < s.len() ==> K::key_lt(bound, #[trigger] s[j].0) {
            assert forall|j: int| 0 <= j < t.len() implies K::key_lt(bound, #[trigger] t[j].0) by {
                assert(t[j] == s[j + 1]);
            }
            lemma_insert_sorted::<K, W>(t, k, v, bound);
            assert forall|i: int| 0 <= i < r.len() implies K::key_lt(bound, #[trigger] r[i].0) by {
                if i > 0 {
                    assert(r[i] == rt[i - 1]);
                } else {
                    assert(r[0] == s[0]);
                }
            }
        }
        assert(r =~= seq![s[0]] + rt);
        assert(r.drop_first() =~= rt);
        assert forall|i: int, j: int| 0 <= i < j < r.len() implies K::key_lt(#[trigger] r[i].0, #[trigger] r[j].0) by {
            assert(r[j] == rt[j - 1]);
            if i > 0 {
                assert(r[i] == rt[i - 1]);
            }
        }
        K::lemma_key_order(s[0].0, k, k);
        assert forall|k2: K::V| k2 != k implies #[trigger] lookup::<K, W>(r, k2) == lookup::<K, W>(s, k2) by {
            assert(lookup::<K, W>(rt, k2) == lookup::<K, W>(t, k2));
        }
    } else {
        K::lemma_key_order(s[0].0, k, k);
        assert(r =~= seq![(k, v)] + s);
        assert(r.drop_first() =~= s);
        assert forall|i: int, j: int| 0 <= i < j < r.len() implies K::key_lt(#[trigger] r[i].0, #[trigger] r[j].0) by {
            assert(r[j] == s[j - 1]);
            if i > 0 {
                assert(r[i] == s[i - 1]);
            } else if j > 1 {
                K::lemma_key_order(k, s[0].0, s[j - 1].0);
            }
        }
        assert forall|i: int| 0 <= i < r.len() && K::key_lt(bound, k) && (forall|j: int| 0 <= j < s.len() ==> K::key_lt(bound, #[trigger] s[j].0))
            implies K::key_lt(bound, #[trigger] r[i].0) by {
            if i > 0 {
                assert(r[i] == s[i - 1]);
            }
        }
        assert forall|k2: K::V| k2 != k implies #[trigger] lookup::<K, W>(r, k2) == lookup::<K, W>(s, k2) by {
        }
    }
}

/// An ordered map from `K` to `V`.
pub struct OrdMap<K, V> {
    pub entries: Vec<(K, V)>,
}

impl<K: DeepView, V: DeepView> DeepView for OrdMap<K, V> {
    type V = Seq<(K::V, V::V)>;

    open spec fn deep_view(&self) -> Seq<(K::V, V::V)> {
        self.entries.deep_view()
    }
}

impl<K: MapKey, V: DeepView> OrdMap<K, V> {
    /// The keys strictly increase.
    pub open spec fn wf(&self) -> bool {
        sorted_keys::<K, V::V>(self.deep_view())
    }

    pub fn new() -> (m: Self)
        ensures
            m.deep_view() == Seq::<(K::V, V::V)>::empty(),
            m.wf(),
    {
        let m = OrdMap { entries: Vec::new() };
        assert(m.deep_view() =~= Seq::<(K::V, V::V)>::empty());
        m
    }

    pub fn len(&self) -> (n: usize)
        ensures
            n == self.deep_view().len(),
    {
        self.entries.len()
    }

    pub fn insert(&mut self, k: K, v: V)
        ensures
            final(self).deep_view() == assoc_insert::<K, V::V>(
                old(self).deep_view(),
                k.deep_view(),
                v.deep_view(),
            ),
            old(self).wf() ==> final(self).wf(),
    {
        let ghost s = old(self).deep_view();
        proof {
            if old(self).wf() {
                lemma_insert_sorted::<K, V::V>(s, k.deep_view(), v.deep_view(), k.deep_view());
            }
        }
        let ghost kv = k.deep_view();
        let n = self.entries.len();
        let mut i: usize = 0;
        let mut done = false;
        while i < n && !done
            invariant
                n == self.entries@.len(),
                self.entries == old(self).entries,
                s == self.entries.deep_view(),
                kv == k.deep_view(),
                i <= n,
                forall|j: int| 0 <= j < i ==> K::key_lt(#[trigger] s[j].0, kv) && s[j].0 != kv,
                done ==> i < n && (!K::key_lt(s[i as int].0, kv) || s[i as int].0 == kv),
            decreases n - i, if done { 0int } else { 1int },
        {
            let eq = self.entries[i].0.key_eq(&k);
            let less = self.entries[i].0.key_less(&k);
            if eq || !less {
                done = true;
            } else {
                i = i + 1;
            }
        }
        proof {
            lemma_assoc_insert_at::<K, V::V>(s, kv, v.deep_view(), i as int);
        }
        let ghost vv = v.deep_view();
        if i < n && self.entries[i].0.key_eq(&k) {
            self.entries.set(i, (k, v));
            assert(self.entries.deep_view() =~= s.subrange(0, i as int) + seq![(kv, vv)] + s.subrange(
                i + 1,
                s.len() as int,
            ));
        } else {
            self.entries.insert(i, (k, v));
            assert(self.entries.deep_view() =~= s.subrange(0, i as int) + seq![(kv, vv)] + s.subrange(
                i as int,
                s.len() as int,
            ));
        }
    }
}

} // verus!
