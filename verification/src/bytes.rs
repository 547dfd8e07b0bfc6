//! Little-endian integers, hexadecimal and decimal digits, and byte-string order.

use vstd::prelude::*;

verus! {

/// The unsigned 16-bit value stored little-endian at `d[p..p+2]`.
pub open spec fn le16(d: Seq<u8>, p: int) -> u16 {
    (d[p] as int + d[p + 1] as int * 0x100) as u16
}

/// The unsigned 32-bit value stored little-endian at `d[p..p+4]`.
pub open spec fn le32(d: Seq<u8>, p: int) -> u32 {
    (d[p] as int + d[p + 1] as int * 0x100 + d[p + 2] as int * 0x10000 + d[p + 3] as int
        * 0x1000000) as u32
}

/// The unsigned 64-bit value stored little-endian at `d[p..p+8]`.
pub open spec fn le64(d: Seq<u8>, p: int) -> u64 {
    (le32(d, p) as int + le32(d, p + 4) as int * 0x1_0000_0000) as u64
}

/// The four little-endian bytes of `x`.
pub open spec fn enc32(x: u32) -> Seq<u8> {
    seq![
        (x % 0x100) as u8,
        ((x / 0x100) % 0x100) as u8,
        ((x / 0x10000) % 0x100) as u8,
        (x / 0x1000000) as u8,
    ]
}

/// The eight little-endian bytes of `x`.
pub open spec fn enc64(x: u64) -> Seq<u8> {
    enc32((x % 0x1_0000_0000) as u32) + enc32((x / 0x1_0000_0000) as u32)
}

pub fn le_u16_at(b: &[u8], i: usize) -> (r: u16)
    requires
        i + 2 <= b@.len(),
    ensures
        r == le16(b@, i as int),
{
    b[i] as u16 + (b[i + 1] as u16) * 0x100
}

pub fn le_u32_at(b: &[u8], i: usize) -> (r: u32)
    requires
        i + 4 <= b@.len(),
    ensures
        r == le32(b@, i as int),
{
    b[i] as u32 + (b[i + 1] as u32) * 0x100 + (b[i + 2] as u32) * 0x10000 + (b[i + 3] as u32)
        * 0x1000000
}

pub fn le_u64_at(b: &[u8], i: usize) -> (r: u64)
    requires
        i + 8 <= b@.len(),
    ensures
        r == le64(b@, i as int),
{
    let n = b.len();
    let lo = le_u32_at(b, i);
    let hi = le_u32_at(b, i + 4);
    lo as u64 + (hi as u64) * 0x1_0000_0000
}

/// Decoding the encoding of a 32-bit value gives the value back.
pub proof fn lemma_le32_enc32(x: u32)
    ensures
        le32(enc32(x), 0) == x,
{
    let s = enc32(x);
    assert(s[0] as int + s[1] as int * 0x100 + s[2] as int * 0x10000 + s[3] as int * 0x1000000
        == x) by {
        assert((x % 0x100) as u8 as int + ((x / 0x100) % 0x100) as u8 as int * 0x100 + ((x
            / 0x10000) % 0x100) as u8 as int * 0x10000 + (x / 0x1000000) as u8 as int * 0x1000000
            == x) by (bit_vector);
    }
}

/// Decoding the encoding of a 64-bit value gives the value back.
pub proof fn lemma_le64_enc64(x: u64)
    ensures
        le64(enc64(x), 0) == x,
{
    let lo = (x % 0x1_0000_0000) as u32;
    let hi = (x / 0x1_0000_0000) as u32;
    let e = enc64(x);
    lemma_le32_enc32(lo);
    lemma_le32_enc32(hi);
    assert(le32(e, 0) == le32(enc32(lo), 0));
    assert(le32(e, 4) == le32(enc32(hi), 0));
    assert(lo as int + hi as int * 0x1_0000_0000 == x) by (nonlinear_arith)
        requires
            lo == x % 0x1_0000_0000,
            hi == x / 0x1_0000_0000,
    ;
}

/// Appends the little-endian bytes of `x`.
pub fn push_u32_le(v: &mut Vec<u8>, x: u32)
    ensures
        final(v)@ == old(v)@ + enc32(x),
{
    v.push((x % 0x100) as u8);
    v.push(((x / 0x100) % 0x100) as u8);
    v.push(((x / 0x10000) % 0x100) as u8);
    v.push((x / 0x1000000) as u8);
    assert(final(v)@ =~= old(v)@ + enc32(x));
}

/// Appends the little-endian bytes of `x`.
pub fn push_u64_le(v: &mut Vec<u8>, x: u64)
    ensures
        final(v)@ == old(v)@ + enc64(x),
{
    push_u32_le(v, (x % 0x1_0000_0000) as u32);
    push_u32_le(v, (x / 0x1_0000_0000) as u32);
    assert(final(v)@ =~= old(v)@ + enc64(x));
}

/// `n` copies of `b`.
pub open spec fn fill(b: u8, n: nat) -> Seq<u8> {
    Seq::new(n, |_i: int| b)
}

/// Appends `n` copies of `b`.
pub fn push_fill(v: &mut Vec<u8>, b: u8, n: usize)
    ensures
        final(v)@ == old(v)@ + fill(b, n as nat),
{
    let mut i: usize = 0;
    while i < n
        invariant
            i <= n,
            v@ == old(v)@ + fill(b, i as nat),
        decreases n - i,
    {
        v.push(b);
        i = i + 1;
        assert(v@ =~= old(v)@ + fill(b, i as nat));
    }
}

/// Appends the bytes of `s`.
pub fn extend_bytes(v: &mut Vec<u8>, s: &[u8])
    ensures
        final(v)@ == old(v)@ + s@,
{
    let mut i: usize = 0;
    while i < s.len()
        invariant
            i <= s@.len(),
            v@ == old(v)@ + s@.subrange(0, i as int),
        decreases s@.len() - i,
    {
        v.push(s[i]);
        i = i + 1;
        assert(v@ =~= old(v)@ + s@.subrange(0, i as int));
    }
    assert(s@.subrange(0, s@.len() as int) =~= s@);
}

/// The ASCII decimal digits of `n`, without leading zeros: what `to_string`
/// writes for an unsigned integer.
pub open spec fn dec(n: nat) -> Seq<u8>
    decreases n,
{
    if n < 10 {
        seq![(n + 48) as u8]
    } else {
        dec(n / 10).push((n % 10 + 48) as u8)
    }
}

/// The decimal digits of `n`.
pub fn dec_bytes(n: u64) -> (v: Vec<u8>)
    ensures
        v@ == dec(n as nat),
{
    let mut m = n;
    let mut v: Vec<u8> = Vec::new();
    while m >= 10
        invariant
            dec(n as nat) == dec(m as nat) + v@,
        decreases m,
    {
        let ghost old_v = v@;
        v.insert(0, (m % 10 + 48) as u8);
        assert(dec(m as nat) == dec((m / 10) as nat).push((m % 10 + 48) as u8));
        assert(dec(m as nat) + old_v =~= dec((m / 10) as nat) + v@);
        m = m / 10;
    }
    let ghost old_v = v@;
    v.insert(0, (m + 48) as u8);
    assert(dec(m as nat) + old_v =~= v@);
    v
}

/// `b` is an ASCII decimal digit.
pub open spec fn is_digit(b: u8) -> bool {
    48 <= b <= 57
}

/// The number that a string of decimal digits denotes.
pub open spec fn digits_value(s: Seq<u8>) -> nat
    decreases s.len(),
{
    if s.len() == 0 {
        0
    } else {
        digits_value(s.drop_last()) * 10 + (s.last() - 48) as nat
    }
}

/// `s` without one leading `+`.
pub open spec fn sign_stripped(s: Seq<u8>) -> Seq<u8> {
    if s.len() > 0 && s[0] == 43 {
        s.drop_first()
    } else {
        s
    }
}

/// Every byte of `s` is a decimal digit.
pub open spec fn all_digits(s: Seq<u8>) -> bool {
    forall|i: int| 0 <= i < s.len() ==> is_digit(#[trigger] s[i])
}

/// What `str::parse::<u32>` makes of the UTF-8 bytes `s`: an optional `+`
/// followed by at least one decimal digit and nothing else, denoting a value
/// that fits in 32 bits.
pub open spec fn parse_u32(s: Seq<u8>) -> Option<u32> {
    let digits = sign_stripped(s);
    if digits.len() > 0 && all_digits(digits) && digits_value(digits) <= u32::MAX {
        Some(digits_value(digits) as u32)
    } else {
        None
    }
}

proof fn lemma_digits_value_grows(s: Seq<u8>, i: int, j: int)
    requires
        0 <= i <= j <= s.len(),
        forall|k: int| 0 <= k < s.len() ==> is_digit(#[trigger] s[k]),
    ensures
        digits_value(s.subrange(0, i)) <= digits_value(s.subrange(0, j)),
    decreases j - i,
{
    if i < j {
        lemma_digits_value_grows(s, i, j - 1);
        assert(s.subrange(0, j).drop_last() =~= s.subrange(0, j - 1));
    }
}

/// Parses an unsigned 32-bit decimal number as `str::parse::<u32>` does.
pub fn parse_u32_exec(s: &[u8]) -> (r: Option<u32>)
    ensures
        r == parse_u32(s@),
{
    let start: usize = if s.len() > 0 && s[0] == 43 { 1 } else { 0 };
    let ghost digits = sign_stripped(s@);
    assert(digits =~= s@.subrange(start as int, s@.len() as int));
    if start >= s.len() {
        return None;
    }
    let mut i: usize = start;
    let mut acc: u32 = 0;
    while i < s.len()
        invariant
            start <= i <= s@.len(),
            digits == sign_stripped(s@),
            digits =~= s@.subrange(start as int, s@.len() as int),
            forall|k: int| start <= k < i ==> is_digit(#[trigger] s@[k]),
            acc as nat == digits_value(s@.subrange(start as int, i as int)),
        decreases s@.len() - i,
    {
        let b = s[i];
        if b < 48 || b > 57 {
            proof {
                assert(digits[i - start] == s@[i as int]);
                assert(!is_digit(digits[i - start]));
                assert(!all_digits(digits));
            }
            return None;
        }
        assert(s@.subrange(start as int, i + 1).drop_last() =~= s@.subrange(start as int, i as int));
        if acc > 429496729 || (acc == 429496729 && b - 48 > 5) {
            proof {
                let p = s@.subrange(start as int, i + 1);
                assert(p.last() == b);
                assert(digits_value(p) == digits_value(p.drop_last()) * 10 + (b - 48) as nat);
                assert(digits_value(p) > u32::MAX);
                if all_digits(digits) {
                    lemma_digits_value_grows(digits, i + 1 - start, digits.len() as int);
                    assert(digits.subrange(0, i + 1 - start) =~= p);
                    assert(digits.subrange(0, digits.len() as int) =~= digits);
                }
            }
            return None;
        }
        acc = acc * 10 + (b - 48) as u32;
        i = i + 1;
    }
    assert(s@.subrange(start as int, s@.len() as int) =~= digits);
    Some(acc)
}

/// The lower-case hexadecimal digit for `n < 16`.
pub open spec fn hex_digit(n: int) -> u8 {
    if n < 10 { (n + 48) as u8 } else { (n + 87) as u8 }
}

/// Two lower-case hexadecimal digits per byte, as `format!("{:02x}")` writes each.
pub open spec fn hex_of(s: Seq<u8>) -> Seq<u8>
    decreases s.len(),
{
    if s.len() == 0 {
        Seq::empty()
    } else {
        hex_of(s.drop_last()) + seq![hex_digit(s.last() as int / 16), hex_digit(s.last() as int % 16)]
    }
}

/// The lower-case hexadecimal digits of `s`, two per byte.
pub fn hex_bytes(s: &[u8]) -> (v: Vec<u8>)
    ensures
        v@ == hex_of(s@),
{
    let mut v: Vec<u8> = Vec::new();
    let mut i: usize = 0;
    while i < s.len()
        invariant
            i <= s@.len(),
            v@ == hex_of(s@.subrange(0, i as int)),
        decreases s@.len() - i,
    {
        let hi = s[i] / 16;
        let lo = s[i] % 16;
        v.push(if hi < 10 { hi + 48 } else { hi + 87 });
        v.push(if lo < 10 { lo + 48 } else { lo + 87 });
        assert(s@.subrange(0, i + 1).drop_last() =~= s@.subrange(0, i as int));
        i = i + 1;
        assert(v@ =~= hex_of(s@.subrange(0, i as int)));
    }
    assert(s@.subrange(0, s@.len() as int) =~= s@);
    v
}

/// `s` without its leading zero bytes.
pub open spec fn trim_front_zeros(s: Seq<u8>) -> Seq<u8>
    decreases s.len(),
{
    if s.len() > 0 && s[0] == 0 { trim_front_zeros(s.drop_first()) } else { s }
}

/// `s` without its trailing zero bytes.
pub open spec fn trim_back_zeros(s: Seq<u8>) -> Seq<u8>
    decreases s.len(),
{
    if s.len() > 0 && s.last() == 0 { trim_back_zeros(s.drop_last()) } else { s }
}

/// `s` without its leading and trailing zero bytes: in UTF-8, the NUL
/// characters that `trim_matches('\0')` removes.
pub open spec fn trim_zeros(s: Seq<u8>) -> Seq<u8> {
    trim_back_zeros(trim_front_zeros(s))
}

/// Removes leading and trailing zero bytes.
pub fn trim_zeros_exec(s: &[u8]) -> (v: Vec<u8>)
    ensures
        v@ == trim_zeros(s@),
{
    let mut a: usize = 0;
    assert(s@.subrange(0, s@.len() as int) =~= s@);
    while a < s.len() && s[a] == 0
        invariant
            a <= s@.len(),
            trim_front_zeros(s@) == trim_front_zeros(s@.subrange(a as int, s@.len() as int)),
        decreases s@.len() - a,
    {
        assert(s@.subrange(a as int, s@.len() as int).drop_first() =~= s@.subrange(a + 1, s@.len() as int));
        a = a + 1;
    }
    let ghost f = s@.subrange(a as int, s@.len() as int);
    assert(trim_front_zeros(s@) == f) by {
        assert(s@.subrange(0, s@.len() as int) =~= s@);
    }
    let mut b: usize = s.len();
    while b > a && s[b - 1] == 0
        invariant
            a <= b <= s@.len(),
            f == s@.subrange(a as int, s@.len() as int),
            trim_back_zeros(f) == trim_back_zeros(s@.subrange(a as int, b as int)),
        decreases b,
    {
        assert(s@.subrange(a as int, b as int).drop_last() =~= s@.subrange(a as int, b - 1));
        b = b - 1;
    }
    let out = vstd::slice::slice_to_vec(vstd::slice::slice_subrange(s, a, b));
    assert(trim_back_zeros(s@.subrange(a as int, b as int)) == s@.subrange(a as int, b as int));
    out
}

} // verus!
