//! Little-endian byte views shared by the binary formats of this crate.
use vstd::prelude::*;
use vstd::string::StringSliceAdditionalSpecFns;
use vstd::utf8::{decode_utf8, valid_utf8};

verus! {

/// The value of two little-endian bytes at `i`.
pub open spec fn le_u16(s: Seq<u8>, i: int) -> int {
    s[i] + s[i + 1] * 256
}

/// The value of four little-endian bytes at `i`.
pub open spec fn le_u32(s: Seq<u8>, i: int) -> int {
    le_u16(s, i) + le_u16(s, i + 2) * 65536
}

/// The value of eight little-endian bytes at `i`.
pub open spec fn le_u64(s: Seq<u8>, i: int) -> int {
    le_u32(s, i) + le_u32(s, i + 4) * 4294967296
}

/// The four little-endian bytes of `x`.
pub open spec fn u32_bytes(x: u32) -> Seq<u8> {
    seq![(x % 256) as u8, ((x / 256) % 256) as u8, ((x / 65536) % 256) as u8, (x / 16777216) as u8]
}

/// The eight little-endian bytes of `x`.
pub open spec fn u64_bytes(x: u64) -> Seq<u8> {
    u32_bytes((x % 4294967296) as u32) + u32_bytes((x / 4294967296) as u32)
}

/// The two little-endian bytes of `x`.
pub open spec fn u16_bytes(x: u16) -> Seq<u8> {
    seq![(x % 256) as u8, (x / 256) as u8]
}

pub proof fn lemma_u32_bytes(x: u32)
    ensures
        u32_bytes(x).len() == 4,
        le_u32(u32_bytes(x), 0) == x,
{
    let b0 = x % 256;
    let b1 = (x / 256) % 256;
    let b2 = (x / 65536) % 256;
    let b3 = x / 16777216;
    assert(x == b0 + b1 * 256 + b2 * 65536 + b3 * 16777216) by (bit_vector)
        requires
            b0 == x % 256,
            b1 == (x / 256) % 256,
            b2 == (x / 65536) % 256,
            b3 == x / 16777216,
    ;
}

pub proof fn lemma_u64_bytes(x: u64)
    ensures
        u64_bytes(x).len() == 8,
        le_u64(u64_bytes(x), 0) == x,
{
    let lo = (x % 4294967296) as u32;
    let hi = (x / 4294967296) as u32;
    lemma_u32_bytes(lo);
    lemma_u32_bytes(hi);
    let s = u64_bytes(x);
    assert(le_u32(s, 0) == le_u32(u32_bytes(lo), 0));
    assert(le_u32(s, 4) == le_u32(u32_bytes(hi), 0));
    assert(x == (x % 4294967296) + (x / 4294967296) * 4294967296) by (bit_vector);
}

pub fn read_u16(b: &[u8], i: usize) -> (r: u16)
    requires
        i + 2 <= b@.len(),
    ensures
        r == le_u16(b@, i as int),
{
    b[i] as u16 + (b[i + 1] as u16) * 256
}

pub fn read_u32(b: &[u8], i: usize) -> (r: u32)
    requires
        i + 4 <= b@.len(),
    ensures
        r == le_u32(b@, i as int),
{
    b[i] as u32 + (b[i + 1] as u32) * 256 + (b[i + 2] as u32) * 65536 + (b[i + 3] as u32)
        * 16777216
}

pub fn read_u64(b: &[u8], i: usize) -> (r: u64)
    requires
        i + 8 <= b@.len(),
    ensures
        r == le_u64(b@, i as int),
{
    let _n = b.len();
    let lo = read_u32(b, i) as u64;
    let hi = read_u32(b, i + 4) as u64;
    lo + hi * 4294967296
}

pub fn u32_le(x: u32) -> (r: [u8; 4])
    ensures
        r@ == u32_bytes(x),
{
    let r = [(x % 256) as u8, ((x / 256) % 256) as u8, ((x / 65536) % 256) as u8, (x / 16777216) as u8];
    assert(r@ =~= u32_bytes(x));
    r
}

pub fn u64_le(x: u64) -> (r: [u8; 8])
    ensures
        r@ == u64_bytes(x),
{
    let lo = u32_le((x % 4294967296) as u32);
    let hi = u32_le((x / 4294967296) as u32);
    let r = [lo[0], lo[1], lo[2], lo[3], hi[0], hi[1], hi[2], hi[3]];
    assert(r@ =~= u64_bytes(x));
    r
}

pub fn push_u32(v: &mut Vec<u8>, x: u32)
    ensures
        final(v)@ == old(v)@ + u32_bytes(x),
{
    v.push((x % 256) as u8);
    v.push(((x / 256) % 256) as u8);
    v.push(((x / 65536) % 256) as u8);
    v.push((x / 16777216) as u8);
    assert(v@ =~= old(v)@ + u32_bytes(x));
}

pub fn push_u64(v: &mut Vec<u8>, x: u64)
    ensures
        final(v)@ == old(v)@ + u64_bytes(x),
{
    push_u32(v, (x % 4294967296) as u32);
    push_u32(v, (x / 4294967296) as u32);
    assert(v@ =~= old(v)@ + u64_bytes(x));
}

/// Appends every byte of `s` to `v`.
pub fn push_slice(v: &mut Vec<u8>, s: &[u8])
    ensures
        final(v)@ == old(v)@ + s@,
{
    let mut i: usize = 0;
    while i < s.len()
        invariant
            i <= s@.len(),
            v@ == old(v)@ + s@.subrange(0, i as int),
        decreases s@.len() - i,
    {
        v.push(s[i]);
        i = i + 1;
        assert(v@ =~= old(v)@ + s@.subrange(0, i as int));
    }
    assert(s@.subrange(0, s@.len() as int) =~= s@);
}

/// Appends `n` zero bytes to `v`.
pub fn push_zeros(v: &mut Vec<u8>, n: usize)
    ensures
        final(v)@ == old(v)@ + Seq::new(n as nat, |k: int| 0u8),
{
    let mut i: usize = 0;
    while i < n
        invariant
            i <= n,
            v@ == old(v)@ + Seq::new(i as nat, |k: int| 0u8),
        decreases n - i,
    {
        v.push(0);
        i = i + 1;
        assert(v@ =~= old(v)@ + Seq::new(i as nat, |k: int| 0u8));
    }
}

/// A vector of `n` zero bytes.
pub fn zeros(n: usize) -> (r: Vec<u8>)
    ensures
        r@ == Seq::new(n as nat, |k: int| 0u8),
{
    let mut v = Vec::new();
    push_zeros(&mut v, n);
    assert(v@ =~= Seq::new(n as nat, |k: int| 0u8));
    v
}

/// Overwrites `dst[at..at + src.len()]` with `src`.
pub fn copy_into(dst: &mut [u8], at: usize, src: &[u8])
    requires
        at + src@.len() <= old(dst)@.len(),
    ensures
        final(dst)@ == old(dst)@.subrange(0, at as int) + src@ + old(dst)@.subrange(
            at + src@.len(),
            old(dst)@.len() as int,
        ),
{
    let n = dst.len();
    let mut i: usize = 0;
    while i < src.len()
        invariant
            n == dst@.len(),
            at + src@.len() <= dst@.len(),
            dst@.len() == old(dst)@.len(),
            i <= src@.len(),
            forall|k: int| 0 <= k < at ==> dst@[k] == old(dst)@[k],
            forall|k: int| at + src@.len() <= k < dst@.len() ==> dst@[k] == old(dst)@[k],
            forall|k: int| at <= k < at + i ==> dst@[k] == src@[k - at],
            forall|k: int| at + i <= k < at + src@.len() ==> dst@[k] == old(dst)@[k],
        decreases src@.len() - i,
    {
        dst[at + i] = src[i];
        i = i + 1;
    }
    assert(dst@ =~= old(dst)@.subrange(0, at as int) + src@ + old(dst)@.subrange(
        at + src@.len(),
        old(dst)@.len() as int,
    ));
}

/// Whether `a` and `b` hold the same bytes.
pub fn bytes_eq(a: &[u8], b: &[u8]) -> (r: bool)
    ensures
        r == (a@ == b@),
{
    if a.len() != b.len() {
        return false;
    }
    let mut i: usize = 0;
    while i < a.len()
        invariant
            a@.len() == b@.len(),
            i <= a@.len(),
            forall|k: int| 0 <= k < i ==> a@[k] == b@[k],
        decreases a@.len() - i,
    {
        if a[i] != b[i] {
            return false;
        }
        i = i + 1;
    }
    assert(a@ =~= b@);
    true
}

/// A copy of `s[start..end]`.
pub fn sub_vec(s: &[u8], start: usize, end: usize) -> (r: Vec<u8>)
    requires
        start <= end <= s@.len(),
    ensures
        r@ == s@.subrange(start as int, end as int),
{
    let mut v = Vec::new();
    let mut i = start;
    while i < end
        invariant
            start <= i <= end <= s@.len(),
            v@ == s@.subrange(start as int, i as int),
        decreases end - i,
    {
        v.push(s[i]);
        i = i + 1;
        assert(v@ =~= s@.subrange(start as int, i as int));
    }
    v
}

/// `le_u64` reads only the eight bytes it starts at.
pub proof fn lemma_le_u64_window(s1: Seq<u8>, i: int, s2: Seq<u8>, j: int)
    requires
        0 <= i,
        0 <= j,
        i + 8 <= s1.len(),
        j + 8 <= s2.len(),
        forall|k: int| i <= k < i + 8 ==> #[trigger] s1[k] == s2[j + (k - i)],
    ensures
        le_u64(s1, i) == le_u64(s2, j),
{
    assert(s1[i] == s2[j] && s1[i + 1] == s2[j + 1] && s1[i + 2] == s2[j + 2] && s1[i + 3]
        == s2[j + 3]);
    assert(s1[i + 4] == s2[j + 4] && s1[i + 5] == s2[j + 5] && s1[i + 6] == s2[j + 6] && s1[i
        + 7] == s2[j + 7]);
}

/// Overwrites the eight bytes at `at` with the little-endian bytes of `x`.
pub fn write_u64(v: &mut Vec<u8>, at: usize, x: u64)
    requires
        at + 8 <= old(v)@.len(),
    ensures
        final(v)@.len() == old(v)@.len(),
        le_u64(final(v)@, at as int) == x,
        forall|k: int|
            0 <= k < old(v)@.len() && (k < at || at + 8 <= k) ==> #[trigger] final(v)@[k]
                == old(v)@[k],
{
    let b = u64_le(x);
    let _n = v.len();
    let mut i: usize = 0;
    while i < 8
        invariant
            i <= 8,
            at + 8 <= v@.len(),
            v@.len() == old(v)@.len(),
            v@.len() == _n,
            b@ == u64_bytes(x),
            forall|k: int| 0 <= k < i ==> v@[at + k] == b@[k],
            forall|k: int|
                0 <= k < old(v)@.len() && (k < at || at + i <= k) ==> v@[k] == old(v)@[k],
        decreases 8 - i,
    {
        v.set(at + i, b[i]);
        i = i + 1;
    }
    proof {
        lemma_u64_bytes(x);
        lemma_le_u64_window(v@, at as int, u64_bytes(x), 0);
    }
}

/// Bytes decoded as UTF-8, with each invalid sequence replaced by U+FFFD.
pub uninterp spec fn utf8_lossy(bytes: Seq<u8>) -> Seq<char>;

/// `String::from_utf8_lossy`: valid UTF-8 decodes to its characters; other
/// input to the name above, whose replacement rules are left unsaid here.
#[verifier::external_body]
pub(crate) fn lossy_string(bytes: &[u8]) -> (r: String)
    ensures
        r@ == utf8_lossy(bytes@),
        valid_utf8(bytes@) ==> r@ == decode_utf8(bytes@),
{
    String::from_utf8_lossy(bytes).into_owned()
}

/// The UTF-8 check of `core::str::from_utf8`: `Ok` exactly for valid UTF-8,
/// and then a string whose bytes are the input bytes.
#[verifier::external_body]
pub(crate) fn utf8_str(bytes: &[u8]) -> (r: Option<&str>)
    ensures
        r is Some <==> valid_utf8(bytes@),
        r matches Some(s) ==> s.spec_bytes() == bytes@,
{
    core::str::from_utf8(bytes).ok()
}

} // verus!
