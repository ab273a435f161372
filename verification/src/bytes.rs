//! Big-endian integer encodings shared by every wire format in the crate.
use vstd::prelude::*;

verus! {

/// `x` clamped into `usize` (used for diagnostic byte counts).
pub open spec fn sat(x: int) -> usize {
    if x <= usize::MAX { x as usize } else { usize::MAX }
}

/// The unsigned big-endian value of a byte string.
pub open spec fn be_value(s: Seq<u8>) -> nat
    decreases s.len(),
{
    if s.len() == 0 {
        0
    } else {
        be_value(s.drop_last()) * 256 + s.last() as nat
    }
}

/// Two big-endian bytes of `v`.
pub open spec fn be16(v: u16) -> Seq<u8> {
    seq![(v >> 8u16) as u8, v as u8]
}

/// Three big-endian bytes of the low 24 bits of `v`.
pub open spec fn be24(v: u32) -> Seq<u8> {
    seq![(v >> 16u32) as u8, (v >> 8u32) as u8, v as u8]
}

/// Four big-endian bytes of `v`.
pub open spec fn be32(v: u32) -> Seq<u8> {
    seq![(v >> 24u32) as u8, (v >> 16u32) as u8, (v >> 8u32) as u8, v as u8]
}

/// Eight big-endian bytes of `v`.
pub open spec fn be64(v: u64) -> Seq<u8> {
    seq![
        (v >> 56u64) as u8, (v >> 48u64) as u8, (v >> 40u64) as u8, (v >> 32u64) as u8,
        (v >> 24u64) as u8, (v >> 16u64) as u8, (v >> 8u64) as u8, v as u8,
    ]
}

/// The `u16` read big-endian from `s[i..i + 2]`.
pub open spec fn get16(s: Seq<u8>, i: int) -> u16 {
    ((s[i] as u16) << 8u16) | (s[i + 1] as u16)
}

/// The `u32` read big-endian from `s[i..i + 3]`.
pub open spec fn get24(s: Seq<u8>, i: int) -> u32 {
    ((s[i] as u32) << 16u32) | ((s[i + 1] as u32) << 8u32) | (s[i + 2] as u32)
}

/// The `u32` read big-endian from `s[i..i + 4]`.
pub open spec fn get32(s: Seq<u8>, i: int) -> u32 {
    ((s[i] as u32) << 24u32) | ((s[i + 1] as u32) << 16u32) | ((s[i + 2] as u32) << 8u32) | (s[i
        + 3] as u32)
}

/// The `u64` read big-endian from `s[i..i + 8]`.
pub open spec fn get64(s: Seq<u8>, i: int) -> u64 {
    ((get32(s, i) as u64) << 32u64) | (get32(s, i + 4) as u64)
}

pub proof fn lemma_be16_get16(v: u16, s: Seq<u8>, i: int)
    requires
        0 <= i,
        i + 2 <= s.len(),
        s.subrange(i, i + 2) == be16(v),
    ensures
        get16(s, i) == v,
{
    assert(s[i] == be16(v)[0]);
    assert(s[i + 1] == be16(v)[1]);
    let a = s[i];
    let b = s[i + 1];
    assert(a == (v >> 8u16) as u8 && b == v as u8 ==> ((a as u16) << 8u16) | (b as u16) == v)
        by (bit_vector);
}

pub proof fn lemma_be24_get24(v: u32, s: Seq<u8>, i: int)
    requires
        0 <= i,
        i + 3 <= s.len(),
        s.subrange(i, i + 3) == be24(v),
        v < 0x100_0000,
    ensures
        get24(s, i) == v,
{
    assert(s[i] == be24(v)[0]);
    assert(s[i + 1] == be24(v)[1]);
    assert(s[i + 2] == be24(v)[2]);
    let a = s[i];
    let b = s[i + 1];
    let c = s[i + 2];
    assert(v < 0x100_0000 && a == (v >> 16u32) as u8 && b == (v >> 8u32) as u8 && c == v as u8
        ==> ((a as u32) << 16u32) | ((b as u32) << 8u32) | (c as u32) == v) by (bit_vector);
}

pub proof fn lemma_be32_get32(v: u32, s: Seq<u8>, i: int)
    requires
        0 <= i,
        i + 4 <= s.len(),
        s.subrange(i, i + 4) == be32(v),
    ensures
        get32(s, i) == v,
{
    assert(s[i] == be32(v)[0]);
    assert(s[i + 1] == be32(v)[1]);
    assert(s[i + 2] == be32(v)[2]);
    assert(s[i + 3] == be32(v)[3]);
    let a = s[i];
    let b = s[i + 1];
    let c = s[i + 2];
    let d = s[i + 3];
    assert(a == (v >> 24u32) as u8 && b == (v >> 16u32) as u8 && c == (v >> 8u32) as u8 && d
        == v as u8 ==> ((a as u32) << 24u32) | ((b as u32) << 16u32) | ((c as u32) << 8u32) | (
    d as u32) == v) by (bit_vector);
}

pub proof fn lemma_be64_get64(v: u64, s: Seq<u8>, i: int)
    requires
        0 <= i,
        i + 8 <= s.len(),
        s.subrange(i, i + 8) == be64(v),
    ensures
        get64(s, i) == v,
{
    let hi = (v >> 32u64) as u32;
    let lo = v as u32;
    assert(be64(v).subrange(0, 4) =~= be32(hi)) by {
        assert((v >> 56u64) as u8 == (hi >> 24u32) as u8 && (v >> 48u64) as u8 == (hi >> 16u32) as u8
            && (v >> 40u64) as u8 == (hi >> 8u32) as u8 && (v >> 32u64) as u8 == hi as u8) by (bit_vector)
            requires hi == (v >> 32u64) as u32;
    }
    assert(be64(v).subrange(4, 8) =~= be32(lo)) by {
        assert((v >> 24u64) as u8 == (lo >> 24u32) as u8 && (v >> 16u64) as u8 == (lo >> 16u32) as u8
            && (v >> 8u64) as u8 == (lo >> 8u32) as u8 && v as u8 == lo as u8) by (bit_vector)
            requires lo == v as u32;
    }
    assert(s.subrange(i, i + 4) =~= be64(v).subrange(0, 4));
    assert(s.subrange(i + 4, i + 8) =~= be64(v).subrange(4, 8));
    lemma_be32_get32(hi, s, i);
    lemma_be32_get32(lo, s, i + 4);
    assert(((hi as u64) << 32u64) | (lo as u64) == v) by (bit_vector)
        requires
            hi == (v >> 32u64) as u32,
            lo == v as u32,
    ;
}

/// Reads the big-endian `u16` at `s[i..i + 2]`.
pub fn read16(s: &[u8], i: usize) -> (r: u16)
    requires
        i + 2 <= s@.len(),
    ensures
        r == get16(s@, i as int),
{
    ((s[i] as u16) << 8u16) | (s[i + 1] as u16)
}

/// Reads the big-endian 24-bit value at `s[i..i + 3]`.
pub fn read24(s: &[u8], i: usize) -> (r: u32)
    requires
        i + 3 <= s@.len(),
    ensures
        r == get24(s@, i as int),
{
    ((s[i] as u32) << 16u32) | ((s[i + 1] as u32) << 8u32) | (s[i + 2] as u32)
}

/// Reads the big-endian `u32` at `s[i..i + 4]`.
pub fn read32(s: &[u8], i: usize) -> (r: u32)
    requires
        i + 4 <= s@.len(),
    ensures
        r == get32(s@, i as int),
{
    ((s[i] as u32) << 24u32) | ((s[i + 1] as u32) << 16u32) | ((s[i + 2] as u32) << 8u32) | (s[i
        + 3] as u32)
}

/// Reads the big-endian `u64` at `s[i..i + 8]`.
pub fn read64(s: &[u8], i: usize) -> (r: u64)
    requires
        i + 8 <= s@.len(),
    ensures
        r == get64(s@, i as int),
{
    let n = s.len();
    assert(i + 4 <= n);
    let hi = read32(s, i);
    let lo = read32(s, i + 4);
    ((hi as u64) << 32u64) | (lo as u64)
}

/// Appends the two big-endian bytes of `v`.
pub fn push16(out: &mut Vec<u8>, v: u16)
    ensures
        final(out)@ == old(out)@ + be16(v),
{
    out.push((v >> 8u16) as u8);
    out.push(v as u8);
    assert(final(out)@ =~= old(out)@ + be16(v));
}

/// Appends the three big-endian bytes of the low 24 bits of `v`.
pub fn push24(out: &mut Vec<u8>, v: u32)
    ensures
        final(out)@ == old(out)@ + be24(v),
{
    out.push((v >> 16u32) as u8);
    out.push((v >> 8u32) as u8);
    out.push(v as u8);
    assert(final(out)@ =~= old(out)@ + be24(v));
}

/// Appends the four big-endian bytes of `v`.
pub fn push32(out: &mut Vec<u8>, v: u32)
    ensures
        final(out)@ == old(out)@ + be32(v),
{
    out.push((v >> 24u32) as u8);
    out.push((v >> 16u32) as u8);
    out.push((v >> 8u32) as u8);
    out.push(v as u8);
    assert(final(out)@ =~= old(out)@ + be32(v));
}

/// Appends the eight big-endian bytes of `v`.
pub fn push64(out: &mut Vec<u8>, v: u64)
    ensures
        final(out)@ == old(out)@ + be64(v),
{
    out.push((v >> 56u64) as u8);
    out.push((v >> 48u64) as u8);
    out.push((v >> 40u64) as u8);
    out.push((v >> 32u64) as u8);
    out.push((v >> 24u64) as u8);
    out.push((v >> 16u64) as u8);
    out.push((v >> 8u64) as u8);
    out.push(v as u8);
    assert(final(out)@ =~= old(out)@ + be64(v));
}

/// Appends every byte of `src`.
pub fn push_all(out: &mut Vec<u8>, src: &[u8])
    ensures
        final(out)@ == old(out)@ + src@,
{
    let ghost start = out@;
    let mut i: usize = 0;
    while i < src.len()
        invariant
            i <= src@.len(),
            out@ == start + src@.subrange(0, i as int),
        decreases src@.len() - i,
    {
        out.push(src[i]);
        i += 1;
        assert(out@ =~= start + src@.subrange(0, i as int));
    }
    assert(src@.subrange(0, src@.len() as int) =~= src@);
}

/// A fresh vector holding the bytes of `s[from..to]`.
pub fn copy_range(s: &[u8], from: usize, to: usize) -> (r: Vec<u8>)
    requires
        from <= to <= s@.len(),
    ensures
        r@ == s@.subrange(from as int, to as int),
{
    let mut out: Vec<u8> = Vec::new();
    push_all(&mut out, &s[from..to]);
    assert(out@ =~= s@.subrange(from as int, to as int));
    out
}

/// Overwrites the front of `buf` with `src`, reporting the bytes written;
/// fails without touching `buf` when `buf` is shorter than `src`.
pub fn write_prefix(buf: &mut Vec<u8>, src: &[u8]) -> (r: Result<usize, crate::error::Error>)
    ensures
        old(buf)@.len() < src@.len() ==> r == Err::<usize, crate::error::Error>(
            crate::error::Error::OutputBufferTooSmall { need: src@.len() as usize, have: old(buf)@.len() as usize },
        ) && final(buf)@ == old(buf)@,
        old(buf)@.len() >= src@.len() ==> r == Ok::<usize, crate::error::Error>(src@.len() as usize)
            && final(buf)@ == src@ + old(buf)@.subrange(src@.len() as int, old(buf)@.len() as int),
{
    if buf.len() < src.len() {
        return Err(crate::error::Error::OutputBufferTooSmall { need: src.len(), have: buf.len() });
    }
    let ghost start = buf@;
    let mut i: usize = 0;
    while i < src.len()
        invariant
            i <= src@.len() <= start.len(),
            buf@.len() == start.len(),
            buf@ == src@.subrange(0, i as int) + start.subrange(i as int, start.len() as int),
        decreases src@.len() - i,
    {
        buf.set(i, src[i]);
        i += 1;
        assert(buf@ =~= src@.subrange(0, i as int) + start.subrange(i as int, start.len() as int));
    }
    assert(src@.subrange(0, src@.len() as int) =~= src@);
    Ok(src.len())
}

/// A window of a window: where `b[lo..hi]` is `p`, `b[lo+i..lo+j]` is `p[i..j]`.
pub proof fn lemma_subrange_of(b: Seq<u8>, lo: int, hi: int, p: Seq<u8>, i: int, j: int)
    requires
        0 <= lo <= hi <= b.len(),
        b.subrange(lo, hi) == p,
        0 <= i <= j <= p.len(),
    ensures
        b.subrange(lo + i, lo + j) == p.subrange(i, j),
{
    assert forall|k: int| 0 <= k < j - i implies b.subrange(lo + i, lo + j)[k] == p.subrange(i, j)[k] by {
        assert(b.subrange(lo, hi)[i + k] == b[lo + i + k]);
    }
    assert(b.subrange(lo + i, lo + j) =~= p.subrange(i, j));
}

/// The low 32 bits of `n + k`: a box size field as written for an encoding
/// of `n + k` bytes.
pub fn size_field(n: usize, k: u32) -> (r: u32)
    ensures
        r == (n + k) as u32,
{
    let lo = n as u32;
    let r = lo.wrapping_add(k);
    assert(r == (n + k) as u32) by (bit_vector)
        requires
            lo == n as u32,
            r == (if lo + k > u32::MAX {
                (lo + k - 0x1_0000_0000) as u32
            } else {
                (lo + k) as u32
            }),
    ;
    r
}

/// The low 32 bits of `a`.
pub fn trunc32(a: u128) -> (r: u32)
    ensures
        r == a as u32,
{
    let r = (a % 0x1_0000_0000u128) as u32;
    assert(r == a as u32) by (bit_vector)
        requires
            r == (a % 0x1_0000_0000u128) as u32,
    ;
    r
}

} // verus!
