//! KLV (Key-Length-Value) timed metadata: SMPTE ST 336 framing, BER lengths,
//! BER-OID tags, CRC-16/CCITT and the MISB ST 0601 UAS Datalink Local Set.
use vstd::prelude::*;
use crate::bytes::{be16, be_value, copy_range, get16, get64, push16, push_all, read16, read64, sat, write_prefix};
use crate::error::Error;

verus! {

/// Length of a SMPTE Universal Label key, in bytes.
pub const UNIVERSAL_LABEL_LEN: usize = 16;

/// The MISB ST 0601 UAS Datalink Local Set Universal Label.
pub const UAS_LS_KEY: [u8; 16] = [
    0x06, 0x0E, 0x2B, 0x34, 0x02, 0x0B, 0x01, 0x01, 0x0E, 0x01, 0x03, 0x01, 0x01, 0x00, 0x00, 0x00,
];

/// MISB ST 0601 tag 1: Checksum, the last Local Set item.
pub const TAG_CHECKSUM: u32 = 1;
/// The Checksum value length in bytes.
pub const CHECKSUM_LEN: usize = 2;
/// MISB ST 0601 tag 2: Precision Time Stamp, the first Local Set item.
pub const TAG_PRECISION_TIMESTAMP: u32 = 2;
/// The Precision Time Stamp value length in bytes.
pub const PRECISION_TIMESTAMP_LEN: usize = 8;

// ---------------------------------------------------------------------------
// BER length
// ---------------------------------------------------------------------------

/// Minimal big-endian bytes of `v` (one byte for values below 256).
pub open spec fn be_min(v: nat) -> Seq<u8>
    decreases v,
{
    if v < 256 {
        seq![v as u8]
    } else {
        be_min(v / 256).push((v % 256) as u8)
    }
}

/// `256^k`.
pub open spec fn pow256(k: nat) -> nat
    decreases k,
{
    if k == 0 {
        1
    } else {
        256 * pow256((k - 1) as nat)
    }
}

/// BER encoding of a length: the byte itself below 128, otherwise
/// `0x80 | N` followed by the `N` minimal big-endian bytes.
pub open spec fn ber_length_bytes(len: nat) -> Seq<u8> {
    if len < 128 {
        seq![len as u8]
    } else {
        seq![(0x80 + be_min(len).len()) as u8] + be_min(len)
    }
}

/// Outcome of decoding a BER length from the front of `s`: the length and
/// the number of length bytes, or the error.
pub open spec fn spec_ber_length(s: Seq<u8>) -> Result<(usize, usize), Error> {
    if s.len() == 0 {
        Err(Error::BufferTooShort { need: 1, have: 0, what: "BER length first byte" })
    } else if s[0] & 0x80u8 == 0 {
        Ok((s[0] as usize, 1))
    } else if s[0] & 0x7Fu8 == 0 {
        Err(
            Error::InvalidValue {
                field: "ber_length",
                value: s[0] as u64,
                reason: "indefinite BER length form is not permitted in KLV",
            },
        )
    } else if (s[0] & 0x7Fu8) as nat > vstd::layout::size_of::<usize>() {
        Err(
            Error::InvalidValue {
                field: "ber_length",
                value: (s[0] & 0x7Fu8) as u64,
                reason: "BER long-form length exceeds usize width",
            },
        )
    } else if s.len() < 1 + (s[0] & 0x7Fu8) {
        Err(
            Error::BufferTooShort {
                need: (1 + (s[0] & 0x7Fu8)) as usize,
                have: s.len() as usize,
                what: "BER long-form length bytes",
            },
        )
    } else {
        Ok(
            (
                be_value(s.subrange(1, 1 + (s[0] & 0x7Fu8))) as usize,
                (1 + (s[0] & 0x7Fu8)) as usize,
            ),
        )
    }
}

pub proof fn lemma_be_value_bound(s: Seq<u8>)
    ensures
        be_value(s) < pow256(s.len()),
    decreases s.len(),
{
    if s.len() > 0 {
        lemma_be_value_bound(s.drop_last());
        let p = pow256((s.len() - 1) as nat);
        let v = be_value(s.drop_last());
        assert(v * 256 + s.last() < p * 256) by (nonlinear_arith)
            requires
                v < p,
                s.last() < 256,
        ;
    }
}

pub proof fn lemma_be_min_facts(v: nat)
    ensures
        be_value(be_min(v)) == v,
        be_min(v).len() >= 1,
        forall|k: nat| k >= 1 && v < pow256(k) ==> be_min(v).len() <= k,
    decreases v,
{
    if v >= 256 {
        lemma_be_min_facts(v / 256);
        assert(be_min(v).drop_last() =~= be_min(v / 256));
        assert(be_min(v).last() == (v % 256) as u8);
        assert(v == (v / 256) * 256 + v % 256);
        assert forall|k: nat| k >= 1 && v < pow256(k) implies be_min(v).len() <= k by {
            if k == 1 {
                assert(pow256(1) == 256) by {
                    reveal_with_fuel(pow256, 2);
                }
            } else {
                let p = pow256((k - 1) as nat);
                assert(pow256(k) == 256 * p);
                assert(v / 256 < p) by (nonlinear_arith)
                    requires
                        v < 256 * p,
                ;
            }
        }
    } else {
        assert(be_min(v).drop_last() =~= Seq::<u8>::empty());
        assert(be_value(Seq::<u8>::empty()) == 0);
    }
}

pub proof fn lemma_pow256_le(a: nat, b: nat)
    requires
        a <= b,
    ensures
        pow256(a) <= pow256(b),
    decreases b,
{
    if a < b {
        lemma_pow256_le(a, (b - 1) as nat);
    }
}

/// `usize::MAX + 1 == 256^size_of::<usize>()`, with at most eight bytes.
pub proof fn lemma_usize_bytes()
    ensures
        usize::MAX as nat + 1 == pow256(vstd::layout::size_of::<usize>()),
        vstd::layout::size_of::<usize>() == 4 || vstd::layout::size_of::<usize>() == 8,
{
    broadcast use vstd::layout::layout_of_primitives;
    vstd::layout::unsigned_int_max_values();
    reveal_with_fuel(pow256, 9);
    if usize::BITS == 32 {
        assert(vstd::layout::size_of::<usize>() == 4);
        assert(pow256(4) == 0x1_0000_0000);
    } else {
        assert(vstd::layout::size_of::<usize>() == 8);
        assert(pow256(8) == 0x1_0000_0000_0000_0000);
    }
}

/// Encode `len` as a BER length (short form below 128, else minimal long form).
pub fn encode_ber_length(len: usize) -> (r: Vec<u8>)
    ensures
        r@ == ber_length_bytes(len as nat),
{
    let mut out: Vec<u8> = Vec::new();
    if len < 0x80 {
        out.push(len as u8);
        assert(out@ =~= ber_length_bytes(len as nat));
        return out;
    }
    let mut digits: Vec<u8> = Vec::new();
    let mut v: usize = len;
    while v >= 256
        invariant
            be_min(len as nat) == be_min(v as nat) + digits@,
        decreases v,
    {
        let ghost old_digits = digits@;
        digits.insert(0, (v % 256) as u8);
        assert(be_min(v as nat) == be_min((v / 256) as nat).push((v % 256) as u8));
        v = v / 256;
        assert(be_min(len as nat) =~= be_min(v as nat) + digits@);
    }
    digits.insert(0, v as u8);
    assert(digits@ =~= be_min(len as nat));
    proof {
        lemma_be_min_facts(len as nat);
        lemma_usize_bytes();
        lemma_pow256_le(vstd::layout::size_of::<usize>(), 8);
        reveal_with_fuel(pow256, 9);
    }
    let dl = digits.len();
    assert(dl <= 8);
    out.push(0x80u8 | (dl as u8));
    assert(0x80u8 | (dl as u8) == (0x80 + dl) as u8) by (bit_vector)
        requires
            dl <= 8,
    ;
    push_all(&mut out, digits.as_slice());
    assert(out@ =~= ber_length_bytes(len as nat));
    out
}

/// Decode a BER length from the front of `bytes`: `(length, consumed)` where
/// `consumed` counts the length-encoding bytes only.
pub fn ber_length(bytes: &[u8]) -> (r: Result<(usize, usize), Error>)
    ensures
        r == spec_ber_length(bytes@),
{
    if bytes.len() == 0 {
        return Err(Error::BufferTooShort { need: 1, have: 0, what: "BER length first byte" });
    }
    let first = bytes[0];
    if first & 0x80u8 == 0 {
        return Ok((first as usize, 1));
    }
    let n = (first & 0x7Fu8) as usize;
    if n == 0 {
        return Err(
            Error::InvalidValue {
                field: "ber_length",
                value: first as u64,
                reason: "indefinite BER length form is not permitted in KLV",
            },
        );
    }
    if n > core::mem::size_of::<usize>() {
        return Err(
            Error::InvalidValue {
                field: "ber_length",
                value: n as u64,
                reason: "BER long-form length exceeds usize width",
            },
        );
    }
    if bytes.len() < 1 + n {
        return Err(
            Error::BufferTooShort {
                need: 1 + n,
                have: bytes.len(),
                what: "BER long-form length bytes",
            },
        );
    }
    proof {
        lemma_usize_bytes();
    }
    let mut value: usize = 0;
    let mut i: usize = 0;
    while i < n
        invariant
            n <= vstd::layout::size_of::<usize>(),
            1 + n <= bytes@.len(),
            i <= n,
            usize::MAX as nat + 1 == pow256(vstd::layout::size_of::<usize>()),
            value as nat == be_value(bytes@.subrange(1, 1 + i as int)),
        decreases n - i,
    {
        proof {
            lemma_be_value_bound(bytes@.subrange(1, 1 + i as int));
            lemma_pow256_le((i + 1) as nat, vstd::layout::size_of::<usize>());
            let p = pow256(i as nat);
            assert(pow256((i + 1) as nat) == 256 * p);
            assert(value * 256 + 255 < 256 * p) by (nonlinear_arith)
                requires
                    value < p,
            ;
        }
        let b = bytes[1 + i];
        value = value * 256 + b as usize;
        i += 1;
        assert(bytes@.subrange(1, 1 + i as int).drop_last() =~= bytes@.subrange(1, i as int));
    }
    Ok((value, 1 + n))
}

pub proof fn lemma_ber_length_round_trip(len: usize, rest: Seq<u8>)
    ensures
        spec_ber_length(ber_length_bytes(len as nat) + rest) == Ok::<(usize, usize), Error>(
            (len, ber_length_bytes(len as nat).len() as usize),
        ),
{
    let e = ber_length_bytes(len as nat);
    let s = e + rest;
    if len < 128 {
        assert(s[0] == len as u8);
        assert((len as u8) & 0x80u8 == 0u8) by (bit_vector)
            requires
                len < 128,
        ;
    } else {
        lemma_be_min_facts(len as nat);
        lemma_usize_bytes();
        let m = be_min(len as nat);
        let k = m.len();
        assert(k <= vstd::layout::size_of::<usize>()) by {
            assert((len as nat) < pow256(vstd::layout::size_of::<usize>()));
        }
        assert(k <= 8);
        let kk = k as u8;
        let b0 = (0x80 + k) as u8;
        assert(b0 == (0x80 + kk) as u8);
        assert(s[0] == b0);
        assert(b0 & 0x80u8 != 0u8 && (b0 & 0x7Fu8) == kk) by (bit_vector)
            requires
                b0 == (0x80 + kk) as u8,
                1 <= kk <= 8,
        ;
        assert(s.subrange(1, 1 + k as int) =~= m);
    }
}

// ---------------------------------------------------------------------------
// BER-OID tags
// ---------------------------------------------------------------------------

/// Base-128 digits of `v`, most significant first, with the continuation bit
/// set on every digit except the final one when `last` holds.
pub open spec fn oid_bytes(v: nat, last: bool) -> Seq<u8>
    decreases v,
{
    (if v < 128 {
        Seq::<u8>::empty()
    } else {
        oid_bytes(v / 128, false)
    }).push(((v % 128) + if last {
        0nat
    } else {
        0x80nat
    }) as u8)
}

/// BER-OID encoding of a tag.
pub open spec fn ber_oid_bytes(tag: u32) -> Seq<u8> {
    oid_bytes(tag as nat, true)
}

/// Outcome of decoding a BER-OID tag whose accumulated value is `value`
/// after the first `i` bytes of `s`.
pub open spec fn spec_ber_oid_from(s: Seq<u8>, i: nat, value: nat) -> Result<(u32, usize), Error>
    decreases s.len() - i,
{
    if i >= s.len() {
        Err(Error::BufferTooShort { need: sat(i + 1int), have: s.len() as usize, what: "BER-OID tag byte" })
    } else if value > 0x1FF_FFFF {
        Err(
            Error::InvalidValue {
                field: "ber_oid",
                value: value as u64,
                reason: "BER-OID tag exceeds u32 range",
            },
        )
    } else if s[i as int] & 0x80u8 == 0 {
        Ok(((value * 128 + (s[i as int] & 0x7Fu8) as nat) as u32, (i + 1) as usize))
    } else {
        spec_ber_oid_from(s, i + 1, value * 128 + (s[i as int] & 0x7Fu8) as nat)
    }
}

/// Outcome of decoding a BER-OID tag from the front of `s`.
pub open spec fn spec_ber_oid(s: Seq<u8>) -> Result<(u32, usize), Error> {
    spec_ber_oid_from(s, 0, 0)
}

/// Encode `tag` as a BER-OID (base-128, continuation bit on all but the last byte).
pub fn encode_ber_oid(tag: u32) -> (r: Vec<u8>)
    ensures
        r@ == ber_oid_bytes(tag),
{
    let mut out: Vec<u8> = Vec::new();
    if tag < 0x80 {
        out.push(tag as u8);
        assert(out@ =~= ber_oid_bytes(tag));
        return out;
    }
    let mut v: u32 = tag / 128;
    out.push((tag % 128) as u8);
    assert(out@ =~= seq![((tag as nat % 128) + 0nat) as u8]);
    while v > 0
        invariant
            v > 0 ==> ber_oid_bytes(tag) == oid_bytes(v as nat, false) + out@,
            v == 0 ==> ber_oid_bytes(tag) == out@,
        decreases v,
    {
        let d = ((v % 128) + 0x80) as u8;
        assert(d == ((v as nat % 128) + 0x80nat) as u8);
        out.insert(0, d);
        let ghost old_v = v;
        v = v / 128;
        proof {
            if v > 0 {
                assert(oid_bytes(old_v as nat, false) =~= oid_bytes(v as nat, false).push(d));
            } else {
                assert(oid_bytes(old_v as nat, false) =~= seq![d]);
            }
        }
        assert(v > 0 ==> ber_oid_bytes(tag) =~= oid_bytes(v as nat, false) + out@);
        assert(v == 0 ==> ber_oid_bytes(tag) =~= out@);
    }
    out
}

/// Decode a BER-OID tag from the front of `bytes`: `(tag, consumed)`.
pub fn ber_oid(bytes: &[u8]) -> (r: Result<(u32, usize), Error>)
    ensures
        r == spec_ber_oid(bytes@),
{
    let mut value: u32 = 0;
    let mut consumed: usize = 0;
    loop
        invariant
            consumed <= bytes@.len(),
            spec_ber_oid(bytes@) == spec_ber_oid_from(bytes@, consumed as nat, value as nat),
        decreases bytes@.len() - consumed,
    {
        if consumed >= bytes.len() {
            return Err(
                Error::BufferTooShort {
                    need: consumed.saturating_add(1),
                    have: bytes.len(),
                    what: "BER-OID tag byte",
                },
            );
        }
        let b = bytes[consumed];
        if value > 0x1FF_FFFF {
            return Err(
                Error::InvalidValue {
                    field: "ber_oid",
                    value: value as u64,
                    reason: "BER-OID tag exceeds u32 range",
                },
            );
        }
        assert(b & 0x7Fu8 <= 0x7Fu8) by (bit_vector);
        value = value * 128 + (b & 0x7Fu8) as u32;
        consumed += 1;
        if b & 0x80u8 == 0 {
            return Ok((value, consumed));
        }
    }
}

pub proof fn lemma_oid_bytes_len(v: nat, last: bool)
    ensures
        oid_bytes(v, last).len() >= 1,
        forall|k: nat| k >= 1 && v < pow128(k) ==> oid_bytes(v, last).len() <= k,
    decreases v,
{
    if v >= 128 {
        lemma_oid_bytes_len(v / 128, false);
        assert forall|k: nat| k >= 1 && v < pow128(k) implies oid_bytes(v, last).len() <= k by {
            if k == 1 {
                assert(pow128(1) == 128) by {
                    reveal_with_fuel(pow128, 2);
                }
            } else {
                let p = pow128((k - 1) as nat);
                assert(pow128(k) == 128 * p);
                assert(v / 128 < p) by (nonlinear_arith)
                    requires
                        v < 128 * p,
                ;
            }
        }
    }
}

/// Bit facts about one base-128 digit byte.
proof fn lemma_oid_digit(x: u8)
    requires
        x < 128,
    ensures
        x & 0x80u8 == 0u8,
        x & 0x7Fu8 == x,
        ((x + 128) as u8) & 0x80u8 != 0u8,
        ((x + 128) as u8) & 0x7Fu8 == x,
{
    assert(x < 128 ==> x & 0x80u8 == 0u8 && x & 0x7Fu8 == x && ((x + 128) as u8) & 0x80u8 != 0u8
        && ((x + 128) as u8) & 0x7Fu8 == x) by (bit_vector);
}

/// Decoding the digits `oid_bytes(v, last)` placed at `s[i..]`, starting from an
/// accumulated value `acc`, either finishes (final digit) or resumes after them.
pub proof fn lemma_ber_oid_digits(v: nat, last: bool, s: Seq<u8>, i: nat, acc: nat)
    requires
        i + oid_bytes(v, last).len() <= s.len(),
        s.subrange(i as int, (i + oid_bytes(v, last).len()) as int) == oid_bytes(v, last),
        acc * pow128(oid_bytes(v, last).len()) + v <= 0xFFFF_FFFF,
    ensures
        last ==> spec_ber_oid_from(s, i, acc) == Ok::<(u32, usize), Error>(
            (
                (acc * pow128(oid_bytes(v, last).len()) + v) as u32,
                (i + oid_bytes(v, last).len()) as usize,
            ),
        ),
        !last ==> spec_ber_oid_from(s, i, acc) == spec_ber_oid_from(
            s,
            i + oid_bytes(v, last).len(),
            acc * pow128(oid_bytes(v, last).len()) + v,
        ),
    decreases v,
{
    let e = oid_bytes(v, last);
    let len = e.len();
    let x = (v % 128) as u8;
    lemma_oid_digit(x);
    if v < 128 {
        assert(len == 1);
        assert(pow128(1) == 128) by {
            reveal_with_fuel(pow128, 2);
        }
        assert(s[i as int] == e[0]);
        assert(acc <= 0x1FF_FFFF) by (nonlinear_arith)
            requires
                acc * 128 + v <= 0xFFFF_FFFF,
        ;
        if last {
            assert(e[0] == x);
        } else {
            assert(e[0] == (x + 128) as u8);
        }
        assert(v % 128 == v);
    } else {
        let p = oid_bytes(v / 128, false);
        let pl = p.len();
        lemma_oid_bytes_len(v / 128, false);
        assert(e =~= p.push(e.last()));
        assert(len == pl + 1);
        let pp = pow128(pl);
        assert(pow128(len) == 128 * pp);
        let acc2 = acc * pp + v / 128;
        assert(acc * (128 * pp) + v == acc2 * 128 + v % 128) by (nonlinear_arith)
            requires
                acc2 == acc * pp + v / 128,
                v == (v / 128) * 128 + v % 128,
        ;
        assert(acc * pp + v / 128 <= 0xFFFF_FFFF) by (nonlinear_arith)
            requires
                acc2 * 128 + v % 128 <= 0xFFFF_FFFF,
                acc2 == acc * pp + v / 128,
        ;
        assert(s.subrange(i as int, (i + pl) as int) =~= p) by {
            assert forall|j: int| 0 <= j < pl implies s.subrange(i as int, (i + pl) as int)[j] == p[j] by {
                assert(s.subrange(i as int, (i + len) as int)[j] == e[j]);
            }
        }
        lemma_ber_oid_digits(v / 128, false, s, i, acc);
        let j = i + pl;
        assert(s[j as int] == e[pl as int]);
        assert(acc2 <= 0x1FF_FFFF) by (nonlinear_arith)
            requires
                acc2 * 128 + v % 128 <= 0xFFFF_FFFF,
        ;
        if last {
            assert(e[pl as int] == x);
        } else {
            assert(e[pl as int] == (x + 128) as u8);
        }
    }
}

/// Decoding an encoded tag gives back the tag and the encoding's length,
/// whatever follows it.
pub proof fn lemma_ber_oid_round_trip(tag: u32, rest: Seq<u8>)
    ensures
        spec_ber_oid(ber_oid_bytes(tag) + rest) == Ok::<(u32, usize), Error>(
            (tag, ber_oid_bytes(tag).len() as usize),
        ),
{
    let e = ber_oid_bytes(tag);
    let s = e + rest;
    assert(s.subrange(0, e.len() as int) =~= e);
    lemma_ber_oid_digits(tag as nat, true, s, 0, 0);
}

/// `128^k`.
pub open spec fn pow128(k: nat) -> nat
    decreases k,
{
    if k == 0 {
        1
    } else {
        128 * pow128((k - 1) as nat)
    }
}

// ---------------------------------------------------------------------------
// CRC-16/CCITT
// ---------------------------------------------------------------------------

/// One bit step of CRC-16/CCITT (polynomial 0x1021, MSB first).
pub open spec fn crc_bit(crc: u16) -> u16 {
    if crc & 0x8000u16 != 0 {
        (crc << 1u16) ^ 0x1021u16
    } else {
        crc << 1u16
    }
}

/// `k` bit steps of CRC-16/CCITT.
pub open spec fn crc_bits(crc: u16, k: nat) -> u16
    decreases k,
{
    if k == 0 {
        crc
    } else {
        crc_bits(crc_bit(crc), (k - 1) as nat)
    }
}

/// The CRC register after absorbing one byte.
pub open spec fn crc_byte(crc: u16, b: u8) -> u16 {
    crc_bits(crc ^ ((b as u16) << 8u16), 8)
}

/// CRC-16/CCITT-FALSE (init 0xFFFF, no reflection, no final XOR) of `data`.
pub open spec fn crc16_of(data: Seq<u8>) -> u16
    decreases data.len(),
{
    if data.len() == 0 {
        0xFFFF
    } else {
        crc_byte(crc16_of(data.drop_last()), data.last())
    }
}

/// CRC-16/CCITT (poly `0x1021`, init `0xFFFF`, no reflection, no final XOR):
/// the MISB ST 0601 tag 1 Checksum.
pub fn crc16_ccitt(data: &[u8]) -> (r: u16)
    ensures
        r == crc16_of(data@),
{
    let mut crc: u16 = 0xFFFF;
    let mut i: usize = 0;
    while i < data.len()
        invariant
            i <= data@.len(),
            crc == crc16_of(data@.subrange(0, i as int)),
        decreases data@.len() - i,
    {
        let ghost start = crc ^ ((data[i as int] as u16) << 8u16);
        crc = crc ^ ((data[i] as u16) << 8u16);
        let mut k: usize = 0;
        while k < 8
            invariant
                k <= 8,
                crc_bits(start, 8) == crc_bits(crc, (8 - k) as nat),
            decreases 8 - k,
        {
            if crc & 0x8000u16 != 0 {
                crc = (crc << 1u16) ^ 0x1021u16;
            } else {
                crc = crc << 1u16;
            }
            k += 1;
        }
        i += 1;
        assert(data@.subrange(0, i as int).drop_last() =~= data@.subrange(0, i - 1));
    }
    assert(data@.subrange(0, data@.len() as int) =~= data@);
    crc
}


// ---------------------------------------------------------------------------
// KlvItem: a 16-byte Universal Label key + value
// ---------------------------------------------------------------------------

/// A single generic KLV triplet: a 16-byte Universal Label key and its value.
/// The BER length is computed from the value on serialization.
#[derive(Debug, Clone, PartialEq, Eq)]
pub struct KlvItem {
    /// The 16-byte SMPTE Universal Label key.
    pub key: [u8; 16],
    /// The raw value bytes.
    pub value: Vec<u8>,
}

/// Outcome of parsing one KLV triplet from the front of `s`: key and value.
pub open spec fn spec_klv_item(s: Seq<u8>) -> Result<(Seq<u8>, Seq<u8>), Error> {
    if s.len() < 16 {
        Err(Error::BufferTooShort { need: 16, have: s.len() as usize, what: "KLV Universal Label key" })
    } else {
        match spec_ber_length(s.skip(16)) {
            Err(e) => Err(e),
            Ok((len, consumed)) => {
                let vs = 16 + consumed;
                let ve = vs + len;
                if s.len() < ve {
                    Err(Error::BufferTooShort { need: sat(ve), have: s.len() as usize, what: "KLV item value" })
                } else {
                    Ok((s.take(16), s.subrange(vs, ve)))
                }
            },
        }
    }
}

impl KlvItem {
    /// Wire encoding: key, BER length of the value, value.
    pub open spec fn spec_bytes(&self) -> Seq<u8> {
        self.key@ + ber_length_bytes(self.value@.len()) + self.value@
    }

    /// Build a KLV item from a Universal Label key and owned value bytes.
    pub fn new(key: [u8; 16], value: Vec<u8>) -> (r: Self)
        ensures
            r.key == key,
            r.value == value,
    {
        Self { key, value }
    }

    /// Parse one KLV triplet from the front of `bytes` (trailing bytes ignored).
    pub fn parse(bytes: &[u8]) -> (r: Result<Self, Error>)
        ensures
            match spec_klv_item(bytes@) {
                Ok((k, v)) => r matches Ok(x) && x.key@ == k && x.value@ == v,
                Err(e) => r == Err::<Self, Error>(e),
            },
    {
        if bytes.len() < 16 {
            return Err(
                Error::BufferTooShort { need: 16, have: bytes.len(), what: "KLV Universal Label key" },
            );
        }
        let key: [u8; 16] = [
            bytes[0], bytes[1], bytes[2], bytes[3], bytes[4], bytes[5], bytes[6], bytes[7],
            bytes[8], bytes[9], bytes[10], bytes[11], bytes[12], bytes[13], bytes[14], bytes[15],
        ];
        assert(key@ =~= bytes@.take(16));
        let (len, consumed) = match ber_length(&bytes[16..bytes.len()]) {
            Ok(p) => p,
            Err(e) => {
                assert(bytes@.subrange(16, bytes@.len() as int) =~= bytes@.skip(16));
                return Err(e);
            },
        };
        assert(bytes@.subrange(16, bytes@.len() as int) =~= bytes@.skip(16));
        let vs = 16 + consumed;
        let ve = match vs.checked_add(len) {
            Some(v) => v,
            None => {
                return Err(
                    Error::BufferTooShort { need: usize::MAX, have: bytes.len(), what: "KLV item value" },
                );
            },
        };
        if bytes.len() < ve {
            return Err(Error::BufferTooShort { need: ve, have: bytes.len(), what: "KLV item value" });
        }
        Ok(Self { key, value: copy_range(bytes, vs, ve) })
    }

    /// Length of the wire encoding.
    pub fn serialized_len(&self) -> (r: usize)
        requires
            self.spec_bytes().len() <= usize::MAX,
        ensures
            r == self.spec_bytes().len(),
    {
        let ber = encode_ber_length(self.value.len());
        16 + ber.len() + self.value.len()
    }

    /// The wire encoding as a fresh vector.
    pub fn to_bytes(&self) -> (r: Vec<u8>)
        ensures
            r@ == self.spec_bytes(),
    {
        let mut out: Vec<u8> = Vec::new();
        push_all(&mut out, &self.key);
        let ber = encode_ber_length(self.value.len());
        push_all(&mut out, ber.as_slice());
        push_all(&mut out, self.value.as_slice());
        out
    }

    /// Write the wire encoding to the front of `buf`, returning its length.
    pub fn serialize_into(&self, buf: &mut Vec<u8>) -> (r: Result<usize, Error>)
        ensures
            old(buf)@.len() < self.spec_bytes().len() ==> r == Err::<usize, Error>(
                Error::OutputBufferTooSmall { need: self.spec_bytes().len() as usize, have: old(buf)@.len() as usize },
            ) && final(buf)@ == old(buf)@,
            old(buf)@.len() >= self.spec_bytes().len() ==> r == Ok::<usize, Error>(self.spec_bytes().len() as usize)
                && final(buf)@ == self.spec_bytes() + old(buf)@.skip(self.spec_bytes().len() as int),
    {
        let bytes = self.to_bytes();
        let r = write_prefix(buf, bytes.as_slice());
        proof {
            if old(buf)@.len() >= self.spec_bytes().len() {
                assert(old(buf)@.subrange(self.spec_bytes().len() as int, old(buf)@.len() as int) =~= old(buf)@.skip(self.spec_bytes().len() as int));
            }
        }
        r
    }
}

/// Parsing a serialized KLV triplet gives back its key and value.
pub proof fn lemma_klv_item_round_trip(item: KlvItem, rest: Seq<u8>)
    requires
        item.spec_bytes().len() + rest.len() <= usize::MAX,
    ensures
        spec_klv_item(item.spec_bytes() + rest) == Ok::<(Seq<u8>, Seq<u8>), Error>((item.key@, item.value@)),
{
    let s = item.spec_bytes() + rest;
    let ber = ber_length_bytes(item.value@.len());
    assert(s.skip(16) =~= ber + (item.value@ + rest));
    lemma_ber_length_round_trip(item.value@.len() as usize, item.value@ + rest);
    assert(s.take(16) =~= item.key@);
    assert(s.subrange(16 + ber.len() as int, 16 + ber.len() + item.value@.len() as int) =~= item.value@);
}

// ---------------------------------------------------------------------------
// Local Set items
// ---------------------------------------------------------------------------

/// One item inside a KLV Local Set: a BER-OID tag and a value.
#[derive(Debug, Clone, PartialEq, Eq)]
pub struct LocalSetItem {
    /// The BER-OID tag (item key within the Local Set).
    pub tag: u32,
    /// The raw value bytes.
    pub value: Vec<u8>,
}

/// Encoding of one Local Set item: OID tag, BER length, value.
pub open spec fn ls_item_bytes(tag: u32, value: Seq<u8>) -> Seq<u8> {
    ber_oid_bytes(tag) + ber_length_bytes(value.len()) + value
}

/// The `(tag, value)` view of a sequence of items.
pub open spec fn ls_view(items: Seq<LocalSetItem>) -> Seq<(u32, Seq<u8>)> {
    items.map_values(|i: LocalSetItem| (i.tag, i.value@))
}

impl LocalSetItem {
    /// Build a Local Set item from a tag and owned value bytes.
    pub fn new(tag: u32, value: Vec<u8>) -> (r: Self)
        ensures
            r.tag == tag,
            r.value == value,
    {
        Self { tag, value }
    }

    /// Bytes this item occupies inside the Local Set value.
    fn encoded_len(&self) -> (r: usize)
        requires
            ls_item_bytes(self.tag, self.value@).len() <= usize::MAX,
        ensures
            r == ls_item_bytes(self.tag, self.value@).len(),
    {
        encode_ber_oid(self.tag).len() + encode_ber_length(self.value.len()).len() + self.value.len()
    }

    /// Append this item's `tag | BER-length | value` encoding to `out`.
    fn encode_into(&self, out: &mut Vec<u8>)
        ensures
            final(out)@ == old(out)@ + ls_item_bytes(self.tag, self.value@),
    {
        let t = encode_ber_oid(self.tag);
        push_all(out, t.as_slice());
        let l = encode_ber_length(self.value.len());
        push_all(out, l.as_slice());
        push_all(out, self.value.as_slice());
        assert(final(out)@ =~= old(out)@ + ls_item_bytes(self.tag, self.value@));
    }
}

pub proof fn lemma_ber_oid_from_consumes(s: Seq<u8>, i: nat, acc: nat)
    requires
        s.len() <= usize::MAX,
    ensures
        spec_ber_oid_from(s, i, acc) matches Ok((_, c)) ==> i < c <= s.len(),
    decreases s.len() - i,
{
    if i < s.len() && acc <= 0x1FF_FFFF && s[i as int] & 0x80u8 != 0 {
        lemma_ber_oid_from_consumes(s, i + 1, acc * 128 + (s[i as int] & 0x7Fu8) as nat);
    }
}

pub proof fn lemma_ber_length_consumes(s: Seq<u8>)
    ensures
        spec_ber_length(s) matches Ok((_, c)) ==> 1 <= c <= s.len(),
{
}

/// Outcome of parsing the concatenated Local Set items of `b`.
pub open spec fn spec_ls_items(b: Seq<u8>) -> Result<Seq<(u32, Seq<u8>)>, Error>
    decreases b.len(),
{
    if b.len() == 0 {
        Ok(Seq::empty())
    } else {
        match spec_ber_oid(b) {
            Err(e) => Err(e),
            Ok((tag, tl)) => match spec_ber_length(b.skip(tl as int)) {
                Err(e) => Err(e),
                Ok((vl, ll)) => {
                    let ve = tl + ll + vl;
                    if b.len() < ve {
                        Err(
                            Error::BufferTooShort {
                                need: sat(ve),
                                have: b.len() as usize,
                                what: "KLV Local Set item value",
                            },
                        )
                    } else {
                        proof {
                            lemma_ber_length_consumes(b.skip(tl as int));
                        }
                        match spec_ls_items(b.skip(ve)) {
                            Err(e) => Err(e),
                            Ok(rest) => Ok(seq![(tag, b.subrange(tl + ll, ve))] + rest),
                        }
                    }
                },
            },
        }
    }
}

/// Parse the concatenated `tag + BER-length + value` items of a Local Set value.
fn parse_local_set_items(body: &[u8]) -> (r: Result<Vec<LocalSetItem>, Error>)
    ensures
        match spec_ls_items(body@) {
            Ok(v) => r matches Ok(items) && ls_view(items@) == v,
            Err(e) => r == Err::<Vec<LocalSetItem>, Error>(e),
        },
{
    let mut items: Vec<LocalSetItem> = Vec::new();
    let mut rest: &[u8] = body;
    while rest.len() > 0
        invariant
            spec_ls_items(body@) == match spec_ls_items(rest@) {
                Ok(v) => Ok(ls_view(items@) + v),
                Err(e) => Err(e),
            },
        decreases rest@.len(),
    {
        let (tag, tl) = match ber_oid(rest) {
            Ok(p) => p,
            Err(e) => {
                return Err(e);
            },
        };
        proof {
            lemma_ber_oid_from_consumes(rest@, 0, 0);
        }
        let (vl, ll) = match ber_length(&rest[tl..rest.len()]) {
            Ok(p) => p,
            Err(e) => {
                assert(rest@.subrange(tl as int, rest@.len() as int) =~= rest@.skip(tl as int));
                return Err(e);
            },
        };
        assert(rest@.subrange(tl as int, rest@.len() as int) =~= rest@.skip(tl as int));
        let vs = tl + ll;
        let ve = match vs.checked_add(vl) {
            Some(v) => v,
            None => {
                return Err(
                    Error::BufferTooShort {
                        need: usize::MAX,
                        have: rest.len(),
                        what: "KLV Local Set item value",
                    },
                );
            },
        };
        if rest.len() < ve {
            return Err(
                Error::BufferTooShort { need: ve, have: rest.len(), what: "KLV Local Set item value" },
            );
        }
        let ghost old_items = items@;
        let ghost old_rest = rest@;
        items.push(LocalSetItem { tag, value: copy_range(rest, vs, ve) });
        assert(ls_view(items@) =~= ls_view(old_items) + seq![(tag, rest@.subrange(vs as int, ve as int))]);
        rest = &rest[ve..rest.len()];
        assert(rest@ =~= old_rest.skip(ve as int));
        proof {
            let x = (tag, old_rest.subrange(vs as int, ve as int));
            assert(spec_ls_items(old_rest) == match spec_ls_items(rest@) {
                Ok(v) => Ok(seq![x] + v),
                Err(e) => Err::<Seq<(u32, Seq<u8>)>, Error>(e),
            });
            match spec_ls_items(rest@) {
                Ok(v) => {
                    assert(ls_view(old_items) + (seq![x] + v) =~= ls_view(items@) + v);
                },
                Err(_) => {},
            }
        }
    }
    assert(ls_view(items@) + Seq::<(u32, Seq<u8>)>::empty() =~= ls_view(items@));
    Ok(items)
}


/// Concatenated encodings of Local Set items, in order.
pub open spec fn ls_concat(items: Seq<(u32, Seq<u8>)>) -> Seq<u8>
    decreases items.len(),
{
    if items.len() == 0 {
        Seq::empty()
    } else {
        ls_item_bytes(items[0].0, items[0].1) + ls_concat(items.skip(1))
    }
}

/// The items whose tag is not the Checksum tag, in order.
pub open spec fn without_checksum(items: Seq<(u32, Seq<u8>)>) -> Seq<(u32, Seq<u8>)>
    decreases items.len(),
{
    if items.len() == 0 {
        Seq::empty()
    } else if items[0].0 == TAG_CHECKSUM {
        without_checksum(items.skip(1))
    } else {
        seq![items[0]] + without_checksum(items.skip(1))
    }
}

/// The value of the first item carrying `tag`, if any.
pub open spec fn find_tag(items: Seq<(u32, Seq<u8>)>, tag: u32) -> Option<Seq<u8>>
    decreases items.len(),
{
    if items.len() == 0 {
        None
    } else if items[0].0 == tag {
        Some(items[0].1)
    } else {
        find_tag(items.skip(1), tag)
    }
}

pub proof fn lemma_ls_concat_one(x: (u32, Seq<u8>))
    ensures
        ls_concat(seq![x]) == ls_item_bytes(x.0, x.1),
{
    assert(seq![x].skip(1) =~= Seq::<(u32, Seq<u8>)>::empty());
    assert(ls_concat(seq![x]) =~= ls_item_bytes(x.0, x.1) + ls_concat(Seq::<(u32, Seq<u8>)>::empty()));
}

pub proof fn lemma_without_checksum_one(x: (u32, Seq<u8>))
    ensures
        without_checksum(seq![x]) == (if x.0 == TAG_CHECKSUM {
            Seq::<(u32, Seq<u8>)>::empty()
        } else {
            seq![x]
        }),
{
    assert(seq![x].skip(1) =~= Seq::<(u32, Seq<u8>)>::empty());
    let e = without_checksum(Seq::<(u32, Seq<u8>)>::empty());
    assert(e =~= Seq::<(u32, Seq<u8>)>::empty());
    assert(seq![x] + e =~= seq![x]);
}

pub proof fn lemma_ls_concat_add(a: Seq<(u32, Seq<u8>)>, b: Seq<(u32, Seq<u8>)>)
    ensures
        ls_concat(a + b) == ls_concat(a) + ls_concat(b),
    decreases a.len(),
{
    if a.len() == 0 {
        assert(a + b =~= b);
        assert(ls_concat(a) + ls_concat(b) =~= ls_concat(b));
    } else {
        assert((a + b).skip(1) =~= a.skip(1) + b);
        lemma_ls_concat_add(a.skip(1), b);
        assert((a + b)[0] == a[0]);
        assert(ls_concat(a + b) =~= ls_concat(a) + ls_concat(b));
    }
}

pub proof fn lemma_without_checksum_add(a: Seq<(u32, Seq<u8>)>, b: Seq<(u32, Seq<u8>)>)
    ensures
        without_checksum(a + b) == without_checksum(a) + without_checksum(b),
    decreases a.len(),
{
    if a.len() == 0 {
        assert(a + b =~= b);
        assert(without_checksum(a) + without_checksum(b) =~= without_checksum(b));
    } else {
        assert((a + b).skip(1) =~= a.skip(1) + b);
        lemma_without_checksum_add(a.skip(1), b);
        assert((a + b)[0] == a[0]);
        assert(without_checksum(a + b) =~= without_checksum(a) + without_checksum(b));
    }
}

/// Parsing concatenated item encodings gives back the items.
pub proof fn lemma_ls_items_round_trip(items: Seq<(u32, Seq<u8>)>)
    requires
        ls_concat(items).len() <= usize::MAX,
    ensures
        spec_ls_items(ls_concat(items)) == Ok::<Seq<(u32, Seq<u8>)>, Error>(items),
    decreases items.len(),
{
    if items.len() > 0 {
        let tag = items[0].0;
        let v = items[0].1;
        let b = ls_concat(items);
        let rest = ls_concat(items.skip(1));
        let t = ber_oid_bytes(tag);
        let l = ber_length_bytes(v.len());
        assert(b =~= t + (l + v + rest));
        lemma_ber_oid_round_trip(tag, l + v + rest);
        assert(spec_ber_oid(b) == Ok::<(u32, usize), Error>((tag, t.len() as usize)));
        assert(b.skip(t.len() as int) =~= l + (v + rest));
        assert(v.len() <= usize::MAX);
        lemma_ber_length_round_trip(v.len() as usize, v + rest);
        assert(spec_ber_length(b.skip(t.len() as int)) == Ok::<(usize, usize), Error>(
            (v.len() as usize, l.len() as usize),
        ));
        let ve = t.len() + l.len() + v.len();
        lemma_oid_bytes_len(tag as nat, true);
        assert(b.len() >= ve);
        assert(b.len() > 0);
        assert(b.skip(ve as int) =~= rest);
        assert(b.subrange(t.len() + l.len() as int, ve as int) =~= v);
        lemma_ls_items_round_trip(items.skip(1));
        assert(spec_ls_items(b) == Ok::<Seq<(u32, Seq<u8>)>, Error>(seq![(tag, v)] + items.skip(1)));
        assert(seq![(tag, v)] + items.skip(1) =~= items);
    } else {
        assert(items =~= Seq::<(u32, Seq<u8>)>::empty());
    }
}

/// Outcome of verifying the trailing CRC of a serialized UAS Local Set.
pub open spec fn spec_verify_checksum(packet: Seq<u8>) -> Result<bool, Error> {
    if packet.len() < 19 {
        Err(Error::BufferTooShort { need: 19, have: packet.len() as usize, what: "UAS Local Set checksum" })
    } else {
        Ok(crc16_of(packet.take(packet.len() - 2)) == get16(packet, packet.len() - 2))
    }
}

/// The Local Set value section up to (not including) the two CRC bytes:
/// the non-checksum items, then the checksum item's tag and length.
pub open spec fn uas_value_prefix(items: Seq<(u32, Seq<u8>)>) -> Seq<u8> {
    ls_concat(without_checksum(items)) + ber_oid_bytes(TAG_CHECKSUM) + ber_length_bytes(
        CHECKSUM_LEN as nat,
    )
}

/// The packet up to (not including) the two CRC bytes.
pub open spec fn uas_crc_input(items: Seq<(u32, Seq<u8>)>) -> Seq<u8> {
    UAS_LS_KEY@ + ber_length_bytes(uas_value_prefix(items).len() + 2) + uas_value_prefix(items)
}

/// The full serialized UAS Local Set with its computed CRC.
pub open spec fn uas_packet(items: Seq<(u32, Seq<u8>)>) -> Seq<u8> {
    uas_crc_input(items) + be16(crc16_of(uas_crc_input(items)))
}

/// Outcome of parsing a UAS Local Set packet into its items.
pub open spec fn spec_parse_uas(s: Seq<u8>) -> Result<Seq<(u32, Seq<u8>)>, Error> {
    match spec_klv_item(s) {
        Err(e) => Err(e),
        Ok((key, value)) => if key != UAS_LS_KEY@ {
            Err(
                Error::InvalidValue {
                    field: "uas_ls_key",
                    value: key[0] as u64,
                    reason: "not the MISB ST 0601 UAS Datalink Local Set Universal Label",
                },
            )
        } else {
            spec_ls_items(value)
        },
    }
}

/// A MISB ST 0601 UAS Datalink Local Set packet: the [`UAS_LS_KEY`] Universal
/// Label wrapping a sequence of [`LocalSetItem`]s. The outer BER length and
/// the tag-1 Checksum are computed on serialization.
#[derive(Debug, Clone, PartialEq, Eq)]
pub struct UasLocalSet {
    /// The Local Set items, in wire order.
    pub items: Vec<LocalSetItem>,
}

fn label_eq(a: &[u8; 16], b: &[u8; 16]) -> (r: bool)
    ensures
        r == (a@ == b@),
{
    let mut i: usize = 0;
    while i < 16
        invariant
            i <= 16,
            a@.len() == 16,
            b@.len() == 16,
            forall|j: int| 0 <= j < i ==> a@[j] == b@[j],
        decreases 16 - i,
    {
        if a[i] != b[i] {
            return false;
        }
        i += 1;
    }
    assert(a@ =~= b@);
    true
}

impl UasLocalSet {
    /// The `(tag, value)` view of the items.
    pub open spec fn view_items(&self) -> Seq<(u32, Seq<u8>)> {
        ls_view(self.items@)
    }

    /// Build an empty UAS Local Set.
    pub fn new() -> (r: Self)
        ensures
            r.items@.len() == 0,
    {
        Self { items: Vec::new() }
    }

    /// Build a UAS Local Set from items (as parsed or assembled).
    pub fn from_items(items: Vec<LocalSetItem>) -> (r: Self)
        ensures
            r.items == items,
    {
        Self { items }
    }

    /// The value of the first item with `tag`, if any.
    fn find(&self, tag: u32) -> (r: Option<&Vec<u8>>)
        ensures
            match find_tag(self.view_items(), tag) {
                Some(v) => r matches Some(x) && x@ == v,
                None => r is None,
            },
    {
        let mut i: usize = 0;
        assert(self.view_items().skip(0) =~= self.view_items());
        while i < self.items.len()
            invariant
                i <= self.items@.len(),
                find_tag(self.view_items(), tag) == find_tag(self.view_items().skip(i as int), tag),
            decreases self.items@.len() - i,
        {
            let ghost rest = self.view_items().skip(i as int);
            assert(rest.skip(1) =~= self.view_items().skip(i + 1));
            if self.items[i].tag == tag {
                return Some(&self.items[i].value);
            }
            i += 1;
        }
        None
    }

    /// The Precision Time Stamp (tag 2), if present and 8 bytes long:
    /// microseconds since the POSIX epoch.
    pub fn precision_timestamp(&self) -> (r: Option<u64>)
        ensures
            r == match find_tag(self.view_items(), TAG_PRECISION_TIMESTAMP) {
                Some(v) => if v.len() == 8 {
                    Some(get64(v, 0))
                } else {
                    None
                },
                None => None,
            },
    {
        let item = self.find(TAG_PRECISION_TIMESTAMP)?;
        if item.len() != PRECISION_TIMESTAMP_LEN {
            return None;
        }
        Some(read64(item.as_slice(), 0))
    }

    /// The Checksum (tag 1) value carried in the set, if present and 2 bytes long.
    pub fn stored_checksum(&self) -> (r: Option<u16>)
        ensures
            r == match find_tag(self.view_items(), TAG_CHECKSUM) {
                Some(v) => if v.len() == 2 {
                    Some(get16(v, 0))
                } else {
                    None
                },
                None => None,
            },
    {
        let item = self.find(TAG_CHECKSUM)?;
        if item.len() != CHECKSUM_LEN {
            return None;
        }
        Some(read16(item.as_slice(), 0))
    }

    /// The encodings of every item except checksum items, in order.
    fn value_without_checksum(&self) -> (r: Vec<u8>)
        ensures
            r@ == ls_concat(without_checksum(self.view_items())),
    {
        let mut out: Vec<u8> = Vec::new();
        let mut i: usize = 0;
        while i < self.items.len()
            invariant
                i <= self.items@.len(),
                out@ == ls_concat(without_checksum(self.view_items().take(i as int))),
            decreases self.items@.len() - i,
        {
            let ghost pre = self.view_items().take(i as int);
            let ghost x = self.view_items()[i as int];
            assert(self.view_items().take(i + 1) =~= pre + seq![x]);
            proof {
                lemma_without_checksum_add(pre, seq![x]);
                assert(seq![x].skip(1) =~= Seq::<(u32, Seq<u8>)>::empty());
            }
            if self.items[i].tag != TAG_CHECKSUM {
                self.items[i].encode_into(&mut out);
                proof {
                    lemma_ls_concat_add(without_checksum(pre), seq![x]);
                    lemma_ls_concat_one(x);
                    lemma_without_checksum_one(x);
                }
            } else {
                proof {
                    lemma_without_checksum_one(x);
                }
                assert(without_checksum(pre) + Seq::<(u32, Seq<u8>)>::empty() =~= without_checksum(pre));
            }
            i += 1;
        }
        assert(self.view_items().take(self.items@.len() as int) =~= self.view_items());
        out
    }

    /// Serialize the whole UAS Local Set with a freshly computed tag-1
    /// Checksum (CRC-16/CCITT over the packet up to the CRC bytes). Any
    /// checksum item in `items` is ignored and replaced.
    pub fn serialize_with_checksum(&self) -> (r: Vec<u8>)
        requires
            uas_value_prefix(self.view_items()).len() + 2 <= usize::MAX,
        ensures
            r@ == uas_packet(self.view_items()),
    {
        let mut value = self.value_without_checksum();
        let t = encode_ber_oid(TAG_CHECKSUM);
        push_all(&mut value, t.as_slice());
        let l = encode_ber_length(CHECKSUM_LEN);
        push_all(&mut value, l.as_slice());
        assert(value@ =~= uas_value_prefix(self.view_items()));
        let value_total = value.len() + CHECKSUM_LEN;
        let mut packet: Vec<u8> = Vec::new();
        push_all(&mut packet, &UAS_LS_KEY);
        let lt = encode_ber_length(value_total);
        push_all(&mut packet, lt.as_slice());
        push_all(&mut packet, value.as_slice());
        assert(packet@ =~= uas_crc_input(self.view_items()));
        let crc = crc16_ccitt(packet.as_slice());
        push16(&mut packet, crc);
        packet
    }

    /// Verify the tag-1 Checksum of a serialized UAS Local Set: recompute the
    /// CRC over everything before the trailing two bytes and compare.
    pub fn verify_checksum(packet: &[u8]) -> (r: Result<bool, Error>)
        ensures
            r == spec_verify_checksum(packet@),
    {
        if packet.len() < UNIVERSAL_LABEL_LEN + 1 + CHECKSUM_LEN {
            return Err(
                Error::BufferTooShort {
                    need: UNIVERSAL_LABEL_LEN + 1 + CHECKSUM_LEN,
                    have: packet.len(),
                    what: "UAS Local Set checksum",
                },
            );
        }
        let split = packet.len() - CHECKSUM_LEN;
        let expected = crc16_ccitt(&packet[0..split]);
        assert(packet@.subrange(0, split as int) =~= packet@.take(split as int));
        let actual = read16(packet, split);
        Ok(expected == actual)
    }

    /// Parse a UAS Local Set packet: the UAS Universal Label, a BER length,
    /// then the Local Set items.
    pub fn parse(bytes: &[u8]) -> (r: Result<Self, Error>)
        ensures
            match spec_parse_uas(bytes@) {
                Ok(v) => r matches Ok(x) && x.view_items() == v,
                Err(e) => r == Err::<Self, Error>(e),
            },
    {
        let item = KlvItem::parse(bytes)?;
        if !label_eq(&item.key, &UAS_LS_KEY) {
            return Err(
                Error::InvalidValue {
                    field: "uas_ls_key",
                    value: item.key[0] as u64,
                    reason: "not the MISB ST 0601 UAS Datalink Local Set Universal Label",
                },
            );
        }
        let items = parse_local_set_items(item.value.as_slice())?;
        Ok(Self { items })
    }

    /// Length of [`Self::serialize_with_checksum`]'s output.
    pub fn serialized_len(&self) -> (r: usize)
        requires
            uas_packet(self.view_items()).len() <= usize::MAX,
        ensures
            r == uas_packet(self.view_items()).len(),
    {
        let mut value_len: usize = 0;
        let mut i: usize = 0;
        while i < self.items.len()
            invariant
                i <= self.items@.len(),
                value_len == ls_concat(without_checksum(self.view_items().take(i as int))).len(),
                uas_packet(self.view_items()).len() <= usize::MAX,
            decreases self.items@.len() - i,
        {
            let ghost pre = self.view_items().take(i as int);
            let ghost x = self.view_items()[i as int];
            assert(self.view_items().take(i + 1) =~= pre + seq![x]);
            proof {
                lemma_without_checksum_add(pre, seq![x]);
                assert(seq![x].skip(1) =~= Seq::<(u32, Seq<u8>)>::empty());
                lemma_without_checksum_add(self.view_items().take(i + 1), self.view_items().skip(i + 1));
                assert(self.view_items().take(i + 1) + self.view_items().skip(i + 1) =~= self.view_items());
                lemma_ls_concat_add(without_checksum(self.view_items().take(i + 1)), without_checksum(self.view_items().skip(i + 1)));
            }
            if self.items[i].tag != TAG_CHECKSUM {
                proof {
                    lemma_ls_concat_add(without_checksum(pre), seq![x]);
                    lemma_ls_concat_one(x);
                    lemma_without_checksum_one(x);
                    assert(uas_value_prefix(self.view_items()).len() >= ls_concat(
                        without_checksum(self.view_items()),
                    ).len());
                }
                value_len = value_len + self.items[i].encoded_len();
            } else {
                proof {
                    lemma_without_checksum_one(x);
                }
                assert(without_checksum(pre) + Seq::<(u32, Seq<u8>)>::empty() =~= without_checksum(pre));
            }
            i += 1;
        }
        assert(self.view_items().take(self.items@.len() as int) =~= self.view_items());
        let value_len = value_len + encode_ber_oid(TAG_CHECKSUM).len() + encode_ber_length(CHECKSUM_LEN).len() + CHECKSUM_LEN;
        UNIVERSAL_LABEL_LEN + encode_ber_length(value_len).len() + value_len
    }

    /// Write [`Self::serialize_with_checksum`]'s output to the front of `buf`.
    pub fn serialize_into(&self, buf: &mut Vec<u8>) -> (r: Result<usize, Error>)
        requires
            uas_value_prefix(self.view_items()).len() + 2 <= usize::MAX,
        ensures
            old(buf)@.len() < uas_packet(self.view_items()).len() ==> r == Err::<usize, Error>(
                Error::OutputBufferTooSmall { need: uas_packet(self.view_items()).len() as usize, have: old(buf)@.len() as usize },
            ) && final(buf)@ == old(buf)@,
            old(buf)@.len() >= uas_packet(self.view_items()).len() ==> r == Ok::<usize, Error>(uas_packet(self.view_items()).len() as usize)
                && final(buf)@ == uas_packet(self.view_items()) + old(buf)@.skip(uas_packet(self.view_items()).len() as int),
    {
        let bytes = self.serialize_with_checksum();
        let r = write_prefix(buf, bytes.as_slice());
        proof {
            let n = uas_packet(self.view_items()).len() as int;
            if old(buf)@.len() >= n {
                assert(old(buf)@.subrange(n, old(buf)@.len() as int) =~= old(buf)@.skip(n));
            }
        }
        r
    }
}

impl Default for UasLocalSet {
    fn default() -> (r: Self)
        ensures
            r.items@.len() == 0,
    {
        Self::new()
    }
}

/// A serialized UAS Local Set always passes its own checksum verification.
pub proof fn lemma_uas_checksum_verifies(items: Seq<(u32, Seq<u8>)>)
    ensures
        spec_verify_checksum(uas_packet(items)) == Ok::<bool, Error>(true),
{
    let c = uas_crc_input(items);
    let p = uas_packet(items);
    assert(UAS_LS_KEY@.len() == 16);
    assert(c.len() >= 17);
    assert(p.take(p.len() - 2) =~= c);
    let crc = crc16_of(c);
    assert(p.subrange(c.len() as int, c.len() + 2int) =~= be16(crc));
    crate::bytes::lemma_be16_get16(crc, p, c.len() as int);
}

/// Parsing a serialized UAS Local Set gives back its non-checksum items
/// followed by the computed Checksum item.
pub proof fn lemma_uas_round_trip(items: Seq<(u32, Seq<u8>)>)
    requires
        uas_packet(items).len() <= usize::MAX,
    ensures
        spec_parse_uas(uas_packet(items)) == Ok::<Seq<(u32, Seq<u8>)>, Error>(
            without_checksum(items) + seq![(TAG_CHECKSUM, be16(crc16_of(uas_crc_input(items))))],
        ),
{
    let crc = crc16_of(uas_crc_input(items));
    let w = without_checksum(items);
    let tail = seq![(TAG_CHECKSUM, be16(crc))];
    let value = uas_value_prefix(items) + be16(crc);
    lemma_ls_concat_one((TAG_CHECKSUM, be16(crc)));
    lemma_ls_concat_add(w, tail);
    assert(value =~= ls_concat(w + tail));
    let p = uas_packet(items);
    assert(p =~= UAS_LS_KEY@ + ber_length_bytes(value.len()) + value);
    let s = UAS_LS_KEY@ + ber_length_bytes(value.len()) + value;
    assert(s.skip(16) =~= ber_length_bytes(value.len()) + value);
    lemma_ber_length_round_trip(value.len() as usize, value);
    let bl = ber_length_bytes(value.len()).len();
    assert(s.take(16) =~= UAS_LS_KEY@);
    assert(s.subrange(16 + bl as int, 16 + bl + value.len() as int) =~= value);
    lemma_ls_items_round_trip(w + tail);
}

proof fn lemma_crc_bv(a: u16, b: u16, x: u8, y: u8)
    by (bit_vector)
    ensures
        crc_bit(a) ^ crc_bit(b) == crc_bit(a ^ b),
        crc_bit(a) == 0 ==> a == 0,
        a != b ==> a ^ b != 0,
        a ^ b != 0 ==> a != b,
        (a == b && x != y) ==> (a ^ ((x as u16) << 8u16)) != (b ^ ((y as u16) << 8u16)),
        (a != b && x == y) ==> (a ^ ((x as u16) << 8u16)) != (b ^ ((y as u16) << 8u16)),
{
}

proof fn lemma_crc_bits_xor(a: u16, b: u16, k: nat)
    ensures
        crc_bits(a, k) ^ crc_bits(b, k) == crc_bits(a ^ b, k),
    decreases k,
{
    if k > 0 {
        lemma_crc_bv(a, b, 0, 0);
        lemma_crc_bits_xor(crc_bit(a), crc_bit(b), (k - 1) as nat);
    }
}

proof fn lemma_crc_bits_nonzero(a: u16, k: nat)
    requires
        a != 0,
    ensures
        crc_bits(a, k) != 0,
    decreases k,
{
    if k > 0 {
        lemma_crc_bv(a, 0, 0, 0);
        lemma_crc_bits_nonzero(crc_bit(a), (k - 1) as nat);
    }
}

/// Absorbing one byte maps registers that differ, or bytes that differ, to
/// different registers.
proof fn lemma_crc_byte_differs(s: u16, t: u16, x: u8, y: u8)
    requires
        (s == t && x != y) || (s != t && x == y),
    ensures
        crc_byte(s, x) != crc_byte(t, y),
{
    let a = s ^ ((x as u16) << 8u16);
    let b = t ^ ((y as u16) << 8u16);
    lemma_crc_bv(s, t, x, y);
    lemma_crc_bv(a, b, 0, 0);
    lemma_crc_bits_xor(a, b, 8);
    lemma_crc_bits_nonzero(a ^ b, 8);
    let ra = crc_bits(a, 8);
    let rb = crc_bits(b, 8);
    lemma_crc_bv(ra, rb, 0, 0);
}

/// Two byte strings that differ in exactly one of their first `n` bytes have
/// different CRCs over those `n` bytes.
proof fn lemma_crc_single_change(p: Seq<u8>, q: Seq<u8>, j: int, n: int)
    requires
        0 <= j < n <= p.len(),
        n <= q.len(),
        p[j] != q[j],
        forall|k: int| 0 <= k < n && k != j ==> p[k] == q[k],
    ensures
        crc16_of(p.take(n)) != crc16_of(q.take(n)),
    decreases n,
{
    assert(p.take(n).drop_last() =~= p.take(n - 1));
    assert(q.take(n).drop_last() =~= q.take(n - 1));
    if n == j + 1 {
        assert(p.take(j) =~= q.take(j));
        lemma_crc_byte_differs(crc16_of(p.take(j)), crc16_of(q.take(j)), p[j], q[j]);
    } else {
        lemma_crc_single_change(p, q, j, n - 1);
        lemma_crc_byte_differs(crc16_of(p.take(n - 1)), crc16_of(q.take(n - 1)), p[n - 1], q[n - 1]);
    }
}

/// A packet that passes its checksum fails it once any one byte is changed:
/// a change before the CRC bytes changes the computed CRC, a change in them
/// changes the stored one.
pub proof fn lemma_checksum_detects_one_byte(p: Seq<u8>, q: Seq<u8>, j: int)
    requires
        spec_verify_checksum(p) == Ok::<bool, Error>(true),
        q.len() == p.len(),
        0 <= j < p.len(),
        q[j] != p[j],
        forall|k: int| 0 <= k < p.len() && k != j ==> q[k] == p[k],
    ensures
        spec_verify_checksum(q) == Ok::<bool, Error>(false),
{
    let n = p.len() - 2;
    if j < n {
        lemma_crc_single_change(p, q, j, n);
        assert(get16(q, n) == get16(p, n));
    } else {
        assert(p.take(n) =~= q.take(n));
        let (a, b, c, d) = (p[n], p[n + 1], q[n], q[n + 1]);
        assert((a != c || b != d) ==> ((a as u16) << 8u16) | (b as u16) != ((c as u16) << 8u16) | (
        d as u16)) by (bit_vector);
    }
}

/// A serialized UAS Local Set with any one byte changed fails its checksum.
pub proof fn lemma_uas_one_byte_change_fails(items: Seq<(u32, Seq<u8>)>, q: Seq<u8>, j: int)
    requires
        q.len() == uas_packet(items).len(),
        0 <= j < q.len(),
        q[j] != uas_packet(items)[j],
        forall|k: int| 0 <= k < q.len() && k != j ==> q[k] == uas_packet(items)[k],
    ensures
        spec_verify_checksum(q) == Ok::<bool, Error>(false),
{
    lemma_uas_checksum_verifies(items);
    lemma_checksum_detects_one_byte(uas_packet(items), q, j);
}

} // verus!
