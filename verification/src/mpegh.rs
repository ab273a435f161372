//! MPEG-H 3D Audio in ISOBMFF (ISO/IEC 23008-3 §20): the
//! `MHADecoderConfigurationRecord` carried by an `mhaC` box, and the MHAS
//! packet framing (ISO/IEC 23008-3 Clause 14) used to locate the
//! `mpegh3daConfig()` packet in an MPEG-2 TS access unit.
use vstd::prelude::*;
use vstd::string::*;
use crate::bytes::{be16, get16, push16, push_all, copy_range, write_prefix, read16};
use crate::error::Error;

verus! {

/// FourCC of the MPEG-H configuration box.
pub const MHAC_FOURCC: [u8; 4] = [0x6D, 0x68, 0x61, 0x43];
/// Sample entry `mha1`: raw MHAS frames, configuration in `mhaC`.
pub const MHA1_FOURCC: [u8; 4] = [0x6D, 0x68, 0x61, 0x31];
/// Sample entry `mha2`: multi-stream MPEG-H, configuration in `mhaC`.
pub const MHA2_FOURCC: [u8; 4] = [0x6D, 0x68, 0x61, 0x32];
/// Sample entry `mhm1`: in-band MHAS configuration.
pub const MHM1_FOURCC: [u8; 4] = [0x6D, 0x68, 0x6D, 0x31];
/// Sample entry `mhm2`: multi-stream in-band MHAS.
pub const MHM2_FOURCC: [u8; 4] = [0x6D, 0x68, 0x6D, 0x32];

/// Byte size of the record's fixed fields.
pub const MHAC_RECORD_FIXED_LEN: usize = 5;

/// The only valid `configurationVersion`.
pub const MHAC_CONFIGURATION_VERSION: u8 = 1;

/// `MHASPacketType` of the packet carrying `mpegh3daConfig()`.
pub const MHAS_PACTYP_MPEGH3DACFG: u8 = 1;

/// `MHADecoderConfigurationRecord`: version, profile-level, channel layout
/// and the opaque `mpegh3daConfig()` bytes.
#[derive(Debug, Clone, PartialEq, Eq)]
pub struct MHADecoderConfigurationRecord {
    /// Must be `1`.
    pub configuration_version: u8,
    /// CICP profile-level indicator.
    pub mpegh3da_profile_level_indication: u8,
    /// CICP `ChannelConfiguration`.
    pub reference_channel_layout: u8,
    /// The opaque `mpegh3daConfig()` bytes.
    pub mpegh3da_config: Vec<u8>,
}

/// Upper-case hexadecimal digit of a nibble.
pub open spec fn hex_digit(n: u8) -> Seq<char> {
    if n == 0 { "0"@ } else if n == 1 { "1"@ } else if n == 2 { "2"@ } else if n == 3 { "3"@ }
    else if n == 4 { "4"@ } else if n == 5 { "5"@ } else if n == 6 { "6"@ } else if n == 7 { "7"@ }
    else if n == 8 { "8"@ } else if n == 9 { "9"@ } else if n == 10 { "A"@ } else if n == 11 { "B"@ }
    else if n == 12 { "C"@ } else if n == 13 { "D"@ } else if n == 14 { "E"@ } else { "F"@ }
}

/// Two upper-case hexadecimal digits of a byte.
pub open spec fn hex_byte(v: u8) -> Seq<char> {
    hex_digit(v >> 4u8) + hex_digit(v & 0xFu8)
}

pub fn hex_digit_str(n: u8) -> (r: &'static str)
    ensures
        r@ == hex_digit(n),
{
    if n == 0 { "0" } else if n == 1 { "1" } else if n == 2 { "2" } else if n == 3 { "3" }
    else if n == 4 { "4" } else if n == 5 { "5" } else if n == 6 { "6" } else if n == 7 { "7" }
    else if n == 8 { "8" } else if n == 9 { "9" } else if n == 10 { "A" } else if n == 11 { "B" }
    else if n == 12 { "C" } else if n == 13 { "D" } else if n == 14 { "E" } else { "F" }
}

/// The record's wire bytes; the 16-bit length field carries the low 16 bits
/// of the config length.
pub open spec fn mhac_bytes(ver: u8, pli: u8, rcl: u8, config: Seq<u8>) -> Seq<u8> {
    seq![ver, pli, rcl] + be16((config.len() % 0x10000) as u16) + config
}

/// Outcome of parsing a record: `(version, profile-level, layout, config)`.
pub open spec fn spec_parse_mhac(b: Seq<u8>) -> Result<(u8, u8, u8, Seq<u8>), Error> {
    if b.len() < 5 {
        Err(Error::BufferTooShort { need: 5, have: b.len() as usize, what: "MHADecoderConfigurationRecord" })
    } else if b[0] != 1 {
        Err(
            Error::InvalidValue {
                field: "configurationVersion",
                value: b[0] as u64,
                reason: "must be 1 (ISO/IEC 23008-3 §20)",
            },
        )
    } else if b.len() < 5 + get16(b, 3) {
        Err(
            Error::BufferTooShort {
                need: (5 + get16(b, 3)) as usize,
                have: b.len() as usize,
                what: "MHADecoderConfigurationRecord.mpegh3daConfig",
            },
        )
    } else {
        Ok((b[0], b[1], b[2], b.subrange(5, 5 + get16(b, 3))))
    }
}

impl MHADecoderConfigurationRecord {
    /// The record's wire bytes.
    pub open spec fn spec_bytes(&self) -> Seq<u8> {
        mhac_bytes(
            self.configuration_version,
            self.mpegh3da_profile_level_indication,
            self.reference_channel_layout,
            self.mpegh3da_config@,
        )
    }

    /// Construct a record (version 1) from its fields.
    pub fn new(mpegh3da_profile_level_indication: u8, reference_channel_layout: u8, mpegh3da_config: Vec<u8>) -> (r: Self)
        ensures
            r.configuration_version == 1,
            r.mpegh3da_profile_level_indication == mpegh3da_profile_level_indication,
            r.reference_channel_layout == reference_channel_layout,
            r.mpegh3da_config@ == mpegh3da_config@,
    {
        Self {
            configuration_version: MHAC_CONFIGURATION_VERSION,
            mpegh3da_profile_level_indication,
            reference_channel_layout,
            mpegh3da_config,
        }
    }

    /// RFC 6381 codec string `mhm1.0xNN` for this profile-level.
    pub fn rfc6381(&self) -> (r: String)
        ensures
            r@ == "mhm1.0x"@ + hex_byte(self.mpegh3da_profile_level_indication),
    {
        let v = self.mpegh3da_profile_level_indication;
        let mut s = String::from_str("mhm1.0x");
        s.append(hex_digit_str(v >> 4u8));
        s.append(hex_digit_str(v & 0xFu8));
        s
    }

    /// Parse a record, rejecting a version other than 1 and a config length
    /// that runs past the input.
    pub fn parse(bytes: &[u8]) -> (r: Result<Self, Error>)
        ensures
            match spec_parse_mhac(bytes@) {
                Ok((v, p, l, c)) => r matches Ok(x) && x.configuration_version == v
                    && x.mpegh3da_profile_level_indication == p && x.reference_channel_layout == l
                    && x.mpegh3da_config@ == c,
                Err(e) => r == Err::<Self, Error>(e),
            },
    {
        if bytes.len() < MHAC_RECORD_FIXED_LEN {
            return Err(
                Error::BufferTooShort {
                    need: MHAC_RECORD_FIXED_LEN,
                    have: bytes.len(),
                    what: "MHADecoderConfigurationRecord",
                },
            );
        }
        let configuration_version = bytes[0];
        if configuration_version != MHAC_CONFIGURATION_VERSION {
            return Err(
                Error::InvalidValue {
                    field: "configurationVersion",
                    value: configuration_version as u64,
                    reason: "must be 1 (ISO/IEC 23008-3 §20)",
                },
            );
        }
        let config_len = read16(bytes, 3) as usize;
        let need = MHAC_RECORD_FIXED_LEN + config_len;
        if bytes.len() < need {
            return Err(
                Error::BufferTooShort {
                    need,
                    have: bytes.len(),
                    what: "MHADecoderConfigurationRecord.mpegh3daConfig",
                },
            );
        }
        Ok(
            Self {
                configuration_version,
                mpegh3da_profile_level_indication: bytes[1],
                reference_channel_layout: bytes[2],
                mpegh3da_config: copy_range(bytes, MHAC_RECORD_FIXED_LEN, need),
            },
        )
    }

    /// Encoded size in bytes.
    pub fn serialized_len(&self) -> (r: usize)
        requires
            self.mpegh3da_config@.len() + 5 <= usize::MAX,
        ensures
            r == self.spec_bytes().len(),
    {
        MHAC_RECORD_FIXED_LEN + self.mpegh3da_config.len()
    }

    /// The encoded record.
    pub fn to_bytes(&self) -> (r: Vec<u8>)
        ensures
            r@ == self.spec_bytes(),
    {
        let mut out: Vec<u8> = Vec::new();
        out.push(self.configuration_version);
        out.push(self.mpegh3da_profile_level_indication);
        out.push(self.reference_channel_layout);
        let n = self.mpegh3da_config.len();
        push16(&mut out, (n % 0x10000) as u16);
        push_all(&mut out, self.mpegh3da_config.as_slice());
        assert(out@ =~= self.spec_bytes());
        out
    }

    /// Write the encoded record to the front of `buf`.
    pub fn serialize_into(&self, buf: &mut Vec<u8>) -> (r: Result<usize, Error>)
        ensures
            old(buf)@.len() < self.spec_bytes().len() ==> r == Err::<usize, Error>(
                Error::OutputBufferTooSmall { need: self.spec_bytes().len() as usize, have: old(buf)@.len() as usize },
            ) && final(buf)@ == old(buf)@,
            old(buf)@.len() >= self.spec_bytes().len() ==> r == Ok::<usize, Error>(self.spec_bytes().len() as usize)
                && final(buf)@ == self.spec_bytes() + old(buf)@.skip(self.spec_bytes().len() as int),
    {
        let bytes = self.to_bytes();
        let r = write_prefix(buf, bytes.as_slice());
        proof {
            let n = self.spec_bytes().len() as int;
            if old(buf)@.len() >= n {
                assert(old(buf)@.subrange(n, old(buf)@.len() as int) =~= old(buf)@.skip(n));
            }
        }
        r
    }
}

/// Parsing an encoded version-1 record (config at most 65535 bytes) gives
/// back its fields, whatever follows it.
pub proof fn lemma_mhac_round_trip(pli: u8, rcl: u8, config: Seq<u8>, rest: Seq<u8>)
    requires
        config.len() <= 0xFFFF,
    ensures
        spec_parse_mhac(mhac_bytes(1, pli, rcl, config) + rest) == Ok::<(u8, u8, u8, Seq<u8>), Error>(
            (1, pli, rcl, config),
        ),
{
    let b = mhac_bytes(1, pli, rcl, config) + rest;
    let n = config.len() as u16;
    assert(b.subrange(3, 5) =~= be16(n));
    crate::bytes::lemma_be16_get16(n, b, 3);
    assert(b.subrange(5, 5 + n) =~= config);
}

// ---------------------------------------------------------------------------
// MHAS packet framing
// ---------------------------------------------------------------------------

/// Bit `p` (MSB first) of `data`.
pub open spec fn bit_at(data: Seq<u8>, p: nat) -> u8 {
    (data[(p / 8) as int] >> ((7 - p % 8) as u8)) & 1u8
}

/// The `n`-bit MSB-first value starting at bit `p`.
pub open spec fn bits_value(data: Seq<u8>, p: nat, n: nat) -> nat
    decreases n,
{
    if n == 0 {
        0
    } else {
        bits_value(data, p, (n - 1) as nat) * 2 + bit_at(data, (p + n - 1) as nat) as nat
    }
}

/// `2^n`.
pub open spec fn pow2(n: nat) -> nat
    decreases n,
{
    if n == 0 {
        1
    } else {
        2 * pow2((n - 1) as nat)
    }
}

/// A three-tier escaped value at bit `p`: `n1` bits; when all ones, `n2`
/// more are added; when those are all ones too, `n3` more. Gives the value
/// and the bit position after it, or `None` when the bits run out.
pub open spec fn escaped(data: Seq<u8>, p: nat, n1: nat, n2: nat, n3: nat) -> Option<(nat, nat)> {
    let total = data.len() * 8;
    if p + n1 > total {
        None
    } else {
        let v1 = bits_value(data, p, n1);
        let p1 = p + n1;
        if v1 != pow2(n1) - 1 {
            Some((v1, p1))
        } else if p1 + n2 > total {
            None
        } else {
            let v2 = bits_value(data, p1, n2);
            let p2 = p1 + n2;
            if v2 != pow2(n2) - 1 {
                Some((v1 + v2, p2))
            } else if p2 + n3 > total {
                None
            } else {
                Some((v1 + v2 + bits_value(data, p2, n3), p2 + n3))
            }
        }
    }
}

pub proof fn lemma_escaped_advances(data: Seq<u8>, p: nat, n1: nat, n2: nat, n3: nat)
    ensures
        match escaped(data, p, n1, n2, n3) {
            Some((_v, q)) => q >= p + n1,
            None => true,
        },
{
}

pub proof fn lemma_aligned_end(p3: nat, len: nat)
    requires
        p3 % 8 == 0,
    ensures
        (p3 / 8 + len) * 8 >= p3,
{
    assert((p3 / 8) * 8 == p3) by (nonlinear_arith)
        requires
            p3 % 8 == 0,
    ;
    assert((p3 / 8 + len) * 8 == (p3 / 8) * 8 + len * 8) by (nonlinear_arith);
}

/// The `(packet type, payload)` pairs of the MHAS packets from bit `p` on,
/// stopping at the first truncated or malformed header.
pub open spec fn mhas_walk(data: Seq<u8>, p: nat) -> Seq<(u8, Seq<u8>)>
    decreases data.len() * 8 - p,
{
    if p + 16 > data.len() * 8 {
        Seq::empty()
    } else {
        match escaped(data, p, 3, 8, 8) {
            None => Seq::empty(),
            Some((t, p1)) => match escaped(data, p1, 2, 8, 32) {
                None => Seq::empty(),
                Some((_l, p2)) => match escaped(data, p2, 11, 24, 24) {
                    None => Seq::empty(),
                    Some((len, p3)) => if p3 % 8 != 0 || t > 255 || p3 / 8 + len > data.len() {
                        Seq::empty()
                    } else {
                        proof {
                            lemma_escaped_advances(data, p, 3, 8, 8);
                            lemma_escaped_advances(data, p1, 2, 8, 32);
                            lemma_escaped_advances(data, p2, 11, 24, 24);
                            lemma_aligned_end(p3, len);
                        }
                        seq![(t as u8, data.subrange((p3 / 8) as int, (p3 / 8 + len) as int))]
                            + mhas_walk(data, (p3 / 8 + len) * 8)
                    },
                },
            },
        }
    }
}

/// One MHAS packet: its type and payload.
pub struct MhasPacket<'a> {
    /// `MHASPacketType`.
    pub packet_type: u8,
    /// The packet payload.
    pub payload: &'a [u8],
}

/// The `(type, payload)` view of walked packets.
pub open spec fn packets_view(v: Seq<MhasPacket>) -> Seq<(u8, Seq<u8>)> {
    v.map_values(|p: MhasPacket| (p.packet_type, p.payload@))
}

fn read_bits(data: &[u8], pos: usize, n: usize) -> (r: u64)
    requires
        n <= 32,
        pos + n <= data@.len() * 8,
        data@.len() * 8 <= usize::MAX,
    ensures
        r == bits_value(data@, pos as nat, n as nat),
        r < pow2(n as nat),
{
    let mut v: u64 = 0;
    let mut k: usize = 0;
    while k < n
        invariant
            k <= n <= 32,
            pos + n <= data@.len() * 8,
            data@.len() * 8 <= usize::MAX,
            v == bits_value(data@, pos as nat, k as nat),
            v < pow2(k as nat),
        decreases n - k,
    {
        let p = pos + k;
        let byte = data[p / 8];
        let bit = (byte >> ((7 - p % 8) as u8)) & 1u8;
        assert(bit <= 1) by (bit_vector)
            requires
                bit == (byte >> ((7 - p % 8) as u8)) & 1u8,
        ;
        assert(pow2(k as nat) <= 0x1_0000_0000) by {
            lemma_pow2_le(k as nat, 32);
        }
        let old_v = v;
        v = (v << 1u64) | (bit as u64);
        assert(v == old_v * 2 + bit) by (bit_vector)
            requires
                v == (old_v << 1u64) | (bit as u64),
                bit <= 1,
                old_v < 0x1_0000_0000,
        ;
        k += 1;
    }
    v
}

proof fn lemma_pow2_mono(a: nat, b: nat)
    requires
        a <= b,
    ensures
        1 <= pow2(a) <= pow2(b),
    decreases b,
{
    if a < b {
        lemma_pow2_mono(a, (b - 1) as nat);
    } else if b > 0 {
        lemma_pow2_mono((b - 1) as nat, (b - 1) as nat);
    }
}

pub proof fn lemma_pow2_le(a: nat, b: nat)
    requires
        a <= b <= 32,
    ensures
        1 <= pow2(a) <= pow2(b) <= 0x1_0000_0000,
{
    lemma_pow2_mono(a, b);
    lemma_pow2_mono(b, 32);
    assert(pow2(32) == 0x1_0000_0000) by {
        reveal_with_fuel(pow2, 33);
    }
}

fn read_escaped(data: &[u8], pos: usize, n1: usize, n2: usize, n3: usize) -> (r: Option<(u64, usize)>)
    requires
        n1 <= 32,
        n2 <= 32,
        n3 <= 32,
        data@.len() * 8 <= usize::MAX,
        pos <= data@.len() * 8,
    ensures
        match escaped(data@, pos as nat, n1 as nat, n2 as nat, n3 as nat) {
            None => r is None,
            Some((v, p)) => r matches Some((x, q)) && x == v && q == p,
        },
{
    let total = data.len() * 8;
    if n1 > total - pos {
        return None;
    }
    let v1 = read_bits(data, pos, n1);
    let p1 = pos + n1;
    assert(pow2(n1 as nat) <= 0x1_0000_0000) by {
        lemma_pow2_le(n1 as nat, 32);
    }
    proof {
        lemma_shift_pow2(n1 as u64);
    }
    let full1 = ((1u64 << (n1 as u64)) - 1) as u64;
    if v1 != full1 {
        return Some((v1, p1));
    }
    if n2 > total - p1 {
        return None;
    }
    let v2 = read_bits(data, p1, n2);
    let p2 = p1 + n2;
    assert(pow2(n2 as nat) <= 0x1_0000_0000) by {
        lemma_pow2_le(n2 as nat, 32);
    }
    proof {
        lemma_shift_pow2(n2 as u64);
    }
    let full2 = ((1u64 << (n2 as u64)) - 1) as u64;
    if v2 != full2 {
        return Some((v1 + v2, p2));
    }
    if n3 > total - p2 {
        return None;
    }
    let v3 = read_bits(data, p2, n3);
    proof {
        lemma_pow2_le(n3 as nat, 32);
    }
    Some((v1 + v2 + v3, p2 + n3))
}

proof fn lemma_shift_pow2(n: u64)
    requires
        n <= 32,
    ensures
        (1u64 << n) as nat == pow2(n as nat),
        (1u64 << n) >= 1,
    decreases n,
{
    if n == 0 {
        assert((1u64 << 0u64) == 1) by (bit_vector);
    } else {
        lemma_shift_pow2((n - 1) as u64);
        let m = (n - 1) as u64;
        assert((1u64 << n) == (1u64 << m) * 2) by (bit_vector)
            requires
                n <= 32,
                m == n - 1,
        ;
    }
}

/// Walk the MHAS packets of one access unit, stopping (with what was found
/// so far) at the first truncated or malformed header.
pub fn walk_mhas_packets(data: &[u8]) -> (r: Vec<MhasPacket<'_>>)
    requires
        data@.len() * 8 <= usize::MAX,
    ensures
        packets_view(r@) == mhas_walk(data@, 0),
{
    let mut out: Vec<MhasPacket<'_>> = Vec::new();
    let total = data.len() * 8;
    let mut pos: usize = 0;
    loop
        invariant
            total == data@.len() * 8,
            total <= usize::MAX,
            pos <= total,
            mhas_walk(data@, 0) == packets_view(out@) + mhas_walk(data@, pos as nat),
        decreases total - pos,
    {
        let ghost old_out = out@;
        if total - pos < 16 {
            assert(packets_view(out@) + Seq::<(u8, Seq<u8>)>::empty() =~= packets_view(out@));
            return out;
        }
        let (t, p1) = match read_escaped(data, pos, 3, 8, 8) {
            Some(x) => x,
            None => {
                assert(packets_view(out@) + Seq::<(u8, Seq<u8>)>::empty() =~= packets_view(out@));
                return out;
            },
        };
        let (_label, p2) = match read_escaped(data, p1, 2, 8, 32) {
            Some(x) => x,
            None => {
                assert(packets_view(out@) + Seq::<(u8, Seq<u8>)>::empty() =~= packets_view(out@));
                return out;
            },
        };
        let (len, p3) = match read_escaped(data, p2, 11, 24, 24) {
            Some(x) => x,
            None => {
                assert(packets_view(out@) + Seq::<(u8, Seq<u8>)>::empty() =~= packets_view(out@));
                return out;
            },
        };
        let start = p3 / 8;
        if p3 % 8 != 0 || t > 255 || len > (data.len() - start) as u64 {
            assert(packets_view(out@) + Seq::<(u8, Seq<u8>)>::empty() =~= packets_view(out@));
            return out;
        }
        let end = start + len as usize;
        proof {
            lemma_escaped_advances(data@, pos as nat, 3, 8, 8);
            lemma_escaped_advances(data@, p1 as nat, 2, 8, 32);
            lemma_escaped_advances(data@, p2 as nat, 11, 24, 24);
            lemma_aligned_end(p3 as nat, len as nat);
        }
        let ghost pkt = (t as u8, data@.subrange(start as int, end as int));
        out.push(MhasPacket { packet_type: t as u8, payload: &data[start..end] });
        assert(packets_view(out@) =~= packets_view(old_out) + seq![pkt]);
        assert(packets_view(old_out) + (seq![pkt] + mhas_walk(data@, (end * 8) as nat))
            =~= packets_view(out@) + mhas_walk(data@, (end * 8) as nat));
        pos = end * 8;
    }
}

/// The payload of the first packet of type [`MHAS_PACTYP_MPEGH3DACFG`].
pub open spec fn first_config(pkts: Seq<(u8, Seq<u8>)>) -> Option<Seq<u8>>
    decreases pkts.len(),
{
    if pkts.len() == 0 {
        None
    } else if pkts[0].0 == 1 {
        Some(pkts[0].1)
    } else {
        first_config(pkts.skip(1))
    }
}

/// Find the `mpegh3daConfig()` blob (the payload of the first
/// `PACTYP_MPEGH3DACFG` packet) in one MHAS access unit.
pub fn find_mpegh3da_config(data: &[u8]) -> (r: Option<&[u8]>)
    requires
        data@.len() * 8 <= usize::MAX,
    ensures
        match first_config(mhas_walk(data@, 0)) {
            None => r is None,
            Some(c) => r matches Some(x) && x@ == c,
        },
{
    let pkts = walk_mhas_packets(data);
    let mut i: usize = 0;
    assert(packets_view(pkts@).skip(0) =~= packets_view(pkts@));
    while i < pkts.len()
        invariant
            i <= pkts@.len(),
            first_config(packets_view(pkts@)) == first_config(packets_view(pkts@).skip(i as int)),
            packets_view(pkts@) == mhas_walk(data@, 0),
        decreases pkts@.len() - i,
    {
        let ghost rest = packets_view(pkts@).skip(i as int);
        assert(rest.skip(1) =~= packets_view(pkts@).skip(i + 1));
        assert(rest.len() > 0);
        assert(rest[0] == (pkts@[i as int].packet_type, pkts@[i as int].payload@));
        if pkts[i].packet_type == MHAS_PACTYP_MPEGH3DACFG {
            return Some(pkts[i].payload);
        }
        i += 1;
    }
    None
}

} // verus!
