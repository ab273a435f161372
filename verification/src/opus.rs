//! Opus in ISOBMFF: the `dOps` OpusSpecificBox body (Opus-in-ISOBMFF §4.3.2),
//! big-endian and without a magic signature.
use vstd::prelude::*;
use crate::bytes::{be16, be32, get16, get32, push16, push32, push_all, copy_range, write_prefix, read16, read32};
use crate::error::Error;

verus! {

/// FourCC of the Opus config box.
pub const DOPS_FOURCC: [u8; 4] = [0x64, 0x4F, 0x70, 0x73];

/// FourCC of the Opus sample entry.
pub const OPUS_FOURCC: [u8; 4] = [0x4F, 0x70, 0x75, 0x73];

/// Length of the `dOps` body before the channel-mapping table.
const DOPS_FIXED_LEN: usize = 11;

/// Opus channel-mapping table (present when `ChannelMappingFamily != 0`).
#[derive(Debug, Clone, PartialEq, Eq)]
pub struct ChannelMappingTable {
    /// `StreamCount`.
    pub stream_count: u8,
    /// `CoupledCount`.
    pub coupled_count: u8,
    /// `ChannelMapping[OutputChannelCount]`.
    pub channel_mapping: Vec<u8>,
}

/// OpusSpecificBox (`dOps` body).
#[derive(Debug, Clone, PartialEq, Eq)]
pub struct OpusSpecificBox {
    /// `Version` (0).
    pub version: u8,
    /// `OutputChannelCount`.
    pub output_channel_count: u8,
    /// `PreSkip` samples at 48 kHz.
    pub pre_skip: u16,
    /// `InputSampleRate` in Hz.
    pub input_sample_rate: u32,
    /// `OutputGain` (signed Q7.8 dB).
    pub output_gain: i16,
    /// `ChannelMappingFamily`.
    pub channel_mapping_family: u8,
    /// The channel-mapping table, present iff the family is non-zero.
    pub channel_mapping: Option<ChannelMappingTable>,
}

/// `(version, channels, pre_skip, input_rate, gain, family, table)`, the
/// table as `(stream_count, coupled_count, mapping)`.
pub type DopsView = (u8, u8, u16, u32, i16, u8, Option<(u8, u8, Seq<u8>)>);

impl View for OpusSpecificBox {
    type V = DopsView;

    open spec fn view(&self) -> DopsView {
        (
            self.version,
            self.output_channel_count,
            self.pre_skip,
            self.input_sample_rate,
            self.output_gain,
            self.channel_mapping_family,
            match self.channel_mapping {
                Some(m) => Some((m.stream_count, m.coupled_count, m.channel_mapping@)),
                None => None,
            },
        )
    }
}

/// The `dOps` body bytes of a view.
pub open spec fn dops_bytes(v: DopsView) -> Seq<u8> {
    seq![v.0, v.1] + be16(v.2) + be32(v.3) + be16(v.4 as u16) + seq![v.5] + match v.6 {
        Some((s, c, m)) => seq![s, c] + m,
        None => Seq::empty(),
    }
}

/// Outcome of parsing a `dOps` body; a mapping table shorter than the
/// channel count takes what is left of the input.
pub open spec fn spec_parse_dops(b: Seq<u8>) -> Result<DopsView, Error> {
    if b.len() < 11 {
        Err(Error::BufferTooShort { need: 11, have: b.len() as usize, what: "dOps body" })
    } else if b[10] != 0 && b.len() < 13 {
        Err(Error::BufferTooShort { need: 13, have: b.len() as usize, what: "dOps channel mapping" })
    } else {
        let end = if 13 + b[1] <= b.len() {
            13 + b[1]
        } else {
            b.len() as int
        };
        Ok(
            (
                b[0],
                b[1],
                get16(b, 2),
                get32(b, 4),
                get16(b, 8) as i16,
                b[10],
                if b[10] != 0 {
                    Some((b[11], b[12], b.subrange(13, end)))
                } else {
                    None
                },
            ),
        )
    }
}

impl OpusSpecificBox {
    /// RFC 6381 codec string: always `Opus`.
    pub fn rfc6381(&self) -> (r: &'static str)
        ensures
            r@ == "Opus"@,
    {
        "Opus"
    }

    /// Parse a `dOps` body.
    pub fn parse(bytes: &[u8]) -> (r: Result<Self, Error>)
        ensures
            match spec_parse_dops(bytes@) {
                Ok(v) => r matches Ok(x) && x@ == v,
                Err(e) => r == Err::<Self, Error>(e),
            },
    {
        if bytes.len() < DOPS_FIXED_LEN {
            return Err(Error::BufferTooShort { need: DOPS_FIXED_LEN, have: bytes.len(), what: "dOps body" });
        }
        let output_channel_count = bytes[1];
        let channel_mapping_family = bytes[10];
        let channel_mapping = if channel_mapping_family != 0 {
            if bytes.len() < DOPS_FIXED_LEN + 2 {
                return Err(
                    Error::BufferTooShort { need: DOPS_FIXED_LEN + 2, have: bytes.len(), what: "dOps channel mapping" },
                );
            }
            let map_start = DOPS_FIXED_LEN + 2;
            let map_end = if bytes.len() - map_start >= output_channel_count as usize {
                map_start + output_channel_count as usize
            } else {
                bytes.len()
            };
            Some(
                ChannelMappingTable {
                    stream_count: bytes[11],
                    coupled_count: bytes[12],
                    channel_mapping: copy_range(bytes, map_start, map_end),
                },
            )
        } else {
            None
        };
        Ok(
            Self {
                version: bytes[0],
                output_channel_count,
                pre_skip: read16(bytes, 2),
                input_sample_rate: read32(bytes, 4),
                output_gain: read16(bytes, 8) as i16,
                channel_mapping_family,
                channel_mapping,
            },
        )
    }

    /// Encoded size of the body.
    pub fn serialized_len(&self) -> (r: usize)
        requires
            dops_bytes(self@).len() <= usize::MAX,
        ensures
            r == dops_bytes(self@).len(),
    {
        match &self.channel_mapping {
            Some(m) => DOPS_FIXED_LEN + 2 + m.channel_mapping.len(),
            None => DOPS_FIXED_LEN,
        }
    }

    /// The encoded body.
    pub fn to_bytes(&self) -> (r: Vec<u8>)
        ensures
            r@ == dops_bytes(self@),
    {
        let mut out: Vec<u8> = Vec::new();
        out.push(self.version);
        out.push(self.output_channel_count);
        push16(&mut out, self.pre_skip);
        push32(&mut out, self.input_sample_rate);
        push16(&mut out, self.output_gain as u16);
        out.push(self.channel_mapping_family);
        match &self.channel_mapping {
            Some(m) => {
                out.push(m.stream_count);
                out.push(m.coupled_count);
                push_all(&mut out, m.channel_mapping.as_slice());
            },
            None => {},
        }
        assert(out@ =~= dops_bytes(self@));
        out
    }

    /// Write the encoded body to the front of `buf`.
    pub fn serialize_into(&self, buf: &mut Vec<u8>) -> (r: Result<usize, Error>)
        ensures
            old(buf)@.len() < dops_bytes(self@).len() ==> r == Err::<usize, Error>(
                Error::OutputBufferTooSmall { need: dops_bytes(self@).len() as usize, have: old(buf)@.len() as usize },
            ) && final(buf)@ == old(buf)@,
            old(buf)@.len() >= dops_bytes(self@).len() ==> r == Ok::<usize, Error>(dops_bytes(self@).len() as usize)
                && final(buf)@ == dops_bytes(self@) + old(buf)@.skip(dops_bytes(self@).len() as int),
    {
        let bytes = self.to_bytes();
        let r = write_prefix(buf, bytes.as_slice());
        proof {
            let n = dops_bytes(self@).len() as int;
            if old(buf)@.len() >= n {
                assert(old(buf)@.subrange(n, old(buf)@.len() as int) =~= old(buf)@.skip(n));
            }
        }
        r
    }
}

/// A `dOps` body whose table is present exactly when the family is
/// non-zero and whose mapping lists one entry per output channel parses
/// back to itself, whatever follows it.
pub proof fn lemma_dops_round_trip(v: DopsView, rest: Seq<u8>)
    requires
        (v.5 != 0) == (v.6 is Some),
        v.6 matches Some((_s, _c, m)) ==> m.len() == v.1,
    ensures
        spec_parse_dops(dops_bytes(v) + rest) == Ok::<DopsView, Error>(v),
{
    let b = dops_bytes(v) + rest;
    assert(b.subrange(2, 4) =~= be16(v.2));
    crate::bytes::lemma_be16_get16(v.2, b, 2);
    assert(b.subrange(4, 8) =~= be32(v.3));
    crate::bytes::lemma_be32_get32(v.3, b, 4);
    assert(b.subrange(8, 10) =~= be16(v.4 as u16));
    crate::bytes::lemma_be16_get16(v.4 as u16, b, 8);
    let g = v.4;
    assert(((g as u16) as i16) == g) by (bit_vector);
    match v.6 {
        Some((s, c, m)) => {
            assert(b.subrange(13, 13 + v.1) =~= m);
        },
        None => {},
    }
}

} // verus!
