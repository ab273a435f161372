//! The MPEG-4 elementary-stream descriptor chain carried by an `esds` box
//! (ISO/IEC 14496-1:2010 §7.2.6, ISO/IEC 14496-14 §5.6): self-describing
//! `tag + size varint + body` descriptors; unknown tags are skipped by size.
//! The size varint is 7 bits per byte, 1 to 4 bytes when read and always the
//! expanded 4-byte form when written.
use vstd::prelude::*;
use vstd::string::*;
use crate::box_types::{box_head, fourcc_eq, parse_box_header, spec_box_header};
use crate::bytes::{be16, be24, be32, get16, get24, get32, push16, push24, push32, push_all, copy_range, read16, read24, read32, sat, write_prefix};
use crate::error::Error;

verus! {

/// `ES_DescrTag`.
pub const TAG_ES_DESCRIPTOR: u8 = 0x03;
/// `DecoderConfigDescrTag`.
pub const TAG_DECODER_CONFIG: u8 = 0x04;
/// `DecSpecificInfoTag`.
pub const TAG_DECODER_SPECIFIC_INFO: u8 = 0x05;
/// `SLConfigDescrTag`.
pub const TAG_SL_CONFIG: u8 = 0x06;
/// Largest descriptor body size a varint may carry (2^28 - 1).
pub const MAX_DESCRIPTOR_SIZE: usize = 268_435_455;
/// Box type `esds`.
pub const ESDS: [u8; 4] = [0x65, 0x73, 0x64, 0x73];

// ---------------------------------------------------------------------------
// Size varint
// ---------------------------------------------------------------------------

/// Reading a size varint from `start`, after `k` bytes accumulating `acc`:
/// `(value, bytes consumed)`.
pub open spec fn varint_from(s: Seq<u8>, start: nat, k: nat, acc: nat) -> Result<(nat, nat), Error>
    decreases 5 - k,
{
    if k > 4 {
        Err(Error::InvalidValue { field: "descriptor size varint", value: k as u64, reason: "varint longer than 4 bytes" })
    } else if start + k >= s.len() {
        Err(Error::BufferTooShort { need: sat(start + k + 1int), have: s.len() as usize, what: "descriptor size varint" })
    } else {
        let b = s[(start + k) as int];
        let v = acc * 128 + (b & 0x7Fu8) as nat;
        if k + 1 > 4 {
            Err(Error::InvalidValue { field: "descriptor size varint", value: (k + 1) as u64, reason: "varint longer than 4 bytes" })
        } else if b & 0x80u8 == 0 {
            if v > 268_435_455 {
                Err(Error::InvalidValue { field: "descriptor size", value: v as u64, reason: "exceeds maximum descriptor size (2^28-1)" })
            } else {
                Ok((v, k + 1))
            }
        } else {
            varint_from(s, start, k + 1, v)
        }
    }
}

/// Outcome of reading a size varint at `start`: `(value, bytes consumed)`.
pub open spec fn spec_varint(s: Seq<u8>, start: nat) -> Result<(nat, nat), Error> {
    varint_from(s, start, 0, 0)
}

/// Where the cursor stands after reading a size varint from `start`.
pub open spec fn varint_stop_from(s: Seq<u8>, start: nat, k: nat) -> nat
    decreases 5 - k,
{
    if k > 4 || start + k >= s.len() {
        start + k
    } else if k + 1 > 4 || s[(start + k) as int] & 0x80u8 == 0 {
        start + k + 1
    } else {
        varint_stop_from(s, start, k + 1)
    }
}

/// The expanded 4-byte varint written for `v`.
pub open spec fn varint4(v: usize) -> Seq<u8> {
    seq![0x80u8 | ((v >> 21u32) as u8), 0x80u8 | ((v >> 14u32) as u8), 0x80u8 | ((v >> 7u32) as u8), (v & 0x7Fusize) as u8]
}

/// Parse an MPEG-4 descriptor size varint (1 to 4 bytes) at `*cursor`,
/// returning `(value, bytes consumed)` and advancing the cursor past what
/// was read.
pub fn parse_varint(bytes: &[u8], cursor: &mut usize) -> (r: Result<(usize, usize), Error>)
    ensures
        match spec_varint(bytes@, *old(cursor) as nat) {
            Ok((v, n)) => r == Ok::<(usize, usize), Error>((v as usize, n as usize)),
            Err(e) => r == Err::<(usize, usize), Error>(e),
        },
        *final(cursor) == varint_stop_from(bytes@, *old(cursor) as nat, 0),
{
    let start = *cursor;
    let mut value: u64 = 0;
    let mut k: usize = 0;
    loop
        invariant
            k <= 4,
            start == *old(cursor),
            *cursor == start,
            value as nat <= 0x0FFF_FFFF,
            varint_from(bytes@, start as nat, 0, 0) == varint_from(bytes@, start as nat, k as nat, value as nat),
            varint_stop_from(bytes@, start as nat, 0) == varint_stop_from(bytes@, start as nat, k as nat),
            k == 1 ==> value < 0x80,
            k == 2 ==> value < 0x4000,
            k == 3 ==> value < 0x20_0000,
            k == 0 ==> value == 0,
            k > 0 ==> start + k <= bytes@.len(),
        decreases 4 - k,
    {
        if start >= bytes.len() || bytes.len() - start <= k {
            *cursor = if start >= bytes.len() {
                start
            } else {
                start + k
            };
            return Err(
                Error::BufferTooShort {
                    need: if start >= bytes.len() {
                        start.saturating_add(1)
                    } else {
                        (start + k).saturating_add(1)
                    },
                    have: bytes.len(),
                    what: "descriptor size varint",
                },
            );
        }
        let b = bytes[start + k];
        assert(b & 0x7Fu8 <= 0x7F) by (bit_vector);
        let v = value * 128 + (b & 0x7F) as u64;
        if k + 1 > 4 {
            *cursor = start + k + 1;
            return Err(
                Error::InvalidValue {
                    field: "descriptor size varint",
                    value: (k + 1) as u64,
                    reason: "varint longer than 4 bytes",
                },
            );
        }
        if b & 0x80 == 0 {
            *cursor = start + k + 1;
            if v > 268_435_455 {
                return Err(
                    Error::InvalidValue {
                        field: "descriptor size",
                        value: v,
                        reason: "exceeds maximum descriptor size (2^28-1)",
                    },
                );
            }
            return Ok((v as usize, k + 1));
        }
        value = v;
        k += 1;
    }
}

/// Write `value` as the expanded 4-byte varint at `*cursor` of `buf`,
/// advancing the cursor; fails without writing when fewer than 4 bytes are
/// left.
pub fn write_varint_fixed(buf: &mut [u8], cursor: &mut usize, value: usize) -> (r: Result<(), Error>)
    ensures
        (*old(cursor) as nat + 4 > old(buf)@.len()) ==> r == Err::<(), Error>(
            Error::OutputBufferTooSmall { need: sat(*old(cursor) + 4int), have: old(buf)@.len() as usize },
        ) && final(buf)@ == old(buf)@ && *final(cursor) == *old(cursor),
        (*old(cursor) as nat + 4 <= old(buf)@.len()) ==> r == Ok::<(), Error>(())
            && final(buf)@ == old(buf)@.take(*old(cursor) as int) + varint4(value) + old(buf)@.skip(
            *old(cursor) + 4int,
        ) && *final(cursor) == *old(cursor) + 4,
{
    let c = *cursor;
    if c > buf.len() || buf.len() - c < 4 {
        return Err(Error::OutputBufferTooSmall { need: c.saturating_add(4), have: buf.len() });
    }
    let ghost before = buf@;
    buf[c] = 0x80u8 | ((value >> 21u32) as u8);
    buf[c + 1] = 0x80u8 | ((value >> 14u32) as u8);
    buf[c + 2] = 0x80u8 | ((value >> 7u32) as u8);
    buf[c + 3] = (value & 0x7Fusize) as u8;
    *cursor = c + 4;
    assert(buf@ =~= before.take(c as int) + varint4(value) + before.skip(c + 4int));
    Ok(())
}

/// Reading a fixed varint written for a value below 2^28 gives it back.
pub proof fn lemma_varint4_round_trip(v: usize, rest: Seq<u8>)
    requires
        v <= 0x0FFF_FFFF,
    ensures
        spec_varint(varint4(v) + rest, 0) == Ok::<(nat, nat), Error>((v as nat, 4)),
        varint_stop_from(varint4(v) + rest, 0, 0) == 4,
{
    let s = varint4(v) + rest;
    let b0 = 0x80u8 | ((v >> 21u32) as u8);
    let b1 = 0x80u8 | ((v >> 14u32) as u8);
    let b2 = 0x80u8 | ((v >> 7u32) as u8);
    let b3 = (v & 0x7Fusize) as u8;
    assert(s[0] == b0 && s[1] == b1 && s[2] == b2 && s[3] == b3);
    assert(b0 & 0x80u8 != 0 && b1 & 0x80u8 != 0 && b2 & 0x80u8 != 0 && b3 & 0x80u8 == 0) by (bit_vector)
        requires
            b0 == 0x80u8 | ((v >> 21u32) as u8),
            b1 == 0x80u8 | ((v >> 14u32) as u8),
            b2 == 0x80u8 | ((v >> 7u32) as u8),
            b3 == (v & 0x7Fusize) as u8,
    ;
    let d0 = (b0 & 0x7Fu8) as nat;
    let d1 = (b1 & 0x7Fu8) as nat;
    let d2 = (b2 & 0x7Fu8) as nat;
    let d3 = (b3 & 0x7Fu8) as nat;
    assert((((b0 & 0x7Fu8) as u64 * 128 + (b1 & 0x7Fu8) as u64) * 128 + (b2 & 0x7Fu8) as u64) * 128
        + (b3 & 0x7Fu8) as u64 == v as u64) by (bit_vector)
        requires
            v <= 0x0FFF_FFFF,
            b0 == 0x80u8 | ((v >> 21u32) as u8),
            b1 == 0x80u8 | ((v >> 14u32) as u8),
            b2 == 0x80u8 | ((v >> 7u32) as u8),
            b3 == (v & 0x7Fusize) as u8,
    ;
    assert(varint_from(s, 0, 3, (d0 * 128 + d1) * 128 + d2) == Ok::<(nat, nat), Error>((v as nat, 4)));
    assert(varint_from(s, 0, 2, d0 * 128 + d1) == varint_from(s, 0, 3, (d0 * 128 + d1) * 128 + d2));
    assert(varint_from(s, 0, 1, d0) == varint_from(s, 0, 2, d0 * 128 + d1));
    assert(varint_from(s, 0, 0, 0) == varint_from(s, 0, 1, 0 * 128 + d0));
    assert(varint_stop_from(s, 0, 3) == 4);
    assert(varint_stop_from(s, 0, 2) == 4);
    assert(varint_stop_from(s, 0, 1) == 4);
}

// ---------------------------------------------------------------------------
// Object type and stream type labels
// ---------------------------------------------------------------------------

/// MPEG-4 object type indication (ISO/IEC 14496-1 §7.2.6.6 Table 5).
#[derive(Debug, Clone, Copy, PartialEq, Eq, Structural)]
pub struct ObjectTypeIndication(pub u8);

/// The label of an object type indication.
pub open spec fn oti_name(v: u8) -> Seq<char> {
    if v == 0x20 { "MPEG-4 Visual"@ }
    else if v == 0x21 { "AVC / H.264"@ }
    else if v == 0x22 { "AVC parameter sets"@ }
    else if v == 0x40 { "MPEG-4 Audio / AAC"@ }
    else if v == 0x60 { "MPEG-2 Video Simple"@ }
    else if v == 0x61 { "MPEG-2 Video Main"@ }
    else if v == 0x62 { "MPEG-2 Video SNR"@ }
    else if v == 0x63 { "MPEG-2 Video Spatial"@ }
    else if v == 0x64 { "MPEG-2 Video High"@ }
    else if v == 0x65 { "MPEG-2 Video 422"@ }
    else if v == 0x66 { "MPEG-2 AAC LC"@ }
    else if v == 0x67 { "MPEG-2 AAC Main"@ }
    else if v == 0x68 { "MPEG-2 AAC SSR"@ }
    else if v == 0x69 { "MPEG-2 Audio (13818-3)"@ }
    else if v == 0x6A { "MPEG-1 Visual (11172-2)"@ }
    else if v == 0x6B { "MPEG-1 Audio (11172-3)"@ }
    else if v == 0x6C { "JPEG"@ }
    else if v == 0x6E { "JPEG 2000"@ }
    else if v == 0xFF { "no object type"@ }
    else { "user-private"@ }
}

impl ObjectTypeIndication {
    /// Label for the object type.
    pub fn name(&self) -> (r: &'static str)
        ensures
            r@ == oti_name(self.0),
    {
        let v = self.0;
        if v == 0x20 { "MPEG-4 Visual" }
        else if v == 0x21 { "AVC / H.264" }
        else if v == 0x22 { "AVC parameter sets" }
        else if v == 0x40 { "MPEG-4 Audio / AAC" }
        else if v == 0x60 { "MPEG-2 Video Simple" }
        else if v == 0x61 { "MPEG-2 Video Main" }
        else if v == 0x62 { "MPEG-2 Video SNR" }
        else if v == 0x63 { "MPEG-2 Video Spatial" }
        else if v == 0x64 { "MPEG-2 Video High" }
        else if v == 0x65 { "MPEG-2 Video 422" }
        else if v == 0x66 { "MPEG-2 AAC LC" }
        else if v == 0x67 { "MPEG-2 AAC Main" }
        else if v == 0x68 { "MPEG-2 AAC SSR" }
        else if v == 0x69 { "MPEG-2 Audio (13818-3)" }
        else if v == 0x6A { "MPEG-1 Visual (11172-2)" }
        else if v == 0x6B { "MPEG-1 Audio (11172-3)" }
        else if v == 0x6C { "JPEG" }
        else if v == 0x6E { "JPEG 2000" }
        else if v == 0xFF { "no object type" }
        else { "user-private" }
    }
}

/// MPEG-4 stream type (ISO/IEC 14496-1 §7.2.6.6 Table 6).
#[derive(Debug, Clone, Copy, PartialEq, Eq, Structural)]
pub struct StreamType(pub u8);

/// The label of a stream type.
pub open spec fn stream_type_name(v: u8) -> Seq<char> {
    if v == 0x01 { "ObjectDescriptorStream"@ }
    else if v == 0x02 { "ClockReferenceStream"@ }
    else if v == 0x03 { "SceneDescriptionStream"@ }
    else if v == 0x04 { "VisualStream"@ }
    else if v == 0x05 { "AudioStream"@ }
    else if v == 0x06 { "MPEG7Stream"@ }
    else if v == 0x07 { "IPMPStream"@ }
    else if v == 0x08 { "ObjectContentInfoStream"@ }
    else if v == 0x09 { "MPEGJStream"@ }
    else if 0x0A <= v <= 0x1F { "reserved"@ }
    else if 0x20 <= v <= 0x3F { "user-private"@ }
    else { "forbidden"@ }
}

impl StreamType {
    /// Label for the stream type.
    pub fn name(&self) -> (r: &'static str)
        ensures
            r@ == stream_type_name(self.0),
    {
        let v = self.0;
        if v == 0x01 { "ObjectDescriptorStream" }
        else if v == 0x02 { "ClockReferenceStream" }
        else if v == 0x03 { "SceneDescriptionStream" }
        else if v == 0x04 { "VisualStream" }
        else if v == 0x05 { "AudioStream" }
        else if v == 0x06 { "MPEG7Stream" }
        else if v == 0x07 { "IPMPStream" }
        else if v == 0x08 { "ObjectContentInfoStream" }
        else if v == 0x09 { "MPEGJStream" }
        else if 0x0A <= v && v <= 0x1F { "reserved" }
        else if 0x20 <= v && v <= 0x3F { "user-private" }
        else { "forbidden" }
    }
}

// ---------------------------------------------------------------------------
// Descriptors
// ---------------------------------------------------------------------------

pub proof fn lemma_varint_consumed(s: Seq<u8>, start: nat, k: nat, acc: nat)
    ensures
        match varint_from(s, start, k, acc) {
            Ok((v, n)) => k < n <= 4 && start + n <= s.len() && v <= 268_435_455,
            Err(_) => true,
        },
    decreases 5 - k,
{
    if k <= 4 && start + k < s.len() && k + 1 <= 4 && s[(start + k) as int] & 0x80u8 != 0 {
        lemma_varint_consumed(s, start, k + 1, acc * 128 + (s[(start + k) as int] & 0x7Fu8) as nat);
    }
}

/// A descriptor's bytes: tag, 4-byte size varint, body.
pub open spec fn descriptor_bytes(tag: u8, body: Seq<u8>) -> Seq<u8> {
    seq![tag] + varint4(body.len() as usize) + body
}

/// Decoder-specific configuration bytes (ISO/IEC 14496-1 §7.2.6.7).
#[derive(Debug, Clone, PartialEq, Eq)]
pub struct DecoderSpecificInfo {
    /// Opaque codec-configuration bytes.
    pub data: Vec<u8>,
}

/// SLConfigDescriptor (ISO/IEC 14496-1 §7.2.6.8), body kept opaque.
#[derive(Debug, Clone, PartialEq, Eq)]
pub struct SLConfigDescriptor {
    /// Body bytes.
    pub body: Vec<u8>,
}

fn push_descriptor(out: &mut Vec<u8>, tag: u8, body: &[u8])
    ensures
        final(out)@ == old(out)@ + descriptor_bytes(tag, body@),
{
    out.push(tag);
    let n = body.len();
    let mut v: [u8; 4] = [0u8; 4];
    let mut c: usize = 0;
    let _ = write_varint_fixed(&mut v, &mut c, n);
    assert(v@ =~= varint4(n));
    push_all(out, &v);
    push_all(out, body);
    assert(final(out)@ =~= old(out)@ + descriptor_bytes(tag, body@));
}

impl DecoderSpecificInfo {
    /// The descriptor bytes.
    pub open spec fn spec_bytes(&self) -> Seq<u8> {
        descriptor_bytes(TAG_DECODER_SPECIFIC_INFO, self.data@)
    }

    /// Take the body bytes verbatim.
    pub fn parse(body: &[u8]) -> (r: Result<Self, Error>)
        ensures
            r matches Ok(x) && x.data@ == body@,
    {
        Ok(Self { data: copy_range(body, 0, body.len()) })
    }

    /// Encoded size: tag, 4-byte varint, body.
    pub fn serialized_len(&self) -> (r: usize)
        requires
            self.data@.len() + 5 <= usize::MAX,
        ensures
            r == self.spec_bytes().len(),
    {
        5 + self.data.len()
    }

    /// The encoded descriptor.
    pub fn to_bytes(&self) -> (r: Vec<u8>)
        ensures
            r@ == self.spec_bytes(),
    {
        let mut out: Vec<u8> = Vec::new();
        push_descriptor(&mut out, TAG_DECODER_SPECIFIC_INFO, self.data.as_slice());
        out
    }
}

impl SLConfigDescriptor {
    /// The descriptor bytes.
    pub open spec fn spec_bytes(&self) -> Seq<u8> {
        descriptor_bytes(TAG_SL_CONFIG, self.body@)
    }

    /// Take the body bytes verbatim.
    pub fn parse(body: &[u8]) -> (r: Result<Self, Error>)
        ensures
            r matches Ok(x) && x.body@ == body@,
    {
        Ok(Self { body: copy_range(body, 0, body.len()) })
    }

    /// Encoded size: tag, 4-byte varint, body.
    pub fn serialized_len(&self) -> (r: usize)
        requires
            self.body@.len() + 5 <= usize::MAX,
        ensures
            r == self.spec_bytes().len(),
    {
        5 + self.body.len()
    }

    /// The encoded descriptor.
    pub fn to_bytes(&self) -> (r: Vec<u8>)
        ensures
            r@ == self.spec_bytes(),
    {
        let mut out: Vec<u8> = Vec::new();
        push_descriptor(&mut out, TAG_SL_CONFIG, self.body.as_slice());
        out
    }
}

/// Decoder configuration descriptor (ISO/IEC 14496-1 §7.2.6.6).
#[derive(Debug, Clone, PartialEq, Eq)]
pub struct DecoderConfigDescriptor {
    /// Object type indication (Table 5).
    pub object_type_indication: ObjectTypeIndication,
    /// Stream type (Table 6), 6 bits.
    pub stream_type: StreamType,
    /// `upStream` flag.
    pub up_stream: bool,
    /// `bufferSizeDB`, 24 bits.
    pub buffer_size_db: u32,
    /// Maximum bit rate.
    pub max_bitrate: u32,
    /// Average bit rate.
    pub avg_bitrate: u32,
    /// Optional decoder-specific configuration.
    pub decoder_specific_info: Option<DecoderSpecificInfo>,
}

/// `(oti, stream type, upStream, bufferSizeDB, maxBitrate, avgBitrate,
/// decoder-specific info bytes)` of a decoder configuration descriptor.
pub type DcdView = (u8, u8, bool, u32, u32, u32, Option<Seq<u8>>);

impl View for DecoderConfigDescriptor {
    type V = DcdView;

    open spec fn view(&self) -> DcdView {
        (
            self.object_type_indication.0,
            self.stream_type.0,
            self.up_stream,
            self.buffer_size_db,
            self.max_bitrate,
            self.avg_bitrate,
            match self.decoder_specific_info {
                Some(d) => Some(d.data@),
                None => None,
            },
        )
    }
}

/// The `streamType(6) | upStream(1) | reserved=1(1)` byte.
pub open spec fn st_byte(st: u8, up: bool) -> u8 {
    (((st & 0x3Fu8) << 2u8) | ((if up { 1u8 } else { 0u8 }) << 1u8) | 1u8) as u8
}

/// The encoded decoder-specific info, or nothing.
pub open spec fn opt_dsi_bytes(d: Option<Seq<u8>>) -> Seq<u8> {
    match d {
        Some(x) => descriptor_bytes(TAG_DECODER_SPECIFIC_INFO, x),
        None => Seq::empty(),
    }
}

/// The decoder configuration descriptor body.
pub open spec fn dcd_body(v: DcdView) -> Seq<u8> {
    seq![v.0, st_byte(v.1, v.2)] + be24(v.3) + be32(v.4) + be32(v.5) + opt_dsi_bytes(v.6)
}

/// The decoder configuration descriptor bytes.
pub open spec fn dcd_bytes(v: DcdView) -> Seq<u8> {
    descriptor_bytes(TAG_DECODER_CONFIG, dcd_body(v))
}

/// Walking the sub-descriptors of a decoder configuration descriptor body
/// from `c`, keeping the last decoder-specific info.
pub open spec fn dcd_subs(b: Seq<u8>, c: nat, dsi: Option<Seq<u8>>) -> Result<Option<Seq<u8>>, Error>
    decreases b.len() - c,
{
    if c >= b.len() {
        Ok(dsi)
    } else {
        match spec_varint(b, c + 1) {
            Err(e) => Err(e),
            Ok((size, n)) => {
                let s0 = c + 1 + n;
                if s0 + size > b.len() {
                    Err(
                        Error::BufferTooShort {
                            need: sat((s0 + size) as int),
                            have: b.len() as usize,
                            what: "DecoderConfigDescriptor sub_descriptor body",
                        },
                    )
                } else {
                    proof {
                        lemma_varint_consumed(b, c + 1, 0, 0);
                    }
                    dcd_subs(
                        b,
                        s0 + size,
                        if b[c as int] == 5 {
                            Some(b.subrange(s0 as int, (s0 + size) as int))
                        } else {
                            dsi
                        },
                    )
                }
            },
        }
    }
}

/// Outcome of parsing a decoder configuration descriptor body.
pub open spec fn spec_parse_dcd(b: Seq<u8>) -> Result<DcdView, Error> {
    if b.len() < 1 {
        Err(Error::BufferTooShort { need: 1, have: b.len() as usize, what: "objectTypeIndication" })
    } else if b.len() < 2 {
        Err(Error::BufferTooShort { need: 2, have: b.len() as usize, what: "streamType/upStream" })
    } else if b.len() < 5 {
        Err(Error::BufferTooShort { need: 5, have: b.len() as usize, what: "bufferSizeDB" })
    } else if b.len() < 9 {
        Err(Error::BufferTooShort { need: 9, have: b.len() as usize, what: "maxBitrate" })
    } else if b.len() < 13 {
        Err(Error::BufferTooShort { need: 13, have: b.len() as usize, what: "avgBitrate" })
    } else {
        match dcd_subs(b, 13, None) {
            Err(e) => Err(e),
            Ok(d) => Ok(
                (
                    b[0],
                    (b[1] >> 2u8) & 0x3Fu8,
                    (b[1] >> 1u8) & 1u8 != 0,
                    get24(b, 2),
                    get32(b, 5),
                    get32(b, 9),
                    d,
                ),
            ),
        }
    }
}

/// Read the sub-descriptor header (tag, size) at `c`: the body range.
fn read_sub(b: &[u8], c: usize, what: &'static str) -> (r: Result<(usize, usize), Error>)
    requires
        c < b@.len(),
    ensures
        match spec_varint(b@, (c + 1) as nat) {
            Err(e) => r == Err::<(usize, usize), Error>(e),
            Ok((size, n)) => if c + 1 + n + size > b@.len() {
                r == Err::<(usize, usize), Error>(
                    Error::BufferTooShort { need: sat(c + 1 + n + size), have: b@.len() as usize, what },
                )
            } else {
                r == Ok::<(usize, usize), Error>(((c + 1 + n) as usize, (c + 1 + n + size) as usize))
            },
        },
{
    let blen = b.len();
    assert(c + 1 <= blen);
    let mut cur = c + 1;
    proof {
        lemma_varint_consumed(b@, (c + 1) as nat, 0, 0);
    }
    let (size, n) = parse_varint(b, &mut cur)?;
    assert(c + 1 + n <= blen);
    let s0 = c + 1 + n;
    if size > b.len() - s0 {
        return Err(
            Error::BufferTooShort {
                need: if size <= usize::MAX - s0 {
                    s0 + size
                } else {
                    usize::MAX
                },
                have: b.len(),
                what,
            },
        );
    }
    Ok((s0, s0 + size))
}

impl DecoderConfigDescriptor {
    /// Parse a decoder configuration descriptor body: the fixed fields, then
    /// sub-descriptors (the last `DecoderSpecificInfo` is kept, others skipped).
    pub fn parse(body: &[u8]) -> (r: Result<Self, Error>)
        ensures
            match spec_parse_dcd(body@) {
                Ok(v) => r matches Ok(x) && x@ == v,
                Err(e) => r == Err::<Self, Error>(e),
            },
    {
        if body.len() < 1 {
            return Err(Error::BufferTooShort { need: 1, have: body.len(), what: "objectTypeIndication" });
        }
        if body.len() < 2 {
            return Err(Error::BufferTooShort { need: 2, have: body.len(), what: "streamType/upStream" });
        }
        if body.len() < 5 {
            return Err(Error::BufferTooShort { need: 5, have: body.len(), what: "bufferSizeDB" });
        }
        if body.len() < 9 {
            return Err(Error::BufferTooShort { need: 9, have: body.len(), what: "maxBitrate" });
        }
        if body.len() < 13 {
            return Err(Error::BufferTooShort { need: 13, have: body.len(), what: "avgBitrate" });
        }
        let st = body[1];
        let mut dsi: Option<DecoderSpecificInfo> = None;
        let mut c: usize = 13;
        while c < body.len()
            invariant
                13 <= c <= body@.len(),
                dcd_subs(body@, 13, None) == dcd_subs(
                    body@,
                    c as nat,
                    match dsi {
                        Some(d) => Some(d.data@),
                        None => None,
                    },
                ),
            decreases body@.len() - c,
        {
            let (s0, e) = read_sub(body, c, "DecoderConfigDescriptor sub_descriptor body")?;
            proof {
                lemma_varint_consumed(body@, (c + 1) as nat, 0, 0);
            }
            if body[c] == TAG_DECODER_SPECIFIC_INFO {
                dsi = Some(DecoderSpecificInfo::parse(&body[s0..e])?);
            }
            c = e;
        }
        Ok(
            Self {
                object_type_indication: ObjectTypeIndication(body[0]),
                stream_type: StreamType((st >> 2u8) & 0x3Fu8),
                up_stream: (st >> 1u8) & 1u8 != 0,
                buffer_size_db: read24(body, 2),
                max_bitrate: read32(body, 5),
                avg_bitrate: read32(body, 9),
                decoder_specific_info: dsi,
            },
        )
    }

    /// Encoded size of the descriptor.
    pub fn serialized_len(&self) -> (r: usize)
        requires
            dcd_bytes(self@).len() <= usize::MAX,
        ensures
            r == dcd_bytes(self@).len(),
    {
        match &self.decoder_specific_info {
            Some(d) => 18 + 5 + d.data.len(),
            None => 18,
        }
    }

    /// The encoded descriptor.
    pub fn to_bytes(&self) -> (r: Vec<u8>)
        ensures
            r@ == dcd_bytes(self@),
    {
        let mut body: Vec<u8> = Vec::new();
        body.push(self.object_type_indication.0);
        let up: u8 = if self.up_stream {
            1
        } else {
            0
        };
        body.push(((self.stream_type.0 & 0x3Fu8) << 2u8) | (up << 1u8) | 1u8);
        push24(&mut body, self.buffer_size_db);
        push32(&mut body, self.max_bitrate);
        push32(&mut body, self.avg_bitrate);
        match &self.decoder_specific_info {
            Some(d) => {
                push_descriptor(&mut body, TAG_DECODER_SPECIFIC_INFO, d.data.as_slice());
            },
            None => {},
        }
        assert(body@ =~= dcd_body(self@));
        let mut out: Vec<u8> = Vec::new();
        push_descriptor(&mut out, TAG_DECODER_CONFIG, body.as_slice());
        assert(out@ =~= dcd_bytes(self@));
        out
    }
}

// ---------------------------------------------------------------------------
// ES_Descriptor
// ---------------------------------------------------------------------------

/// The characters `String::from_utf8_lossy` makes of a byte string.
pub uninterp spec fn utf8_lossy(b: Seq<u8>) -> Seq<char>;

/// The characters a URL's bytes read as: their UTF-8 decoding when valid,
/// else what `String::from_utf8_lossy` makes of them.
pub open spec fn lossy_decode(b: Seq<u8>) -> Seq<char> {
    if vstd::utf8::valid_utf8(b) {
        vstd::utf8::decode_utf8(b)
    } else {
        utf8_lossy(b)
    }
}

/// Calls `String::from_utf8_lossy`: decodes UTF-8, replacing invalid
/// sequences with U+FFFD. The contract names the result by the input bytes
/// and states the documented case only: valid UTF-8 decodes unchanged. The
/// replacement rules for invalid input are not stated.
#[verifier::external_body]
pub(crate) fn string_from_utf8_lossy(b: &[u8]) -> (r: String)
    ensures
        r@ == utf8_lossy(b@),
        vstd::utf8::valid_utf8(b@) ==> r@ == vstd::utf8::decode_utf8(b@),
{
    String::from_utf8_lossy(b).into_owned()
}

/// ES_Descriptor (ISO/IEC 14496-1 §7.2.6.5).
#[derive(Debug, Clone, PartialEq, Eq)]
pub struct ESDescriptor {
    /// ES_ID.
    pub es_id: u16,
    /// `streamDependenceFlag`.
    pub stream_dependence_flag: bool,
    /// `URL_Flag`.
    pub url_flag: bool,
    /// `OCRstreamFlag`.
    pub ocr_stream_flag: bool,
    /// `streamPriority` (5 bits).
    pub stream_priority: u8,
    /// `dependsOn_ES_ID`, present with `streamDependenceFlag`.
    pub depends_on_es_id: Option<u16>,
    /// `URLstring`, present with `URL_Flag`.
    pub url: Option<String>,
    /// `OCR_ES_Id`, present with `OCRstreamFlag`.
    pub ocr_es_id: Option<u16>,
    /// Decoder configuration descriptor.
    pub decoder_config: Option<DecoderConfigDescriptor>,
    /// SL config descriptor body.
    pub sl_config: Option<SLConfigDescriptor>,
}

/// `(ES_ID, streamDependenceFlag, URL_Flag, OCRstreamFlag, streamPriority,
/// dependsOn_ES_ID, URL, OCR_ES_Id, decoder config, SL config body)`.
pub type EsView = (
    u16,
    bool,
    bool,
    bool,
    u8,
    Option<u16>,
    Option<Seq<char>>,
    Option<u16>,
    Option<DcdView>,
    Option<Seq<u8>>,
);

impl View for ESDescriptor {
    type V = EsView;

    open spec fn view(&self) -> EsView {
        (
            self.es_id,
            self.stream_dependence_flag,
            self.url_flag,
            self.ocr_stream_flag,
            self.stream_priority,
            self.depends_on_es_id,
            match self.url {
                Some(u) => Some(u@),
                None => None,
            },
            self.ocr_es_id,
            match self.decoder_config {
                Some(d) => Some(d@),
                None => None,
            },
            match self.sl_config {
                Some(s) => Some(s.body@),
                None => None,
            },
        )
    }
}

/// Reading an optional 16-bit field at `c`.
pub open spec fn opt16_at(b: Seq<u8>, c: nat, present: bool, what: &'static str) -> Result<(Option<u16>, nat), Error> {
    if !present {
        Ok((None, c))
    } else if c + 2 > b.len() {
        Err(Error::BufferTooShort { need: sat(c + 2int), have: b.len() as usize, what })
    } else {
        Ok((Some(get16(b, c as int)), c + 2))
    }
}

/// Reading the optional length-prefixed URL at `c`.
pub open spec fn url_at(b: Seq<u8>, c: nat, present: bool) -> Result<(Option<Seq<char>>, nat), Error> {
    if !present {
        Ok((None, c))
    } else if c >= b.len() {
        Err(Error::BufferTooShort { need: sat(c + 1int), have: b.len() as usize, what: "URLLength" })
    } else if c + 1 + b[c as int] > b.len() {
        Err(Error::BufferTooShort { need: sat(c + 1 + b[c as int]), have: b.len() as usize, what: "URLstring" })
    } else {
        Ok((Some(lossy_decode(b.subrange(c + 1int, c + 1 + b[c as int]))), c + 1 + b[c as int] as nat))
    }
}

/// Walking the sub-descriptors of an ES_Descriptor body from `c`, keeping
/// the last decoder configuration and SL configuration.
pub open spec fn es_subs(b: Seq<u8>, c: nat, dc: Option<DcdView>, sl: Option<Seq<u8>>) -> Result<
    (Option<DcdView>, Option<Seq<u8>>),
    Error,
>
    decreases b.len() - c,
{
    if c >= b.len() {
        Ok((dc, sl))
    } else {
        match spec_varint(b, c + 1) {
            Err(e) => Err(e),
            Ok((size, n)) => {
                let s0 = c + 1 + n;
                if s0 + size > b.len() {
                    Err(
                        Error::BufferTooShort {
                            need: sat((s0 + size) as int),
                            have: b.len() as usize,
                            what: "ES_Descriptor sub-descriptor body",
                        },
                    )
                } else {
                    proof {
                        lemma_varint_consumed(b, c + 1, 0, 0);
                    }
                    let body = b.subrange(s0 as int, (s0 + size) as int);
                    if b[c as int] == 4 {
                        match spec_parse_dcd(body) {
                            Err(e) => Err(e),
                            Ok(d) => es_subs(b, s0 + size, Some(d), sl),
                        }
                    } else if b[c as int] == 6 {
                        es_subs(b, s0 + size, dc, Some(body))
                    } else {
                        es_subs(b, s0 + size, dc, sl)
                    }
                }
            },
        }
    }
}

/// Outcome of parsing an ES_Descriptor body.
pub open spec fn spec_parse_es(b: Seq<u8>) -> Result<EsView, Error> {
    if b.len() < 2 {
        Err(Error::BufferTooShort { need: 2, have: b.len() as usize, what: "ES_ID" })
    } else if b.len() < 3 {
        Err(Error::BufferTooShort { need: 3, have: b.len() as usize, what: "ES flags byte" })
    } else {
        let f = b[2];
        let sdf = f & 0x80u8 != 0;
        let urlf = f & 0x40u8 != 0;
        let ocrf = f & 0x20u8 != 0;
        match opt16_at(b, 3, sdf, "dependsOn_ES_ID") {
            Err(e) => Err(e),
            Ok((dep, c1)) => match url_at(b, c1, urlf) {
                Err(e) => Err(e),
                Ok((url, c2)) => match opt16_at(b, c2, ocrf, "OCR_ES_Id") {
                    Err(e) => Err(e),
                    Ok((ocr, c3)) => match es_subs(b, c3, None, None) {
                        Err(e) => Err(e),
                        Ok((dc, sl)) => Ok(
                            (get16(b, 0), sdf, urlf, ocrf, f & 0x1Fu8, dep, url, ocr, dc, sl),
                        ),
                    },
                },
            },
        }
    }
}

/// The ES flags byte.
pub open spec fn es_flags_byte(v: EsView) -> u8 {
    (v.4 & 0x1Fu8) | (if v.1 { 0x80u8 } else { 0u8 }) | (if v.2 { 0x40u8 } else { 0u8 }) | (if v.3 {
        0x20u8
    } else {
        0u8
    })
}

/// The UTF-8 bytes of a URL.
pub open spec fn url_bytes(u: Seq<char>) -> Seq<u8> {
    vstd::utf8::encode_utf8(u)
}

/// The body size the size varint announces: fixed fields as the flags
/// select them, then the sub-descriptors.
pub open spec fn es_announced(v: EsView) -> nat {
    3 + (if v.1 { 2nat } else { 0 }) + (if v.2 {
        1 + match v.6 {
            Some(u) => url_bytes(u).len(),
            None => 0,
        }
    } else {
        0
    }) + (if v.3 { 2nat } else { 0 }) + es_sub_bytes(v).len()
}

/// The encoded sub-descriptors.
pub open spec fn es_sub_bytes(v: EsView) -> Seq<u8> {
    (match v.8 {
        Some(d) => dcd_bytes(d),
        None => Seq::empty(),
    }) + match v.9 {
        Some(b) => descriptor_bytes(TAG_SL_CONFIG, b),
        None => Seq::empty(),
    }
}

/// The ES_Descriptor body as written: optional fields written when present.
pub open spec fn es_body(v: EsView) -> Seq<u8> {
    be16(v.0) + seq![es_flags_byte(v)] + (match v.5 {
        Some(d) => be16(d),
        None => Seq::empty(),
    }) + (match v.6 {
        Some(u) => seq![url_bytes(u).len() as u8] + url_bytes(u),
        None => Seq::empty(),
    }) + (match v.7 {
        Some(o) => be16(o),
        None => Seq::empty(),
    }) + es_sub_bytes(v)
}

/// The ES_Descriptor bytes.
pub open spec fn es_bytes(v: EsView) -> Seq<u8> {
    seq![TAG_ES_DESCRIPTOR] + varint4(es_announced(v) as usize) + es_body(v)
}

impl ESDescriptor {
    /// Parse an ES_Descriptor body: ES_ID, flags, the flagged optional
    /// fields, then sub-descriptors (the last decoder configuration and SL
    /// configuration are kept, others skipped).
    pub fn parse(body: &[u8]) -> (r: Result<Self, Error>)
        ensures
            match spec_parse_es(body@) {
                Ok(v) => r matches Ok(x) && x@ == v,
                Err(e) => r == Err::<Self, Error>(e),
            },
    {
        let n = body.len();
        if n < 2 {
            return Err(Error::BufferTooShort { need: 2, have: n, what: "ES_ID" });
        }
        if n < 3 {
            return Err(Error::BufferTooShort { need: 3, have: n, what: "ES flags byte" });
        }
        let es_id = read16(body, 0);
        let f = body[2];
        let sdf = f & 0x80u8 != 0;
        let urlf = f & 0x40u8 != 0;
        let ocrf = f & 0x20u8 != 0;
        let mut c: usize = 3;
        let depends_on_es_id = if sdf {
            if n - c < 2 {
                return Err(Error::BufferTooShort { need: c + 2, have: n, what: "dependsOn_ES_ID" });
            }
            let v = read16(body, c);
            c = c + 2;
            Some(v)
        } else {
            None
        };
        let url = if urlf {
            if c >= n {
                return Err(Error::BufferTooShort { need: c.saturating_add(1), have: n, what: "URLLength" });
            }
            let ul = body[c] as usize;
            if n - c - 1 < ul {
                return Err(Error::BufferTooShort { need: c + 1 + ul, have: n, what: "URLstring" });
            }
            let u = string_from_utf8_lossy(&body[c + 1..c + 1 + ul]);
            c = c + 1 + ul;
            Some(u)
        } else {
            None
        };
        let ocr_es_id = if ocrf {
            if n - c < 2 {
                return Err(Error::BufferTooShort { need: c + 2, have: n, what: "OCR_ES_Id" });
            }
            let v = read16(body, c);
            c = c + 2;
            Some(v)
        } else {
            None
        };
        let ghost c3 = c;
        let ghost url_view: Option<Seq<char>> = match &url {
            Some(u) => Some(u@),
            None => None,
        };
        assert(spec_parse_es(body@) == match es_subs(body@, c3 as nat, None, None) {
            Ok((dc, sl)) => Ok((es_id, sdf, urlf, ocrf, f & 0x1Fu8, depends_on_es_id, url_view, ocr_es_id, dc, sl)),
            Err(e) => Err::<EsView, Error>(e),
        });
        let mut decoder_config: Option<DecoderConfigDescriptor> = None;
        let mut sl_config: Option<SLConfigDescriptor> = None;
        while c < n
            invariant
                spec_parse_es(body@) == match es_subs(body@, c3 as nat, None, None) {
                    Ok((dc, sl)) => Ok((es_id, sdf, urlf, ocrf, f & 0x1Fu8, depends_on_es_id, url_view, ocr_es_id, dc, sl)),
                    Err(e) => Err::<EsView, Error>(e),
                },
                c3 <= c <= n,
                n == body@.len(),
                es_subs(body@, c3 as nat, None, None) == es_subs(
                    body@,
                    c as nat,
                    match decoder_config {
                        Some(d) => Some(d@),
                        None => None,
                    },
                    match sl_config {
                        Some(s) => Some(s.body@),
                        None => None,
                    },
                ),
            decreases n - c,
        {
            let (s0, e) = read_sub(body, c, "ES_Descriptor sub-descriptor body")?;
            proof {
                lemma_varint_consumed(body@, (c + 1) as nat, 0, 0);
            }
            let tag = body[c];
            if tag == TAG_DECODER_CONFIG {
                decoder_config = Some(DecoderConfigDescriptor::parse(&body[s0..e])?);
            } else if tag == TAG_SL_CONFIG {
                sl_config = Some(SLConfigDescriptor::parse(&body[s0..e])?);
            }
            c = e;
        }
        Ok(
            Self {
                es_id,
                stream_dependence_flag: sdf,
                url_flag: urlf,
                ocr_stream_flag: ocrf,
                stream_priority: f & 0x1Fu8,
                depends_on_es_id,
                url,
                ocr_es_id,
                decoder_config,
                sl_config,
            },
        )
    }

    fn sub_bytes(&self) -> (r: Vec<u8>)
        ensures
            r@ == es_sub_bytes(self@),
    {
        let mut subs: Vec<u8> = Vec::new();
        match &self.decoder_config {
            Some(d) => {
                let b = d.to_bytes();
                push_all(&mut subs, b.as_slice());
            },
            None => {},
        }
        match &self.sl_config {
            Some(s) => {
                let b = s.to_bytes();
                push_all(&mut subs, b.as_slice());
            },
            None => {},
        }
        assert(subs@ =~= es_sub_bytes(self@));
        subs
    }

    fn announced_size(&self, subs_len: usize) -> (r: usize)
        requires
            subs_len == es_sub_bytes(self@).len(),
            es_announced(self@) <= usize::MAX,
        ensures
            r == es_announced(self@),
    {
        let mut size: usize = 3;
        if self.stream_dependence_flag {
            size = size + 2;
        }
        if self.url_flag {
            size = size + 1 + match &self.url {
                Some(u) => u.as_str().len(),
                None => 0,
            };
        }
        if self.ocr_stream_flag {
            size = size + 2;
        }
        size = size + subs_len;
        size
    }

    fn body_bytes(&self, subs: &Vec<u8>) -> (r: Vec<u8>)
        requires
            subs@ == es_sub_bytes(self@),
        ensures
            r@ == es_body(self@),
    {
        let mut body: Vec<u8> = Vec::new();
        push16(&mut body, self.es_id);
        let flags: u8 = (self.stream_priority & 0x1Fu8) | (if self.stream_dependence_flag {
            0x80u8
        } else {
            0u8
        }) | (if self.url_flag {
            0x40u8
        } else {
            0u8
        }) | (if self.ocr_stream_flag {
            0x20u8
        } else {
            0u8
        });
        body.push(flags);
        let ghost p1 = body@;
        assert(p1 =~= be16(self.es_id) + seq![es_flags_byte(self@)]);
        match self.depends_on_es_id {
            Some(d) => {
                push16(&mut body, d);
            },
            None => {},
        }
        let ghost p2 = body@;
        assert(p2 =~= p1 + match self@.5 {
            Some(d) => be16(d),
            None => Seq::<u8>::empty(),
        });
        match &self.url {
            Some(u) => {
                let us = u.as_str();
                let ub = us.as_bytes();
                assert(ub@ == url_bytes(u@));
                body.push(ub.len() as u8);
                push_all(&mut body, ub);
            },
            None => {},
        }
        let ghost p3 = body@;
        assert(p3 =~= p2 + match self@.6 {
            Some(u) => seq![url_bytes(u).len() as u8] + url_bytes(u),
            None => Seq::<u8>::empty(),
        });
        match self.ocr_es_id {
            Some(o) => {
                push16(&mut body, o);
            },
            None => {},
        }
        let ghost p4 = body@;
        assert(p4 =~= p3 + match self@.7 {
            Some(o) => be16(o),
            None => Seq::<u8>::empty(),
        });
        push_all(&mut body, subs.as_slice());
        assert(body@ =~= es_body(self@));
        body
    }

    /// The encoded descriptor.
    pub fn to_bytes(&self) -> (r: Vec<u8>)
        requires
            es_announced(self@) <= usize::MAX,
        ensures
            r@ == es_bytes(self@),
    {
        let subs = self.sub_bytes();
        let size = self.announced_size(subs.len());
        let body = self.body_bytes(&subs);
        let mut out: Vec<u8> = Vec::new();
        out.push(TAG_ES_DESCRIPTOR);
        let mut v: [u8; 4] = [0u8; 4];
        let mut vc: usize = 0;
        let _ = write_varint_fixed(&mut v, &mut vc, size);
        assert(v@ =~= varint4(size));
        push_all(&mut out, &v);
        push_all(&mut out, body.as_slice());
        assert(out@ =~= es_bytes(self@));
        out
    }
}

// ---------------------------------------------------------------------------
// esds box
// ---------------------------------------------------------------------------

/// `ESDBox`: the `esds` FullBox wrapping an ES_Descriptor.
#[derive(Debug, Clone, PartialEq, Eq)]
pub struct EsdsBox {
    /// The contained ES_Descriptor.
    pub es_descriptor: ESDescriptor,
}

/// The `esds` box bytes.
pub open spec fn esds_bytes(v: EsView) -> Seq<u8> {
    box_head(12 + es_bytes(v).len(), ESDS@) + seq![0u8, 0u8, 0u8, 0u8] + es_bytes(v)
}

/// The ES_Descriptor's declared size lies inside the `esds` body (reading
/// it would otherwise run past the input).
pub open spec fn esds_body_in_bounds(body: Seq<u8>) -> bool {
    body.len() >= 5 && body[4] == TAG_ES_DESCRIPTOR ==> match spec_varint(body.skip(4), 1) {
        Ok((size, n)) => 1 + n + size <= body.len() - 4,
        Err(_) => true,
    }
}

/// Outcome of parsing an `esds` body (after the box header).
pub open spec fn spec_parse_esds_body(body: Seq<u8>) -> Result<EsView, Error> {
    if body.len() < 4 {
        Err(Error::BufferTooShort { need: 4, have: body.len() as usize, what: "esds FullBox header" })
    } else if body.len() < 5 {
        Err(Error::BufferTooShort { need: 1, have: (body.len() - 4) as usize, what: "ES_Descriptor tag" })
    } else if body[4] != TAG_ES_DESCRIPTOR {
        Err(
            Error::InvalidValue {
                field: "descriptor_tag",
                value: body[4] as u64,
                reason: "expected ES_DescrTag (0x03) in esds box",
            },
        )
    } else {
        match spec_varint(body.skip(4), 1) {
            Err(e) => Err(e),
            Ok((size, n)) => spec_parse_es(body.skip(4).subrange(1 + n as int, 1 + n + size as int)),
        }
    }
}

/// Every `esds` box the input starts with has an in-bounds descriptor.
pub open spec fn esds_box_in_bounds(data: Seq<u8>) -> bool {
    match spec_box_header(data) {
        Ok((t, hl, size)) => t == ESDS@ ==> esds_body_in_bounds(data.subrange(hl as int, size as int)),
        Err(_) => true,
    }
}

/// Outcome of parsing a whole `esds` box.
pub open spec fn spec_parse_esds_box(data: Seq<u8>) -> Result<EsView, Error> {
    match spec_box_header(data) {
        Err(e) => Err(e),
        Ok((t, hl, size)) => if t != ESDS@ {
            Err(Error::InvalidValue { field: "box_type", value: get32(t, 0) as u64, reason: "expected 'esds'" })
        } else {
            spec_parse_esds_body(data.subrange(hl as int, size as int))
        },
    }
}

impl EsdsBox {
    /// Parse a whole `esds` box (header and body).
    pub fn parse_box(data: &[u8]) -> (r: Result<Self, Error>)
        requires
            esds_box_in_bounds(data@),
        ensures
            match spec_parse_esds_box(data@) {
                Ok(v) => r matches Ok(x) && x.es_descriptor@ == v,
                Err(e) => r == Err::<Self, Error>(e),
            },
    {
        let h = parse_box_header(data)?;
        proof {
            crate::box_types::lemma_box_header_bounds(data@);
        }
        if !fourcc_eq(&h.box_type, &ESDS) {
            return Err(
                Error::InvalidValue {
                    field: "box_type",
                    value: read32(&h.box_type, 0) as u64,
                    reason: "expected 'esds'",
                },
            );
        }
        Self::parse_body(&data[h.header_len..h.size])
    }

    /// Parse an `esds` body (after the box header): the FullBox word, then
    /// one ES_Descriptor.
    pub fn parse_body(body: &[u8]) -> (r: Result<Self, Error>)
        requires
            esds_body_in_bounds(body@),
        ensures
            match spec_parse_esds_body(body@) {
                Ok(v) => r matches Ok(x) && x.es_descriptor@ == v,
                Err(e) => r == Err::<Self, Error>(e),
            },
    {
        if body.len() < 4 {
            return Err(Error::BufferTooShort { need: 4, have: body.len(), what: "esds FullBox header" });
        }
        let payload = &body[4..body.len()];
        assert(payload@ =~= body@.skip(4));
        if payload.len() < 1 {
            return Err(Error::BufferTooShort { need: 1, have: payload.len(), what: "ES_Descriptor tag" });
        }
        let tag = payload[0];
        if tag != TAG_ES_DESCRIPTOR {
            return Err(
                Error::InvalidValue {
                    field: "descriptor_tag",
                    value: tag as u64,
                    reason: "expected ES_DescrTag (0x03) in esds box",
                },
            );
        }
        let mut cur: usize = 1;
        proof {
            lemma_varint_consumed(payload@, 1, 0, 0);
        }
        let (size, n) = parse_varint(payload, &mut cur)?;
        let es = ESDescriptor::parse(&payload[1 + n..1 + n + size])?;
        Ok(Self { es_descriptor: es })
    }

    /// Wrap an ES_Descriptor.
    pub fn new(es_descriptor: ESDescriptor) -> (r: Self)
        ensures
            r.es_descriptor == es_descriptor,
    {
        Self { es_descriptor }
    }

    /// Encoded size of the box.
    pub fn serialized_len(&self) -> (r: usize)
        requires
            esds_bytes(self.es_descriptor@).len() <= usize::MAX,
        ensures
            r == esds_bytes(self.es_descriptor@).len(),
    {
        let b = self.to_bytes();
        b.len()
    }

    /// The encoded box.
    pub fn to_bytes(&self) -> (r: Vec<u8>)
        requires
            esds_bytes(self.es_descriptor@).len() <= usize::MAX,
        ensures
            r@ == esds_bytes(self.es_descriptor@),
    {
        let es = self.es_descriptor.to_bytes();
        let mut out: Vec<u8> = Vec::new();
        push32(&mut out, (12 + es.len()) as u32);
        push_all(&mut out, &ESDS);
        push32(&mut out, 0);
        push_all(&mut out, es.as_slice());
        assert(be32(0) =~= seq![0u8, 0u8, 0u8, 0u8]) by {
            assert(((0u32 >> 24u32) as u8) == 0u8 && ((0u32 >> 16u32) as u8) == 0u8 && ((0u32 >> 8u32)
                as u8) == 0u8 && (0u32 as u8) == 0u8) by (bit_vector);
        }
        assert(out@ =~= esds_bytes(self.es_descriptor@));
        out
    }

    /// Write the encoded box to the front of `buf`.
    pub fn serialize_into(&self, buf: &mut Vec<u8>) -> (r: Result<usize, Error>)
        requires
            esds_bytes(self.es_descriptor@).len() <= usize::MAX,
        ensures
            old(buf)@.len() < esds_bytes(self.es_descriptor@).len() ==> r == Err::<usize, Error>(
                Error::OutputBufferTooSmall {
                    need: esds_bytes(self.es_descriptor@).len() as usize,
                    have: old(buf)@.len() as usize,
                },
            ) && final(buf)@ == old(buf)@,
            old(buf)@.len() >= esds_bytes(self.es_descriptor@).len() ==> r == Ok::<usize, Error>(
                esds_bytes(self.es_descriptor@).len() as usize,
            ) && final(buf)@ == esds_bytes(self.es_descriptor@) + old(buf)@.skip(
                esds_bytes(self.es_descriptor@).len() as int,
            ),
    {
        let bytes = self.to_bytes();
        let r = write_prefix(buf, bytes.as_slice());
        proof {
            let n = esds_bytes(self.es_descriptor@).len() as int;
            if old(buf)@.len() >= n {
                assert(old(buf)@.subrange(n, old(buf)@.len() as int) =~= old(buf)@.skip(n));
            }
        }
        r
    }
}

// ---------------------------------------------------------------------------
// Round trips
// ---------------------------------------------------------------------------

proof fn lemma_descriptor_read(tag: u8, body: Seq<u8>, b: Seq<u8>, c: nat)
    requires
        body.len() <= 0x0FFF_FFFF,
        c + 5 + body.len() <= b.len(),
        b.subrange(c as int, (c + 5 + body.len()) as int) == descriptor_bytes(tag, body),
    ensures
        b[c as int] == tag,
        spec_varint(b, c + 1) == Ok::<(nat, nat), Error>((body.len(), 4)),
        b.subrange((c + 5) as int, (c + 5 + body.len()) as int) == body,
{
    let d = descriptor_bytes(tag, body);
    let hi = (c + 5 + body.len()) as int;
    let v = body.len() as usize;
    assert(b.subrange(c as int, hi)[0] == b[c as int]);
    crate::bytes::lemma_subrange_of(b, c as int, hi, d, 1, 5);
    assert(d.subrange(1, 5) =~= varint4(v));
    crate::bytes::lemma_subrange_of(b, c as int, hi, d, 5, 5 + body.len() as int);
    assert(d.subrange(5, 5 + body.len() as int) =~= body);
    let rest = b.skip(c + 5int);
    assert(b.skip(c + 1int) =~= b.subrange(c + 1int, c + 5int) + rest);
    lemma_varint4_round_trip(v, rest);
    lemma_varint_shift(b, c + 1, 0, 0);
}

/// Reading a varint inside `b` at `start` is reading it at the front of
/// `b.skip(start)`, wherever the latter succeeds.
proof fn lemma_varint_shift(b: Seq<u8>, start: nat, k: nat, acc: nat)
    requires
        start <= b.len(),
    ensures
        varint_from(b.skip(start as int), 0, k, acc) is Ok ==> varint_from(b, start, k, acc)
            == varint_from(b.skip(start as int), 0, k, acc),
    decreases 5 - k,
{
    let s = b.skip(start as int);
    if k <= 4 && start + k < b.len() {
        assert(s[k as int] == b[(start + k) as int]);
        lemma_varint_shift(b, start, k + 1, acc * 128 + (b[(start + k) as int] & 0x7Fu8) as nat);
    }
}

/// A decoder configuration descriptor whose fields fit their widths.
pub open spec fn dcd_wf(d: DcdView) -> bool {
    &&& d.1 < 64
    &&& d.3 < 0x100_0000
    &&& dcd_body(d).len() <= 0x0FFF_FFFF
}

proof fn lemma_st_byte(st: u8, up: bool)
    requires
        st < 64,
    ensures
        (st_byte(st, up) >> 2u8) & 0x3Fu8 == st,
        ((st_byte(st, up) >> 1u8) & 1u8 != 0) == up,
{
    let u: u8 = if up { 1u8 } else { 0u8 };
    let b = st_byte(st, up);
    assert(b == (((st & 0x3Fu8) << 2u8) | (u << 1u8) | 1u8) as u8);
    assert((b >> 2u8) & 0x3Fu8 == st && ((b >> 1u8) & 1u8 == u)) by (bit_vector)
        requires
            st < 64,
            u <= 1,
            b == (((st & 0x3Fu8) << 2u8) | (u << 1u8) | 1u8) as u8,
    ;
}

/// Parsing an encoded decoder configuration descriptor body gives it back.
pub proof fn lemma_dcd_round_trip(d: DcdView)
    requires
        dcd_wf(d),
    ensures
        spec_parse_dcd(dcd_body(d)) == Ok::<DcdView, Error>(d),
{
    let b = dcd_body(d);
    lemma_st_byte(d.1, d.2);
    assert(b.subrange(2, 5) =~= be24(d.3));
    crate::bytes::lemma_be24_get24(d.3, b, 2);
    assert(b.subrange(5, 9) =~= be32(d.4));
    crate::bytes::lemma_be32_get32(d.4, b, 5);
    assert(b.subrange(9, 13) =~= be32(d.5));
    crate::bytes::lemma_be32_get32(d.5, b, 9);
    match d.6 {
        Some(x) => {
            assert(b.subrange(13, b.len() as int) =~= descriptor_bytes(5, x));
            lemma_descriptor_read(5, x, b, 13);
            assert(dcd_subs(b, 13 + 5 + x.len(), Some(x)) == Ok::<Option<Seq<u8>>, Error>(Some(x)));
        },
        None => {},
    }
}

/// An ES_Descriptor that writes and reads back faithfully: each flag agrees
/// with its optional field, the fields fit their widths, the URL is at most
/// 255 bytes and every size fits a descriptor varint.
pub open spec fn es_wf(v: EsView) -> bool {
    &&& v.1 == (v.5 is Some)
    &&& v.2 == (v.6 is Some)
    &&& v.3 == (v.7 is Some)
    &&& v.4 < 32
    &&& (v.6 matches Some(u) ==> url_bytes(u).len() <= 255)
    &&& (v.8 matches Some(d) ==> dcd_wf(d))
    &&& (v.9 matches Some(x) ==> x.len() <= 0x0FFF_FFFF)
    &&& es_body(v).len() <= 0x0FFF_FFFF
}

proof fn lemma_es_flags(v: EsView)
    requires
        v.4 < 32,
    ensures
        (es_flags_byte(v) & 0x80u8 != 0) == v.1,
        (es_flags_byte(v) & 0x40u8 != 0) == v.2,
        (es_flags_byte(v) & 0x20u8 != 0) == v.3,
        es_flags_byte(v) & 0x1Fu8 == v.4,
{
    let p = v.4;
    let a: u8 = if v.1 { 0x80u8 } else { 0u8 };
    let b: u8 = if v.2 { 0x40u8 } else { 0u8 };
    let c: u8 = if v.3 { 0x20u8 } else { 0u8 };
    let f = es_flags_byte(v);
    assert(f == (p & 0x1Fu8) | a | b | c);
    assert(((f & 0x80u8 != 0) == (a == 0x80u8)) && ((f & 0x40u8 != 0) == (b == 0x40u8)) && ((f
        & 0x20u8 != 0) == (c == 0x20u8)) && (f & 0x1Fu8 == p)) by (bit_vector)
        requires
            p < 32,
            a == 0x80u8 || a == 0u8,
            b == 0x40u8 || b == 0u8,
            c == 0x20u8 || c == 0u8,
            f == (p & 0x1Fu8) | a | b | c,
    ;
}

proof fn lemma_es_subs_read(v: EsView, b: Seq<u8>, c: nat)
    requires
        es_wf(v),
        c + es_sub_bytes(v).len() == b.len(),
        b.subrange(c as int, b.len() as int) == es_sub_bytes(v),
    ensures
        es_subs(b, c, None, None) == Ok::<(Option<DcdView>, Option<Seq<u8>>), Error>((v.8, v.9)),
{
    let all = es_sub_bytes(v);
    let d1 = match v.8 {
        Some(d) => dcd_bytes(d),
        None => Seq::<u8>::empty(),
    };
    let d2 = match v.9 {
        Some(x) => descriptor_bytes(TAG_SL_CONFIG, x),
        None => Seq::<u8>::empty(),
    };
    assert(all =~= d1 + d2);
    let c2 = c + d1.len();
    let n = b.len() as int;
    crate::bytes::lemma_subrange_of(b, c as int, n, all, 0, d1.len() as int);
    assert(all.subrange(0, d1.len() as int) =~= d1);
    crate::bytes::lemma_subrange_of(b, c as int, n, all, d1.len() as int, all.len() as int);
    assert(all.subrange(d1.len() as int, all.len() as int) =~= d2);
    match v.9 {
        Some(x) => {
            lemma_descriptor_read(6, x, b, c2);
            assert(es_subs(b, c2 + 5 + x.len(), v.8, Some(x)) == Ok::<
                (Option<DcdView>, Option<Seq<u8>>),
                Error,
            >((v.8, Some(x))));
            assert(es_subs(b, c2, v.8, None) == es_subs(b, c2 + 5 + x.len(), v.8, Some(x)));
        },
        None => {
            assert(es_subs(b, c2, v.8, None) == Ok::<(Option<DcdView>, Option<Seq<u8>>), Error>(
                (v.8, None),
            ));
        },
    }
    match v.8 {
        Some(d) => {
            lemma_descriptor_read(4, dcd_body(d), b, c);
            lemma_dcd_round_trip(d);
            assert(es_subs(b, c, None, None) == es_subs(b, c2, Some(d), None));
        },
        None => {},
    }
}

proof fn lemma_es_announced(v: EsView)
    requires
        v.1 == (v.5 is Some),
        v.2 == (v.6 is Some),
        v.3 == (v.7 is Some),
    ensures
        es_announced(v) == es_body(v).len(),
{
}

proof fn lemma_opt16_read(b: Seq<u8>, c: nat, o: Option<u16>, what: &'static str)
    requires
        o matches Some(x) ==> c + 2 <= b.len() && b.subrange(c as int, c + 2int) == be16(x),
    ensures
        opt16_at(b, c, o is Some, what) == Ok::<(Option<u16>, nat), Error>(
            (o, c + if o is Some { 2nat } else { 0nat }),
        ),
{
    match o {
        Some(x) => {
            crate::bytes::lemma_be16_get16(x, b, c as int);
        },
        None => {},
    }
}

proof fn lemma_url_read(b: Seq<u8>, c: nat, u: Option<Seq<char>>)
    requires
        u matches Some(x) ==> {
            &&& url_bytes(x).len() <= 255
            &&& c + 1 + url_bytes(x).len() <= b.len()
            &&& b[c as int] == url_bytes(x).len() as u8
            &&& b.subrange(c + 1int, c + 1int + url_bytes(x).len()) == url_bytes(x)
        },
    ensures
        url_at(b, c, u is Some) == Ok::<(Option<Seq<char>>, nat), Error>(
            (u, c + match u {
                Some(x) => 1 + url_bytes(x).len(),
                None => 0nat,
            }),
        ),
{
    broadcast use vstd::utf8::encode_utf8_valid_utf8, vstd::utf8::encode_utf8_decode_utf8;

    match u {
        Some(x) => {
            assert(lossy_decode(url_bytes(x)) == x);
        },
        None => {},
    }
}

spec fn es_opt_dep(v: EsView) -> Seq<u8> {
    match v.5 {
        Some(d) => be16(d),
        None => Seq::<u8>::empty(),
    }
}

spec fn es_opt_url(v: EsView) -> Seq<u8> {
    match v.6 {
        Some(u) => seq![url_bytes(u).len() as u8] + url_bytes(u),
        None => Seq::<u8>::empty(),
    }
}

spec fn es_opt_ocr(v: EsView) -> Seq<u8> {
    match v.7 {
        Some(o) => be16(o),
        None => Seq::<u8>::empty(),
    }
}

/// Where the URL, the OCR id and the sub-descriptors start in the body.
spec fn es_c1(v: EsView) -> nat {
    3 + es_opt_dep(v).len()
}

spec fn es_c2(v: EsView) -> nat {
    es_c1(v) + es_opt_url(v).len()
}

spec fn es_c3(v: EsView) -> nat {
    es_c2(v) + es_opt_ocr(v).len()
}

#[verifier::spinoff_prover]
proof fn lemma_es_layout(v: EsView)
    ensures
        es_body(v).len() == es_c3(v) + es_sub_bytes(v).len(),
        es_body(v).subrange(0, 2) == be16(v.0),
        es_body(v)[2] == es_flags_byte(v),
        es_body(v).subrange(3, es_c1(v) as int) == es_opt_dep(v),
        es_body(v).subrange(es_c1(v) as int, es_c2(v) as int) == es_opt_url(v),
        es_body(v).subrange(es_c2(v) as int, es_c3(v) as int) == es_opt_ocr(v),
        es_body(v).subrange(es_c3(v) as int, es_body(v).len() as int) == es_sub_bytes(v),
{
    let b = es_body(v);
    let p0 = be16(v.0) + seq![es_flags_byte(v)];
    let p1 = p0 + es_opt_dep(v);
    let p2 = p1 + es_opt_url(v);
    let p3 = p2 + es_opt_ocr(v);
    assert(b =~= p3 + es_sub_bytes(v));
    let n = b.len() as int;
    assert(b.subrange(0, 2) =~= be16(v.0));
    assert(b.subrange(p3.len() as int, n) =~= es_sub_bytes(v));
    assert(b.subrange(p2.len() as int, p3.len() as int) =~= es_opt_ocr(v));
    assert(b.subrange(p1.len() as int, p2.len() as int) =~= es_opt_url(v));
    assert(b.subrange(3, p1.len() as int) =~= es_opt_dep(v));
}

/// Parsing an encoded well-formed ES_Descriptor body gives it back.
#[verifier::spinoff_prover]
pub proof fn lemma_es_round_trip(v: EsView)
    requires
        es_wf(v),
    ensures
        spec_parse_es(es_body(v)) == Ok::<EsView, Error>(v),
{
    let b = es_body(v);
    lemma_es_flags(v);
    lemma_es_layout(v);
    crate::bytes::lemma_be16_get16(v.0, b, 0);
    let c1 = es_c1(v);
    let c2 = es_c2(v);
    let c3 = es_c3(v);
    lemma_opt16_read(b, 3, v.5, "dependsOn_ES_ID");
    match v.6 {
        Some(u) => {
            let pu = es_opt_url(v);
            assert(b.subrange(c1 as int, c2 as int)[0] == b[c1 as int]);
            crate::bytes::lemma_subrange_of(b, c1 as int, c2 as int, pu, 1, pu.len() as int);
            assert(pu.subrange(1, pu.len() as int) =~= url_bytes(u));
        },
        None => {},
    }
    lemma_url_read(b, c1, v.6);
    lemma_opt16_read(b, c2, v.7, "OCR_ES_Id");
    lemma_es_subs_read(v, b, c3);
}

/// Parsing an encoded well-formed `esds` box gives back its ES_Descriptor,
/// and its descriptor sizes lie in bounds.
pub proof fn lemma_esds_round_trip(v: EsView)
    requires
        es_wf(v),
        esds_bytes(v).len() <= u32::MAX,
    ensures
        esds_box_in_bounds(esds_bytes(v)),
        spec_parse_esds_box(esds_bytes(v)) == Ok::<EsView, Error>(v),
{
    let e = es_bytes(v);
    let body = seq![0u8, 0u8, 0u8, 0u8] + e;
    assert(ESDS@ != crate::box_types::UUID_TYPE@) by {
        assert(ESDS@[0] != crate::box_types::UUID_TYPE@[0]);
    }
    assert(esds_bytes(v) =~= box_head(8 + body.len(), ESDS@) + body);
    crate::box_types::lemma_box_header_compact(ESDS@, body, Seq::empty());
    assert(esds_bytes(v) + Seq::<u8>::empty() =~= esds_bytes(v));
    assert(esds_bytes(v).subrange(8, esds_bytes(v).len() as int) =~= body);
    lemma_es_announced(v);
    assert(body.skip(4) =~= e);
    assert(e.subrange(0, e.len() as int) =~= descriptor_bytes(TAG_ES_DESCRIPTOR, es_body(v)));
    lemma_descriptor_read(TAG_ES_DESCRIPTOR, es_body(v), e, 0);
    assert(e.subrange(5, e.len() as int) =~= es_body(v));
    lemma_es_round_trip(v);
}

} // verus!
