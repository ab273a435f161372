//! Movie Fragment boxes (ISO/IEC 14496-12:2015 §8.8): `moof` holding `mfhd`
//! and `traf`s; each `traf` holding `tfhd`, an optional `tfdt` and `trun`s.
//! Field presence in `tfhd` and `trun` follows the FullBox `flags`; every
//! size on the wire is recomputed from the logical fields.
use vstd::prelude::*;
use crate::box_types::{
    box_head, fourcc_eq, lemma_box_header_bounds, lemma_box_header_compact, lemma_box_walk_step,
    parse_box, read_ver_flags, spec_box_header, spec_ver_flags, BOX_HEADER_SIZE,
    FULLBOX_EXTRA_SIZE, UUID_TYPE,
};
use crate::bytes::{
    be24, be32, be64, get24, get32, get64, push24, push32, push64, push_all, read32, read64, sat,
    write_prefix,
};
use crate::error::Error;

verus! {

/// `tfhd`: `base_data_offset` present.
pub const TFHD_BASE_DATA_OFFSET_PRESENT: u32 = 0x000001;
/// `tfhd`: `sample_description_index` present.
pub const TFHD_SAMPLE_DESCRIPTION_INDEX_PRESENT: u32 = 0x000002;
/// `tfhd`: `default_sample_duration` present.
pub const TFHD_DEFAULT_SAMPLE_DURATION_PRESENT: u32 = 0x000008;
/// `tfhd`: `default_sample_size` present.
pub const TFHD_DEFAULT_SAMPLE_SIZE_PRESENT: u32 = 0x000010;
/// `tfhd`: `default_sample_flags` present.
pub const TFHD_DEFAULT_SAMPLE_FLAGS_PRESENT: u32 = 0x000020;
/// `tfhd`: `duration-is-empty`.
pub const TFHD_DURATION_IS_EMPTY: u32 = 0x010000;
/// `tfhd`: `default-base-is-moof`.
pub const TFHD_DEFAULT_BASE_IS_MOOF: u32 = 0x020000;

/// `trun`: `data_offset` present.
pub const TRUN_DATA_OFFSET_PRESENT: u32 = 0x000001;
/// `trun`: `first_sample_flags` present.
pub const TRUN_FIRST_SAMPLE_FLAGS_PRESENT: u32 = 0x000004;
/// `trun`: per-sample `sample_duration` present.
pub const TRUN_SAMPLE_DURATION_PRESENT: u32 = 0x000100;
/// `trun`: per-sample `sample_size` present.
pub const TRUN_SAMPLE_SIZE_PRESENT: u32 = 0x000200;
/// `trun`: per-sample `sample_flags` present.
pub const TRUN_SAMPLE_FLAGS_PRESENT: u32 = 0x000400;
/// `trun`: per-sample `sample_composition_time_offset` present.
pub const TRUN_SAMPLE_COMPOSITION_TIME_OFFSET_PRESENT: u32 = 0x000800;

/// Box type `mfhd`.
pub const MFHD: [u8; 4] = [0x6D, 0x66, 0x68, 0x64];
/// Box type `tfhd`.
pub const TFHD: [u8; 4] = [0x74, 0x66, 0x68, 0x64];
/// Box type `tfdt`.
pub const TFDT: [u8; 4] = [0x74, 0x66, 0x64, 0x74];
/// Box type `trun`.
pub const TRUN: [u8; 4] = [0x74, 0x72, 0x75, 0x6E];
/// Box type `traf`.
pub const TRAF: [u8; 4] = [0x74, 0x72, 0x61, 0x66];
/// Box type `moof`.
pub const MOOF: [u8; 4] = [0x6D, 0x6F, 0x6F, 0x66];

/// Four big-endian bytes when `present`, else nothing.
#[verifier::opaque]
pub open spec fn opt32(present: bool, v: u32) -> Seq<u8> {
    if present {
        be32(v)
    } else {
        Seq::empty()
    }
}

/// Eight big-endian bytes when `present`, else nothing.
#[verifier::opaque]
pub open spec fn opt64(present: bool, v: u64) -> Seq<u8> {
    if present {
        be64(v)
    } else {
        Seq::empty()
    }
}

pub proof fn lemma_opt_len(present: bool, v32: u32, v64: u64)
    ensures
        opt32(present, v32).len() == w(present, 4),
        opt64(present, v64).len() == w(present, 8),
        present ==> opt32(present, v32) == be32(v32) && opt64(present, v64) == be64(v64),
        !present ==> opt32(present, v32) == Seq::<u8>::empty() && opt64(present, v64) == Seq::<
            u8,
        >::empty(),
{
    reveal(opt32);
    reveal(opt64);
}

/// `n` when `present`, else 0.
pub open spec fn w(present: bool, n: nat) -> nat {
    if present {
        n
    } else {
        0
    }
}

/// Reading an optional 32-bit field at `c`: the value (when present) and
/// the next position.
#[verifier::opaque]
pub open spec fn field32(b: Seq<u8>, c: nat, present: bool, what: &'static str) -> Result<(Option<u32>, nat), Error> {
    if !present {
        Ok((None, c))
    } else if b.len() < c + 4 {
        Err(Error::BufferTooShort { need: sat(c + 4int), have: b.len() as usize, what })
    } else {
        Ok((Some(get32(b, c as int)), c + 4))
    }
}

/// Reading an optional 64-bit field at `c`.
#[verifier::opaque]
pub open spec fn field64(b: Seq<u8>, c: nat, present: bool, what: &'static str) -> Result<(Option<u64>, nat), Error> {
    if !present {
        Ok((None, c))
    } else if b.len() < c + 8 {
        Err(Error::BufferTooShort { need: sat(c + 8int), have: b.len() as usize, what })
    } else {
        Ok((Some(get64(b, c as int)), c + 8))
    }
}

fn read_field32(b: &[u8], c: usize, present: bool, what: &'static str) -> (r: Result<(Option<u32>, usize), Error>)
    requires
        c <= b@.len(),
    ensures
        match field32(b@, c as nat, present, what) {
            Ok((v, n)) => r matches Ok((x, m)) && x == v && m == n,
            Err(e) => r == Err::<(Option<u32>, usize), Error>(e),
        },
        r matches Ok((_x, m)) ==> c <= m <= b@.len(),
{
    reveal(field32);
    if !present {
        return Ok((None, c));
    }
    if b.len() - c < 4 {
        return Err(Error::BufferTooShort { need: c.saturating_add(4), have: b.len(), what });
    }
    Ok((Some(read32(b, c)), c + 4))
}

fn read_field64(b: &[u8], c: usize, present: bool, what: &'static str) -> (r: Result<(Option<u64>, usize), Error>)
    requires
        c <= b@.len(),
    ensures
        match field64(b@, c as nat, present, what) {
            Ok((v, n)) => r matches Ok((x, m)) && x == v && m == n,
            Err(e) => r == Err::<(Option<u64>, usize), Error>(e),
        },
        r matches Ok((_x, m)) ==> c <= m <= b@.len(),
{
    reveal(field64);
    if !present {
        return Ok((None, c));
    }
    if b.len() - c < 8 {
        return Err(Error::BufferTooShort { need: c.saturating_add(8), have: b.len(), what });
    }
    Ok((Some(read64(b, c)), c + 8))
}

fn push_opt32(out: &mut Vec<u8>, present: bool, v: u32)
    ensures
        final(out)@ == old(out)@ + opt32(present, v),
{
    reveal(opt32);
    if present {
        push32(out, v);
    } else {
        assert(old(out)@ + opt32(present, v) =~= old(out)@);
    }
}

fn push_opt64(out: &mut Vec<u8>, present: bool, v: u64)
    ensures
        final(out)@ == old(out)@ + opt64(present, v),
{
    reveal(opt64);
    if present {
        push64(out, v);
    } else {
        assert(old(out)@ + opt64(present, v) =~= old(out)@);
    }
}

/// Compact box header bytes written for a box of `len` bytes.
fn push_box_head(out: &mut Vec<u8>, len: usize, typ: &[u8; 4])
    ensures
        final(out)@ == old(out)@ + box_head(len as nat, typ@),
{
    push32(out, len as u32);
    push_all(out, typ);
}

pub proof fn lemma_field32_read(v: u32, b: Seq<u8>, c: nat, what: &'static str)
    requires
        c + 4 <= b.len(),
        b.subrange(c as int, c + 4int) == be32(v),
    ensures
        field32(b, c, true, what) == Ok::<(Option<u32>, nat), Error>((Some(v), c + 4)),
{
    reveal(field32);
    crate::bytes::lemma_be32_get32(v, b, c as int);
}

pub proof fn lemma_field64_read(v: u64, b: Seq<u8>, c: nat, what: &'static str)
    requires
        c + 8 <= b.len(),
        b.subrange(c as int, c + 8int) == be64(v),
    ensures
        field64(b, c, true, what) == Ok::<(Option<u64>, nat), Error>((Some(v), c + 8)),
{
    reveal(field64);
    crate::bytes::lemma_be64_get64(v, b, c as int);
}

// ---------------------------------------------------------------------------
// mfhd
// ---------------------------------------------------------------------------

/// Movie Fragment Header Box (`mfhd`, §8.8.5).
#[derive(Debug, Clone, Copy, PartialEq, Eq, Structural)]
pub struct MovieFragmentHeaderBox {
    /// The fragment's sequence number.
    pub sequence_number: u32,
}

/// The `mfhd` box bytes.
pub open spec fn mfhd_bytes(seq: u32) -> Seq<u8> {
    box_head(16, MFHD@) + seq![0u8, 0u8, 0u8, 0u8] + be32(seq)
}

/// Outcome of parsing an `mfhd` body (after the box header).
#[verifier::opaque]
pub open spec fn spec_parse_mfhd(body: Seq<u8>) -> Result<u32, Error> {
    match spec_ver_flags(body) {
        Err(e) => Err(e),
        Ok(_) => if body.len() - 4 < 4 {
            Err(Error::BufferTooShort { need: 4, have: (body.len() - 4) as usize, what: "mfhd.seq" })
        } else {
            Ok(get32(body, 4))
        },
    }
}

impl MovieFragmentHeaderBox {
    /// An `mfhd` with the given sequence number.
    pub fn new(sequence_number: u32) -> (r: Self)
        ensures
            r.sequence_number == sequence_number,
    {
        Self { sequence_number }
    }

    /// Parse an `mfhd` body (the bytes after the 8-byte box header).
    pub fn parse_body(body: &[u8]) -> (r: Result<Self, Error>)
        ensures
            match spec_parse_mfhd(body@) {
                Ok(s) => r == Ok::<Self, Error>(Self { sequence_number: s }),
                Err(e) => r == Err::<Self, Error>(e),
            },
    {
        reveal(spec_parse_mfhd);
        let _vf = read_ver_flags(body)?;
        if body.len() - 4 < 4 {
            return Err(Error::BufferTooShort { need: 4, have: body.len() - 4, what: "mfhd.seq" });
        }
        Ok(Self { sequence_number: read32(body, 4) })
    }

    /// Encoded size: always 16.
    pub fn serialized_len(&self) -> (r: usize)
        ensures
            r == mfhd_bytes(self.sequence_number).len(),
            r == 16,
    {
        16
    }

    /// The encoded box.
    pub fn to_bytes(&self) -> (r: Vec<u8>)
        ensures
            r@ == mfhd_bytes(self.sequence_number),
    {
        let mut out: Vec<u8> = Vec::new();
        push_box_head(&mut out, 16, &MFHD);
        push32(&mut out, 0);
        push32(&mut out, self.sequence_number);
        assert(be32(0) =~= seq![0u8, 0u8, 0u8, 0u8]) by {
            assert(((0u32 >> 24u32) as u8) == 0u8 && ((0u32 >> 16u32) as u8) == 0u8 && ((0u32
                >> 8u32) as u8) == 0u8 && (0u32 as u8) == 0u8) by (bit_vector);
        }
        assert(out@ =~= mfhd_bytes(self.sequence_number));
        out
    }
}

/// Parsing the body of an encoded `mfhd` gives back its sequence number.
pub proof fn lemma_mfhd_round_trip(seq: u32, rest: Seq<u8>)
    ensures
        spec_parse_mfhd(mfhd_bytes(seq).skip(8) + rest) == Ok::<u32, Error>(seq),
{
    reveal(spec_parse_mfhd);
    let b = mfhd_bytes(seq).skip(8) + rest;
    assert(b.subrange(4, 8) =~= be32(seq));
    crate::bytes::lemma_be32_get32(seq, b, 4);
}

// ---------------------------------------------------------------------------
// tfhd
// ---------------------------------------------------------------------------

/// Track Fragment Header Box (`tfhd`, §8.8.7).
#[derive(Debug, Clone, Copy, PartialEq, Eq, Structural)]
pub struct TrackFragmentHeaderBox {
    /// The 24-bit FullBox flags selecting the optional fields.
    pub flags: u32,
    /// The track this fragment belongs to.
    pub track_id: u32,
    /// `base_data_offset`.
    pub base_data_offset: Option<u64>,
    /// `sample_description_index`.
    pub sample_description_index: Option<u32>,
    /// `default_sample_duration`.
    pub default_sample_duration: Option<u32>,
    /// `default_sample_size`.
    pub default_sample_size: Option<u32>,
    /// `default_sample_flags`.
    pub default_sample_flags: Option<u32>,
}

/// Size of a `tfhd` box with the given flags.
pub open spec fn tfhd_len(f: u32) -> nat {
    16 + w(f & 1 != 0, 8) + w(f & 2 != 0, 4) + w(f & 8 != 0, 4) + w(f & 0x10 != 0, 4) + w(
        f & 0x20 != 0,
        4,
    )
}

/// The optional `tfhd` fields selected by the flags, absent ones written as
/// 0 (1 for the sample description index).
pub open spec fn tfhd_opt_fields(t: TrackFragmentHeaderBox) -> Seq<u8> {
    let f = t.flags;
    opt64(f & 1 != 0, t.base_data_offset.unwrap_or(0)) + opt32(
        f & 2 != 0,
        t.sample_description_index.unwrap_or(1),
    ) + opt32(f & 8 != 0, t.default_sample_duration.unwrap_or(0)) + opt32(
        f & 0x10 != 0,
        t.default_sample_size.unwrap_or(0),
    ) + opt32(f & 0x20 != 0, t.default_sample_flags.unwrap_or(0))
}

/// The `tfhd` box bytes.
pub open spec fn tfhd_bytes(t: TrackFragmentHeaderBox) -> Seq<u8> {
    box_head(tfhd_len(t.flags), TFHD@) + seq![0u8] + be24(t.flags) + be32(t.track_id)
        + tfhd_opt_fields(t)
}

pub proof fn lemma_tfhd_len(t: TrackFragmentHeaderBox)
    ensures
        tfhd_bytes(t).len() == tfhd_len(t.flags),
{
    reveal(opt32);
    reveal(opt64);
}

/// The optional fields `(bdo, sdi, dsd, dss, dsf)` read from position 8 of
/// a `tfhd` body, as selected by the flags `f`.
pub open spec fn tfhd_chain(body: Seq<u8>, f: u32) -> Result<
    (Option<u64>, Option<u32>, Option<u32>, Option<u32>, Option<u32>),
    Error,
> {
    match field64(body, 8, f & 1 != 0, "tfhd.bdo") {
        Err(e) => Err(e),
        Ok((bdo, c1)) => match field32(body, c1, f & 2 != 0, "tfhd.sdi") {
            Err(e) => Err(e),
            Ok((sdi, c2)) => match field32(body, c2, f & 8 != 0, "tfhd.dsd") {
                Err(e) => Err(e),
                Ok((dsd, c3)) => match field32(body, c3, f & 0x10 != 0, "tfhd.dss") {
                    Err(e) => Err(e),
                    Ok((dss, c4)) => match field32(body, c4, f & 0x20 != 0, "tfhd.dsf") {
                        Err(e) => Err(e),
                        Ok((dsf, _c5)) => Ok((bdo, sdi, dsd, dss, dsf)),
                    },
                },
            },
        },
    }
}

/// Outcome of parsing a `tfhd` body.
#[verifier::opaque]
pub open spec fn spec_parse_tfhd(body: Seq<u8>) -> Result<TrackFragmentHeaderBox, Error> {
    match spec_ver_flags(body) {
        Err(e) => Err(e),
        Ok((_v, f)) => if body.len() < 8 {
            Err(Error::BufferTooShort { need: 8, have: body.len() as usize, what: "tfhd.track_id" })
        } else {
            match tfhd_chain(body, f) {
                Err(e) => Err(e),
                Ok((bdo, sdi, dsd, dss, dsf)) => Ok(
                    TrackFragmentHeaderBox {
                        flags: f,
                        track_id: get32(body, 4),
                        base_data_offset: bdo,
                        sample_description_index: sdi,
                        default_sample_duration: dsd,
                        default_sample_size: dss,
                        default_sample_flags: dsf,
                    },
                ),
            }
        },
    }
}

/// `Some(v.unwrap_or(d))` when `present`, else `None`.
pub open spec fn norm_opt<T>(present: bool, v: Option<T>, d: T) -> Option<T> {
    if present {
        Some(v.unwrap_or(d))
    } else {
        None
    }
}

/// What a `tfhd` reads back as: 24-bit flags, and exactly the flagged
/// fields, defaulted where absent.
pub open spec fn tfhd_norm(t: TrackFragmentHeaderBox) -> TrackFragmentHeaderBox {
    let f = t.flags;
    TrackFragmentHeaderBox {
        flags: f & 0xFF_FFFF,
        track_id: t.track_id,
        base_data_offset: norm_opt(f & 1 != 0, t.base_data_offset, 0),
        sample_description_index: norm_opt(f & 2 != 0, t.sample_description_index, 1),
        default_sample_duration: norm_opt(f & 8 != 0, t.default_sample_duration, 0),
        default_sample_size: norm_opt(f & 0x10 != 0, t.default_sample_size, 0),
        default_sample_flags: norm_opt(f & 0x20 != 0, t.default_sample_flags, 0),
    }
}

impl TrackFragmentHeaderBox {
    /// Parse a `tfhd` body (the bytes after the 8-byte box header).
    pub fn parse_body(body: &[u8]) -> (r: Result<Self, Error>)
        ensures
            match spec_parse_tfhd(body@) {
                Ok(t) => r == Ok::<Self, Error>(t),
                Err(e) => r == Err::<Self, Error>(e),
            },
    {
        reveal(spec_parse_tfhd);
        let (_ver, flags) = read_ver_flags(body)?;
        if body.len() < 8 {
            return Err(Error::BufferTooShort { need: 8, have: body.len(), what: "tfhd.track_id" });
        }
        let track_id = read32(body, 4);
        let (base_data_offset, c1) = read_field64(body, 8, flags & 1 != 0, "tfhd.bdo")?;
        let (sample_description_index, c2) = read_field32(body, c1, flags & 2 != 0, "tfhd.sdi")?;
        let (default_sample_duration, c3) = read_field32(body, c2, flags & 8 != 0, "tfhd.dsd")?;
        let (default_sample_size, c4) = read_field32(body, c3, flags & 0x10 != 0, "tfhd.dss")?;
        let (default_sample_flags, _c5) = read_field32(body, c4, flags & 0x20 != 0, "tfhd.dsf")?;
        Ok(
            Self {
                flags,
                track_id,
                base_data_offset,
                sample_description_index,
                default_sample_duration,
                default_sample_size,
                default_sample_flags,
            },
        )
    }

    /// Encoded size in bytes.
    pub fn serialized_len(&self) -> (r: usize)
        ensures
            r == tfhd_len(self.flags),
            r == tfhd_bytes(*self).len(),
    {
        proof {
            lemma_tfhd_len(*self);
        }
        let f = self.flags;
        let mut n: usize = 16;
        if f & 1 != 0 {
            n += 8;
        }
        if f & 2 != 0 {
            n += 4;
        }
        if f & 8 != 0 {
            n += 4;
        }
        if f & 0x10 != 0 {
            n += 4;
        }
        if f & 0x20 != 0 {
            n += 4;
        }
        n
    }

    /// The encoded box.
    pub fn to_bytes(&self) -> (r: Vec<u8>)
        ensures
            r@ == tfhd_bytes(*self),
    {
        let f = self.flags;
        let len = self.serialized_len();
        let mut out: Vec<u8> = Vec::new();
        push_box_head(&mut out, len, &TFHD);
        out.push(0);
        push24(&mut out, f);
        push32(&mut out, self.track_id);
        let ghost head = out@;
        let mut opt: Vec<u8> = Vec::new();
        push_opt64(&mut opt, f & 1 != 0, self.base_data_offset.unwrap_or(0));
        push_opt32(&mut opt, f & 2 != 0, self.sample_description_index.unwrap_or(1));
        push_opt32(&mut opt, f & 8 != 0, self.default_sample_duration.unwrap_or(0));
        push_opt32(&mut opt, f & 0x10 != 0, self.default_sample_size.unwrap_or(0));
        push_opt32(&mut opt, f & 0x20 != 0, self.default_sample_flags.unwrap_or(0));
        assert(opt@ =~= tfhd_opt_fields(*self));
        push_all(&mut out, opt.as_slice());
        assert(head =~= box_head(tfhd_len(f), TFHD@) + seq![0u8] + be24(f) + be32(self.track_id));
        out
    }
}

proof fn lemma_flag_bits(f: u32)
    ensures
        (f & 0xFF_FFFF) & 1 == f & 1,
        (f & 0xFF_FFFF) & 2 == f & 2,
        (f & 0xFF_FFFF) & 4 == f & 4,
        (f & 0xFF_FFFF) & 8 == f & 8,
        (f & 0xFF_FFFF) & 0x10 == f & 0x10,
        (f & 0xFF_FFFF) & 0x20 == f & 0x20,
        (f & 0xFF_FFFF) & 0x100 == f & 0x100,
        (f & 0xFF_FFFF) & 0x200 == f & 0x200,
        (f & 0xFF_FFFF) & 0x400 == f & 0x400,
        (f & 0xFF_FFFF) & 0x800 == f & 0x800,
{
    assert((f & 0xFF_FFFF) & 1 == f & 1 && (f & 0xFF_FFFF) & 2 == f & 2 && (f & 0xFF_FFFF) & 4 == f & 4
        && (f & 0xFF_FFFF) & 8 == f & 8 && (f & 0xFF_FFFF) & 0x10 == f & 0x10 && (f & 0xFF_FFFF) & 0x20 == f & 0x20
        && (f & 0xFF_FFFF) & 0x100 == f & 0x100 && (f & 0xFF_FFFF) & 0x200 == f & 0x200
        && (f & 0xFF_FFFF) & 0x400 == f & 0x400 && (f & 0xFF_FFFF) & 0x800 == f & 0x800) by (bit_vector);
}

proof fn lemma_flags24(f: u32)
    ensures
        be24(f & 0xFF_FFFF) == be24(f),
{
    assert(((f & 0xFF_FFFF) >> 16u32) as u8 == (f >> 16u32) as u8 && ((f & 0xFF_FFFF) >> 8u32) as u8 == (f
        >> 8u32) as u8 && (f & 0xFF_FFFF) as u8 == f as u8) by (bit_vector);
    assert(be24(f & 0xFF_FFFF) =~= be24(f));
}

proof fn lemma_be24_get24_flags(f: u32, b: Seq<u8>, i: int)
    requires
        0 <= i,
        i + 3 <= b.len(),
        b.subrange(i, i + 3) == be24(f),
    ensures
        get24(b, i) == f & 0xFF_FFFF,
{
    let g = f & 0xFF_FFFF;
    lemma_flags24(f);
    assert(g < 0x100_0000) by (bit_vector)
        requires
            g == f & 0xFF_FFFF,
    ;
    crate::bytes::lemma_be24_get24(g, b, i);
}

proof fn lemma_split(b: Seq<u8>, start: int, x: Seq<u8>, y: Seq<u8>)
    requires
        0 <= start,
        start + x.len() + y.len() <= b.len(),
        b.subrange(start, start + x.len() + y.len()) == x + y,
    ensures
        b.subrange(start, start + x.len()) == x,
        b.subrange(start + x.len(), start + x.len() + y.len()) == y,
{
    assert(b.subrange(start, start + x.len()) =~= (x + y).subrange(0, x.len() as int));
    assert(b.subrange(start + x.len(), start + x.len() + y.len()) =~= (x + y).subrange(
        x.len() as int,
        (x.len() + y.len()) as int,
    ));
}

proof fn lemma_opt32_read(present: bool, orig: Option<u32>, d: u32, b: Seq<u8>, c: nat, what: &'static str)
    requires
        c + opt32(present, orig.unwrap_or(d)).len() <= b.len(),
        b.subrange(c as int, (c + opt32(present, orig.unwrap_or(d)).len()) as int) == opt32(
            present,
            orig.unwrap_or(d),
        ),
    ensures
        field32(b, c, present, what) == Ok::<(Option<u32>, nat), Error>(
            (norm_opt(present, orig, d), c + opt32(present, orig.unwrap_or(d)).len()),
        ),
{
    reveal(field32);
    reveal(opt32);
    if present {
        lemma_field32_read(orig.unwrap_or(d), b, c, what);
    }
}

proof fn lemma_opt64_read(present: bool, orig: Option<u64>, d: u64, b: Seq<u8>, c: nat, what: &'static str)
    requires
        c + opt64(present, orig.unwrap_or(d)).len() <= b.len(),
        b.subrange(c as int, (c + opt64(present, orig.unwrap_or(d)).len()) as int) == opt64(
            present,
            orig.unwrap_or(d),
        ),
    ensures
        field64(b, c, present, what) == Ok::<(Option<u64>, nat), Error>(
            (norm_opt(present, orig, d), c + opt64(present, orig.unwrap_or(d)).len()),
        ),
{
    reveal(field64);
    reveal(opt64);
    if present {
        lemma_field64_read(orig.unwrap_or(d), b, c, what);
    }
}

proof fn lemma_tfhd_norm_bytes(t: TrackFragmentHeaderBox)
    ensures
        tfhd_bytes(tfhd_norm(t)) == tfhd_bytes(t),
{
    lemma_flags24(t.flags);
    lemma_flag_bits(t.flags);
    reveal(opt32);
    reveal(opt64);
    assert(tfhd_opt_fields(tfhd_norm(t)) =~= tfhd_opt_fields(t));
    assert(tfhd_bytes(tfhd_norm(t)) =~= tfhd_bytes(t));
}

proof fn lemma_pieces4(b: Seq<u8>, c: int, p0: Seq<u8>, p1: Seq<u8>, p2: Seq<u8>, p3: Seq<u8>)
    requires
        0 <= c,
        c + p0.len() + p1.len() + p2.len() + p3.len() <= b.len(),
        b.subrange(c, c + p0.len() + p1.len() + p2.len() + p3.len()) == p0 + p1 + p2 + p3,
    ensures
        b.subrange(c, c + p0.len()) == p0,
        b.subrange(c + p0.len(), c + p0.len() + p1.len()) == p1,
        b.subrange(c + p0.len() + p1.len(), c + p0.len() + p1.len() + p2.len()) == p2,
        b.subrange(c + p0.len() + p1.len() + p2.len(), c + p0.len() + p1.len() + p2.len() + p3.len())
            == p3,
{
    lemma_split(b, c, p0 + p1 + p2, p3);
    lemma_split(b, c, p0 + p1, p2);
    lemma_split(b, c, p0, p1);
}

proof fn lemma_pieces5(b: Seq<u8>, p0: Seq<u8>, p1: Seq<u8>, p2: Seq<u8>, p3: Seq<u8>, p4: Seq<u8>)
    requires
        b.len() >= 8 + p0.len() + p1.len() + p2.len() + p3.len() + p4.len(),
        b.subrange(8int, 8int + p0.len() + p1.len() + p2.len() + p3.len() + p4.len()) == p0 + p1 + p2 + p3
            + p4,
    ensures
        b.subrange(8int, 8int + p0.len()) == p0,
        b.subrange(8int + p0.len(), 8int + p0.len() + p1.len()) == p1,
        b.subrange(8int + p0.len() + p1.len(), 8int + p0.len() + p1.len() + p2.len()) == p2,
        b.subrange(8int + p0.len() + p1.len() + p2.len(), 8int + p0.len() + p1.len() + p2.len() + p3.len())
            == p3,
        b.subrange(
            8int + p0.len() + p1.len() + p2.len() + p3.len(),
            8int + p0.len() + p1.len() + p2.len() + p3.len() + p4.len(),
        ) == p4,
{
    lemma_split(b, 8, p0 + p1 + p2 + p3, p4);
    lemma_split(b, 8, p0 + p1 + p2, p3);
    lemma_split(b, 8, p0 + p1, p2);
    lemma_split(b, 8, p0, p1);
}

#[verifier::spinoff_prover]
#[verifier::rlimit(80)]
#[verifier::spinoff_prover]
proof fn lemma_tfhd_parse_fields(t: TrackFragmentHeaderBox, b: Seq<u8>)
    requires
        b.len() >= 8 + tfhd_opt_fields(t).len(),
        b.subrange(8, (8 + tfhd_opt_fields(t).len()) as int) == tfhd_opt_fields(t),
    ensures
        tfhd_chain(b, t.flags & 0xFF_FFFF) == Ok::<
            (Option<u64>, Option<u32>, Option<u32>, Option<u32>, Option<u32>),
            Error,
        >(
            (
                tfhd_norm(t).base_data_offset,
                tfhd_norm(t).sample_description_index,
                tfhd_norm(t).default_sample_duration,
                tfhd_norm(t).default_sample_size,
                tfhd_norm(t).default_sample_flags,
            ),
        ),
{
    lemma_flag_bits(t.flags);
    let f = t.flags;
    let p0 = opt64(f & 1 != 0, t.base_data_offset.unwrap_or(0));
    let p1 = opt32(f & 2 != 0, t.sample_description_index.unwrap_or(1));
    let p2 = opt32(f & 8 != 0, t.default_sample_duration.unwrap_or(0));
    let p3 = opt32(f & 0x10 != 0, t.default_sample_size.unwrap_or(0));
    let p4 = opt32(f & 0x20 != 0, t.default_sample_flags.unwrap_or(0));
    assert(tfhd_opt_fields(t) === p0 + p1 + p2 + p3 + p4);
    lemma_pieces5(b, p0, p1, p2, p3, p4);
    let c1 = 8 + p0.len();
    let c2 = c1 + p1.len();
    let c3 = c2 + p2.len();
    let c4 = c3 + p3.len();
    lemma_opt64_read(f & 1 != 0, t.base_data_offset, 0, b, 8, "tfhd.bdo");
    lemma_opt32_read(f & 2 != 0, t.sample_description_index, 1, b, c1, "tfhd.sdi");
    lemma_opt32_read(f & 8 != 0, t.default_sample_duration, 0, b, c2, "tfhd.dsd");
    lemma_opt32_read(f & 0x10 != 0, t.default_sample_size, 0, b, c3, "tfhd.dss");
    lemma_opt32_read(f & 0x20 != 0, t.default_sample_flags, 0, b, c4, "tfhd.dsf");
}

/// Parsing the body of an encoded `tfhd` gives back its normal form, and the
/// normal form encodes to the same bytes.
pub proof fn lemma_tfhd_round_trip(t: TrackFragmentHeaderBox, rest: Seq<u8>)
    ensures
        spec_parse_tfhd(tfhd_bytes(t).skip(8) + rest) == Ok::<TrackFragmentHeaderBox, Error>(
            tfhd_norm(t),
        ),
        tfhd_bytes(tfhd_norm(t)) == tfhd_bytes(t),
{
    reveal(spec_parse_tfhd);
    lemma_tfhd_norm_bytes(t);
    let b = tfhd_bytes(t).skip(8) + rest;
    let o = tfhd_opt_fields(t);
    assert(b.subrange(1, 4) =~= be24(t.flags));
    lemma_be24_get24_flags(t.flags, b, 1);
    assert(b.subrange(4, 8) =~= be32(t.track_id));
    crate::bytes::lemma_be32_get32(t.track_id, b, 4);
    assert(b.subrange(8, (8 + o.len()) as int) =~= o);
    lemma_tfhd_parse_fields(t, b);
}

// ---------------------------------------------------------------------------
// trun
// ---------------------------------------------------------------------------

/// One `trun` sample record; each field is on the wire only when the run's
/// flags select it.
#[derive(Debug, Clone, Copy, PartialEq, Eq, Structural)]
pub struct TrunSample {
    /// `sample_duration`.
    pub sample_duration: Option<u32>,
    /// `sample_size`.
    pub sample_size: Option<u32>,
    /// `sample_flags`.
    pub sample_flags: Option<u32>,
    /// `sample_composition_time_offset` (signed; version 0 stores the same bits).
    pub sample_composition_time_offset: Option<i32>,
}

impl TrunSample {
    /// A record with every field absent.
    pub fn new() -> (r: Self)
        ensures
            r == (TrunSample {
                sample_duration: None,
                sample_size: None,
                sample_flags: None,
                sample_composition_time_offset: None,
            }),
    {
        Self {
            sample_duration: None,
            sample_size: None,
            sample_flags: None,
            sample_composition_time_offset: None,
        }
    }
}

impl Default for TrunSample {
    fn default() -> (r: Self)
        ensures
            r == (TrunSample {
                sample_duration: None,
                sample_size: None,
                sample_flags: None,
                sample_composition_time_offset: None,
            }),
    {
        Self::new()
    }
}

/// Track Fragment Run Box (`trun`, §8.8.8).
#[derive(Debug, Clone, PartialEq, Eq)]
pub struct TrackFragmentRunBox {
    /// FullBox version.
    pub version: u8,
    /// The 24-bit FullBox flags selecting the optional fields.
    pub tr_flags: u32,
    /// `data_offset`.
    pub data_offset: Option<i32>,
    /// `first_sample_flags`.
    pub first_sample_flags: Option<u32>,
    /// The sample records.
    pub samples: Vec<TrunSample>,
}

/// `(version, flags, data_offset, first_sample_flags, samples)` of a `trun`.
pub type TrunView = (u8, u32, Option<i32>, Option<u32>, Seq<TrunSample>);

impl View for TrackFragmentRunBox {
    type V = TrunView;

    open spec fn view(&self) -> TrunView {
        (self.version, self.tr_flags, self.data_offset, self.first_sample_flags, self.samples@)
    }
}

/// Bytes per sample record selected by the flags.
pub open spec fn trun_stride(f: u32) -> nat {
    w(f & 0x100 != 0, 4) + w(f & 0x200 != 0, 4) + w(f & 0x400 != 0, 4) + w(f & 0x800 != 0, 4)
}

/// Size of a `trun` box with flags `f` and `n` samples.
pub open spec fn trun_len(f: u32, n: nat) -> nat {
    16 + w(f & 1 != 0, 4) + w(f & 4 != 0, 4) + n * trun_stride(f)
}

/// One sample record's bytes.
pub open spec fn sample_bytes(f: u32, s: TrunSample) -> Seq<u8> {
    opt32(f & 0x100 != 0, s.sample_duration.unwrap_or(0)) + opt32(
        f & 0x200 != 0,
        s.sample_size.unwrap_or(0),
    ) + opt32(f & 0x400 != 0, s.sample_flags.unwrap_or(0)) + opt32(
        f & 0x800 != 0,
        s.sample_composition_time_offset.unwrap_or(0) as u32,
    )
}

/// The sample records' bytes, in order.
pub open spec fn samples_bytes(f: u32, ss: Seq<TrunSample>) -> Seq<u8>
    decreases ss.len(),
{
    if ss.len() == 0 {
        Seq::empty()
    } else {
        sample_bytes(f, ss[0]) + samples_bytes(f, ss.skip(1))
    }
}

/// The `trun` box bytes.
pub open spec fn trun_bytes(v: TrunView) -> Seq<u8> {
    let f = v.1;
    box_head(trun_len(f, v.4.len()), TRUN@) + seq![v.0] + be24(f) + be32(v.4.len() as u32) + opt32(
        f & 1 != 0,
        v.2.unwrap_or(0) as u32,
    ) + opt32(f & 4 != 0, v.3.unwrap_or(0)) + samples_bytes(f, v.4)
}

/// An optional 32-bit value read as signed.
pub open spec fn as_signed(o: Option<u32>) -> Option<i32> {
    match o {
        Some(x) => Some(x as i32),
        None => None,
    }
}

/// Reading one sample record at `c`.
pub open spec fn sample_chain(p: Seq<u8>, c: nat, f: u32) -> Result<(TrunSample, nat), Error> {
    match field32(p, c, f & 0x100 != 0, "trun.dur") {
        Err(e) => Err(e),
        Ok((d, c1)) => match field32(p, c1, f & 0x200 != 0, "trun.sz") {
            Err(e) => Err(e),
            Ok((z, c2)) => match field32(p, c2, f & 0x400 != 0, "trun.flg") {
                Err(e) => Err(e),
                Ok((g, c3)) => match field32(p, c3, f & 0x800 != 0, "trun.cto") {
                    Err(e) => Err(e),
                    Ok((o, c4)) => Ok(
                        (
                            TrunSample {
                                sample_duration: d,
                                sample_size: z,
                                sample_flags: g,
                                sample_composition_time_offset: as_signed(o),
                            },
                            c4,
                        ),
                    ),
                },
            },
        },
    }
}

/// Reading `k` sample records from `c`.
pub open spec fn samples_chain(p: Seq<u8>, c: nat, k: nat, f: u32) -> Result<(Seq<TrunSample>, nat), Error>
    decreases k,
{
    if k == 0 {
        Ok((Seq::empty(), c))
    } else {
        match sample_chain(p, c, f) {
            Err(e) => Err(e),
            Ok((s, c1)) => match samples_chain(p, c1, (k - 1) as nat, f) {
                Err(e) => Err(e),
                Ok((ss, c2)) => Ok((seq![s] + ss, c2)),
            },
        }
    }
}

/// Outcome of parsing a `trun` body.
#[verifier::opaque]
pub open spec fn spec_parse_trun(body: Seq<u8>) -> Result<TrunView, Error> {
    match spec_ver_flags(body) {
        Err(e) => Err(e),
        Ok((ver, f)) => {
            let p = body.skip(4);
            if p.len() < 4 {
                Err(Error::BufferTooShort { need: 4, have: p.len() as usize, what: "trun.sc" })
            } else {
                match field32(p, 4, f & 1 != 0, "trun.do") {
                    Err(e) => Err(e),
                    Ok((dop, c1)) => match field32(p, c1, f & 4 != 0, "trun.fsf") {
                        Err(e) => Err(e),
                        Ok((fsf, c2)) => match samples_chain(p, c2, get32(p, 0) as nat, f) {
                            Err(e) => Err(e),
                            Ok((ss, _c3)) => Ok((ver, f, as_signed(dop), fsf, ss)),
                        },
                    },
                }
            }
        },
    }
}

/// What a sample record reads back as under flags `f`.
pub open spec fn sample_norm(f: u32, s: TrunSample) -> TrunSample {
    TrunSample {
        sample_duration: norm_opt(f & 0x100 != 0, s.sample_duration, 0),
        sample_size: norm_opt(f & 0x200 != 0, s.sample_size, 0),
        sample_flags: norm_opt(f & 0x400 != 0, s.sample_flags, 0),
        sample_composition_time_offset: norm_opt(f & 0x800 != 0, s.sample_composition_time_offset, 0),
    }
}

/// What a `trun` reads back as: 24-bit flags and exactly the flagged
/// fields, defaulted to 0 where absent.
pub open spec fn trun_norm(v: TrunView) -> TrunView {
    let f = v.1;
    (
        v.0,
        f & 0xFF_FFFF,
        norm_opt(f & 1 != 0, v.2, 0),
        norm_opt(f & 4 != 0, v.3, 0),
        v.4.map_values(|s: TrunSample| sample_norm(f, s)),
    )
}

fn read_sample(p: &[u8], c: usize, f: u32) -> (r: Result<(TrunSample, usize), Error>)
    requires
        c <= p@.len(),
    ensures
        match sample_chain(p@, c as nat, f) {
            Ok((s, n)) => r matches Ok((x, m)) && x == s && m == n,
            Err(e) => r == Err::<(TrunSample, usize), Error>(e),
        },
        r matches Ok((_x, m)) ==> c <= m <= p@.len(),
{
    let (d, c1) = read_field32(p, c, f & 0x100 != 0, "trun.dur")?;
    let (z, c2) = read_field32(p, c1, f & 0x200 != 0, "trun.sz")?;
    let (g, c3) = read_field32(p, c2, f & 0x400 != 0, "trun.flg")?;
    let (o, c4) = read_field32(p, c3, f & 0x800 != 0, "trun.cto")?;
    let cto = match o {
        Some(x) => Some(x as i32),
        None => None,
    };
    Ok(
        (
            TrunSample {
                sample_duration: d,
                sample_size: z,
                sample_flags: g,
                sample_composition_time_offset: cto,
            },
            c4,
        ),
    )
}

pub proof fn lemma_concat4(o: Seq<u8>, a: Seq<u8>, b: Seq<u8>, c: Seq<u8>, d: Seq<u8>)
    ensures
        o + a + b + c + d == o + (a + b + c + d),
{
    vstd::seq_lib::lemma_concat_associative(o, a, b);
    vstd::seq_lib::lemma_concat_associative(o, a + b, c);
    vstd::seq_lib::lemma_concat_associative(o, a + b + c, d);
}

fn push_sample(out: &mut Vec<u8>, f: u32, s: &TrunSample)
    ensures
        final(out)@ == old(out)@ + sample_bytes(f, *s),
{
    let ghost o = out@;
    push_opt32(out, f & 0x100 != 0, s.sample_duration.unwrap_or(0));
    push_opt32(out, f & 0x200 != 0, s.sample_size.unwrap_or(0));
    push_opt32(out, f & 0x400 != 0, s.sample_flags.unwrap_or(0));
    push_opt32(out, f & 0x800 != 0, s.sample_composition_time_offset.unwrap_or(0) as u32);
    proof {
        lemma_concat4(
            o,
            opt32(f & 0x100 != 0, s.sample_duration.unwrap_or(0)),
            opt32(f & 0x200 != 0, s.sample_size.unwrap_or(0)),
            opt32(f & 0x400 != 0, s.sample_flags.unwrap_or(0)),
            opt32(f & 0x800 != 0, s.sample_composition_time_offset.unwrap_or(0) as u32),
        );
    }
}

pub proof fn lemma_samples_bytes_one(f: u32, x: TrunSample)
    ensures
        samples_bytes(f, seq![x]) == sample_bytes(f, x),
{
    assert(seq![x].skip(1) =~= Seq::<TrunSample>::empty());
    assert(samples_bytes(f, seq![x]) =~= sample_bytes(f, x) + samples_bytes(
        f,
        Seq::<TrunSample>::empty(),
    ));
}

pub proof fn lemma_samples_bytes_add(f: u32, a: Seq<TrunSample>, b: Seq<TrunSample>)
    ensures
        samples_bytes(f, a + b) == samples_bytes(f, a) + samples_bytes(f, b),
    decreases a.len(),
{
    if a.len() == 0 {
        assert(a + b =~= b);
        assert(samples_bytes(f, a) + samples_bytes(f, b) =~= samples_bytes(f, b));
    } else {
        assert((a + b).skip(1) =~= a.skip(1) + b);
        lemma_samples_bytes_add(f, a.skip(1), b);
        assert((a + b)[0] == a[0]);
        assert(samples_bytes(f, a + b) =~= samples_bytes(f, a) + samples_bytes(f, b));
    }
}

pub proof fn lemma_sample_bytes_len(f: u32, s: TrunSample)
    ensures
        sample_bytes(f, s).len() == trun_stride(f),
{
    lemma_opt_len(f & 0x100 != 0, s.sample_duration.unwrap_or(0), 0);
    lemma_opt_len(f & 0x200 != 0, s.sample_size.unwrap_or(0), 0);
    lemma_opt_len(f & 0x400 != 0, s.sample_flags.unwrap_or(0), 0);
    lemma_opt_len(f & 0x800 != 0, s.sample_composition_time_offset.unwrap_or(0) as u32, 0);
}

pub proof fn lemma_samples_bytes_len(f: u32, ss: Seq<TrunSample>)
    ensures
        samples_bytes(f, ss).len() == ss.len() * trun_stride(f),
    decreases ss.len(),
{
    if ss.len() > 0 {
        lemma_samples_bytes_len(f, ss.skip(1));
        lemma_sample_bytes_len(f, ss[0]);
        let n = ss.len();
        let k = trun_stride(f);
        assert((n - 1) * k + k == n * k) by (nonlinear_arith);
    }
}

pub proof fn lemma_trun_len(v: TrunView)
    ensures
        trun_bytes(v).len() == trun_len(v.1, v.4.len()),
{
    lemma_samples_bytes_len(v.1, v.4);
    lemma_opt_len(v.1 & 1 != 0, v.2.unwrap_or(0) as u32, 0);
    lemma_opt_len(v.1 & 4 != 0, v.3.unwrap_or(0), 0);
}

impl TrackFragmentRunBox {
    /// Bytes per sample record for the given flags.
    pub fn record_stride(flags: u32) -> (r: usize)
        ensures
            r == trun_stride(flags),
    {
        let mut n: usize = 0;
        if flags & 0x100 != 0 {
            n += 4;
        }
        if flags & 0x200 != 0 {
            n += 4;
        }
        if flags & 0x400 != 0 {
            n += 4;
        }
        if flags & 0x800 != 0 {
            n += 4;
        }
        n
    }

    /// Parse a `trun` body (the bytes after the 8-byte box header).
    pub fn parse_body(body: &[u8]) -> (r: Result<Self, Error>)
        ensures
            match spec_parse_trun(body@) {
                Ok(v) => r matches Ok(x) && x@ == v,
                Err(e) => r == Err::<Self, Error>(e),
            },
    {
        reveal(spec_parse_trun);
        let (version, tr_flags) = read_ver_flags(body)?;
        let p = &body[4..body.len()];
        assert(p@ =~= body@.skip(4));
        if p.len() < 4 {
            return Err(Error::BufferTooShort { need: 4, have: p.len(), what: "trun.sc" });
        }
        let sc = read32(p, 0);
        let (dop, c1) = read_field32(p, 4, tr_flags & 1 != 0, "trun.do")?;
        let (first_sample_flags, c2) = read_field32(p, c1, tr_flags & 4 != 0, "trun.fsf")?;
        let data_offset = match dop {
            Some(x) => Some(x as i32),
            None => None,
        };
        let mut samples: Vec<TrunSample> = Vec::new();
        let mut c = c2;
        let mut k: u32 = 0;
        assert(samples@ + Seq::<TrunSample>::empty() =~= samples@);
        while k < sc
            invariant
                spec_parse_trun(body@) == match samples_chain(p@, c2 as nat, sc as nat, tr_flags) {
                    Ok((ss, _e)) => Ok((version, tr_flags, data_offset, first_sample_flags, ss)),
                    Err(e) => Err(e),
                },
                k <= sc,
                c <= p@.len(),
                samples_chain(p@, c2 as nat, sc as nat, tr_flags) == match samples_chain(
                    p@,
                    c as nat,
                    (sc - k) as nat,
                    tr_flags,
                ) {
                    Ok((ss, e)) => Ok((samples@ + ss, e)),
                    Err(e) => Err(e),
                },
            decreases sc - k,
        {
            let ghost old_samples = samples@;
            let (s, cn) = match read_sample(p, c, tr_flags) {
                Ok(x) => x,
                Err(e) => {
                    return Err(e);
                },
            };
            samples.push(s);
            proof {
                match samples_chain(p@, cn as nat, (sc - k - 1) as nat, tr_flags) {
                    Ok((ss, e)) => {
                        assert(old_samples + (seq![s] + ss) =~= samples@ + ss);
                    },
                    Err(_) => {},
                }
            }
            c = cn;
            k += 1;
        }
        assert(samples@ + Seq::<TrunSample>::empty() =~= samples@);
        Ok(Self { version, tr_flags, data_offset, first_sample_flags, samples })
    }

    /// Encoded size in bytes.
    pub fn serialized_len(&self) -> (r: usize)
        requires
            trun_len(self.tr_flags, self.samples@.len()) <= usize::MAX,
        ensures
            r == trun_len(self.tr_flags, self.samples@.len()),
            r == trun_bytes(self@).len(),
    {
        proof {
            lemma_trun_len(self@);
        }
        let f = self.tr_flags;
        let mut n: usize = 16;
        if f & 1 != 0 {
            n += 4;
        }
        if f & 4 != 0 {
            n += 4;
        }
        let k = Self::record_stride(f);
        assert(self.samples@.len() * k <= usize::MAX);
        n + self.samples.len() * k
    }

    /// The encoded box.
    pub fn to_bytes(&self) -> (r: Vec<u8>)
        requires
            trun_len(self.tr_flags, self.samples@.len()) <= usize::MAX,
        ensures
            r@ == trun_bytes(self@),
    {
        let f = self.tr_flags;
        let len = self.serialized_len();
        let mut out: Vec<u8> = Vec::new();
        push_box_head(&mut out, len, &TRUN);
        out.push(self.version);
        push24(&mut out, f);
        push32(&mut out, self.samples.len() as u32);
        push_opt32(&mut out, f & 1 != 0, self.data_offset.unwrap_or(0) as u32);
        push_opt32(&mut out, f & 4 != 0, self.first_sample_flags.unwrap_or(0));
        let ghost head = out@;
        assert(head =~= box_head(trun_len(f, self.samples@.len()), TRUN@) + seq![self.version]
            + be24(f) + be32(self.samples@.len() as u32) + opt32(
            f & 1 != 0,
            self.data_offset.unwrap_or(0) as u32,
        ) + opt32(f & 4 != 0, self.first_sample_flags.unwrap_or(0)));
        let mut i: usize = 0;
        while i < self.samples.len()
            invariant
                i <= self.samples@.len(),
                out@ == head + samples_bytes(f, self.samples@.take(i as int)),
            decreases self.samples@.len() - i,
        {
            let ghost before = out@;
            push_sample(&mut out, f, &self.samples[i]);
            proof {
                let ss = self.samples@;
                assert(ss.take(i + 1) =~= ss.take(i as int) + seq![ss[i as int]]);
                lemma_samples_bytes_add(f, ss.take(i as int), seq![ss[i as int]]);
                lemma_samples_bytes_one(f, ss[i as int]);
            }
            i += 1;
        }
        assert(self.samples@.take(self.samples@.len() as int) =~= self.samples@);
        assert(out@ == trun_bytes(self@));
        out
    }
}

/// An optional signed value's bits as unsigned.
pub open spec fn as_unsigned(o: Option<i32>) -> Option<u32> {
    match o {
        Some(x) => Some(x as u32),
        None => None,
    }
}

proof fn lemma_signed_bits(o: Option<i32>, present: bool)
    ensures
        as_unsigned(o).unwrap_or(0) == o.unwrap_or(0) as u32,
        as_signed(norm_opt(present, as_unsigned(o), 0)) == norm_opt(present, o, 0),
{
    match o {
        Some(x) => {
            assert(((x as u32) as i32) == x) by (bit_vector);
        },
        None => {
            assert(((0i32 as u32) as i32) == 0i32) by (bit_vector);
            assert((0i32 as u32) == 0u32) by (bit_vector);
        },
    }
}

#[verifier::spinoff_prover]
#[verifier::rlimit(80)]
#[verifier::spinoff_prover]
proof fn lemma_sample_chain_read(f: u32, s: TrunSample, p: Seq<u8>, c: nat)
    requires
        c + trun_stride(f) <= p.len(),
        p.subrange(c as int, (c + trun_stride(f)) as int) == sample_bytes(f, s),
    ensures
        sample_chain(p, c, f & 0xFF_FFFF) == Ok::<(TrunSample, nat), Error>(
            (sample_norm(f, s), c + trun_stride(f)),
        ),
{
    lemma_flag_bits(f);
    let p0 = opt32(f & 0x100 != 0, s.sample_duration.unwrap_or(0));
    let p1 = opt32(f & 0x200 != 0, s.sample_size.unwrap_or(0));
    let p2 = opt32(f & 0x400 != 0, s.sample_flags.unwrap_or(0));
    let p3 = opt32(f & 0x800 != 0, s.sample_composition_time_offset.unwrap_or(0) as u32);
    lemma_sample_bytes_len(f, s);
    lemma_opt_len(f & 0x100 != 0, s.sample_duration.unwrap_or(0), 0);
    lemma_opt_len(f & 0x200 != 0, s.sample_size.unwrap_or(0), 0);
    lemma_opt_len(f & 0x400 != 0, s.sample_flags.unwrap_or(0), 0);
    lemma_opt_len(f & 0x800 != 0, s.sample_composition_time_offset.unwrap_or(0) as u32, 0);
    assert(sample_bytes(f, s) === p0 + p1 + p2 + p3);
    lemma_pieces4(p, c as int, p0, p1, p2, p3);
    let c1 = c + p0.len();
    let c2 = c1 + p1.len();
    let c3 = c2 + p2.len();
    lemma_signed_bits(s.sample_composition_time_offset, f & 0x800 != 0);
    lemma_opt32_read(f & 0x100 != 0, s.sample_duration, 0, p, c, "trun.dur");
    lemma_opt32_read(f & 0x200 != 0, s.sample_size, 0, p, c1, "trun.sz");
    lemma_opt32_read(f & 0x400 != 0, s.sample_flags, 0, p, c2, "trun.flg");
    lemma_opt32_read(
        f & 0x800 != 0,
        as_unsigned(s.sample_composition_time_offset),
        0,
        p,
        c3,
        "trun.cto",
    );
}

proof fn lemma_samples_chain_read(f: u32, ss: Seq<TrunSample>, p: Seq<u8>, c: nat)
    requires
        c + samples_bytes(f, ss).len() <= p.len(),
        p.subrange(c as int, (c + samples_bytes(f, ss).len()) as int) == samples_bytes(f, ss),
    ensures
        samples_chain(p, c, ss.len(), f & 0xFF_FFFF) == Ok::<(Seq<TrunSample>, nat), Error>(
            (ss.map_values(|s: TrunSample| sample_norm(f, s)), c + samples_bytes(f, ss).len()),
        ),
    decreases ss.len(),
{
    if ss.len() == 0 {
        assert(ss.map_values(|s: TrunSample| sample_norm(f, s)) =~= Seq::<TrunSample>::empty());
    } else {
        let a = sample_bytes(f, ss[0]);
        let b = samples_bytes(f, ss.skip(1));
        lemma_sample_bytes_len(f, ss[0]);
        lemma_split(p, c as int, a, b);
        lemma_sample_chain_read(f, ss[0], p, c);
        lemma_samples_chain_read(f, ss.skip(1), p, c + a.len());
        assert(seq![sample_norm(f, ss[0])] + ss.skip(1).map_values(|s: TrunSample| sample_norm(f, s))
            =~= ss.map_values(|s: TrunSample| sample_norm(f, s)));
    }
}

/// Parsing the body of an encoded `trun` (at most `u32::MAX` samples) gives
/// back its normal form, and the normal form encodes to the same bytes.
#[verifier::spinoff_prover]
#[verifier::rlimit(80)]
pub proof fn lemma_trun_round_trip(v: TrunView, rest: Seq<u8>)
    requires
        v.4.len() <= u32::MAX,
    ensures
        spec_parse_trun(trun_bytes(v).skip(8) + rest) == Ok::<TrunView, Error>(trun_norm(v)),
        trun_bytes(trun_norm(v)) == trun_bytes(v),
{
    reveal(spec_parse_trun);
    let f = v.1;
    lemma_flag_bits(f);
    lemma_flags24(f);
    let body = trun_bytes(v).skip(8) + rest;
    let p = body.skip(4);
    let o1 = opt32(f & 1 != 0, v.2.unwrap_or(0) as u32);
    let o2 = opt32(f & 4 != 0, v.3.unwrap_or(0));
    let sb = samples_bytes(f, v.4);
    lemma_opt_len(f & 1 != 0, v.2.unwrap_or(0) as u32, 0);
    lemma_opt_len(f & 4 != 0, v.3.unwrap_or(0), 0);
    assert(body.subrange(1, 4) =~= be24(f));
    lemma_be24_get24_flags(f, body, 1);
    assert(p =~= be32(v.4.len() as u32) + (o1 + o2 + sb) + rest);
    assert(p.subrange(0, 4) =~= be32(v.4.len() as u32));
    crate::bytes::lemma_be32_get32(v.4.len() as u32, p, 0);
    assert(p.subrange(4, 4int + o1.len() + o2.len() + sb.len()) =~= o1 + o2 + sb);
    lemma_split(p, 4, o1 + o2, sb);
    lemma_split(p, 4, o1, o2);
    lemma_signed_bits(v.2, f & 1 != 0);
    lemma_opt32_read(f & 1 != 0, as_unsigned(v.2), 0, p, 4, "trun.do");
    lemma_opt32_read(f & 4 != 0, v.3, 0, p, 4 + o1.len(), "trun.fsf");
    lemma_samples_chain_read(f, v.4, p, 4 + o1.len() + o2.len());
    lemma_trun_norm_bytes(v);
}

proof fn lemma_sample_norm_bytes(f: u32, s: TrunSample)
    ensures
        sample_bytes(f & 0xFF_FFFF, sample_norm(f, s)) == sample_bytes(f, s),
{
    lemma_flag_bits(f);
    reveal(opt32);
    lemma_signed_bits(s.sample_composition_time_offset, f & 0x800 != 0);
    assert(sample_bytes(f & 0xFF_FFFF, sample_norm(f, s)) =~= sample_bytes(f, s));
}

proof fn lemma_samples_norm_bytes(f: u32, ss: Seq<TrunSample>)
    ensures
        samples_bytes(f & 0xFF_FFFF, ss.map_values(|s: TrunSample| sample_norm(f, s)))
            == samples_bytes(f, ss),
    decreases ss.len(),
{
    if ss.len() > 0 {
        let m = ss.map_values(|s: TrunSample| sample_norm(f, s));
        assert(m.skip(1) =~= ss.skip(1).map_values(|s: TrunSample| sample_norm(f, s)));
        lemma_samples_norm_bytes(f, ss.skip(1));
        lemma_sample_norm_bytes(f, ss[0]);
    }
}

proof fn lemma_trun_norm_bytes(v: TrunView)
    ensures
        trun_bytes(trun_norm(v)) == trun_bytes(v),
{
    let f = v.1;
    lemma_flag_bits(f);
    lemma_flags24(f);
    lemma_samples_norm_bytes(f, v.4);
    lemma_signed_bits(v.2, f & 1 != 0);
    reveal(opt32);
    assert(trun_bytes(trun_norm(v)) =~= trun_bytes(v));
}

// ---------------------------------------------------------------------------
// traf
// ---------------------------------------------------------------------------

/// Track Fragment Box (`traf`, §8.8.6).
#[derive(Debug, Clone, PartialEq, Eq)]
pub struct TrackFragmentBox {
    /// The fragment header.
    pub tfhd: TrackFragmentHeaderBox,
    /// The base media decode time, when present.
    pub tfdt: Option<TrackFragmentBaseMediaDecodeTimeBox>,
    /// The track runs (at least one).
    pub trun: Vec<TrackFragmentRunBox>,
}

/// `(tfhd, tfdt, truns)` of a `traf`.
pub type TrafView = (TrackFragmentHeaderBox, Option<TfdtView>, Seq<TrunView>);

/// The `tfdt` of a `traf`, by view.
pub open spec fn opt_tfdt_view(t: Option<TrackFragmentBaseMediaDecodeTimeBox>) -> Option<TfdtView> {
    match t {
        Some(x) => Some(x@),
        None => None,
    }
}

impl View for TrackFragmentBox {
    type V = TrafView;

    open spec fn view(&self) -> TrafView {
        (
            self.tfhd,
            opt_tfdt_view(self.tfdt),
            self.trun@.map_values(|r: TrackFragmentRunBox| r@),
        )
    }
}

/// The encoded runs, in order.
pub open spec fn truns_bytes(rs: Seq<TrunView>) -> Seq<u8>
    decreases rs.len(),
{
    if rs.len() == 0 {
        Seq::empty()
    } else {
        trun_bytes(rs[0]) + truns_bytes(rs.skip(1))
    }
}

/// The encoded `tfdt`, or nothing.
pub open spec fn opt_tfdt_bytes(t: Option<TfdtView>) -> Seq<u8> {
    match t {
        Some(x) => tfdt_bytes(x),
        None => Seq::empty(),
    }
}

/// The `traf` body: `tfhd`, optional `tfdt`, then the runs.
pub open spec fn traf_payload(v: TrafView) -> Seq<u8> {
    tfhd_bytes(v.0) + opt_tfdt_bytes(v.1) + truns_bytes(v.2)
}

/// The `traf` box bytes.
pub open spec fn traf_bytes(v: TrafView) -> Seq<u8> {
    box_head(8 + traf_payload(v).len(), TRAF@) + traf_payload(v)
}

/// What a walk over `traf` children has gathered: the last `tfhd` and
/// `tfdt` seen and every `trun`, in order.
pub type TrafAcc = (Option<TrackFragmentHeaderBox>, Option<TfdtView>, Seq<TrunView>);

/// Walking the child boxes of a `traf` body; unknown children are skipped.
pub open spec fn traf_walk(b: Seq<u8>, acc: TrafAcc) -> Result<TrafAcc, Error>
    decreases b.len(),
{
    if b.len() == 0 {
        Ok(acc)
    } else {
        match spec_box_header(b) {
            Err(e) => Err(e),
            Ok((t, hl, size)) => {
                proof {
                    lemma_box_header_bounds(b);
                }
                let body = b.subrange(hl as int, size as int);
                let next = b.skip(size as int);
                if t == TFHD@ {
                    match spec_parse_tfhd(body) {
                        Err(e) => Err(e),
                        Ok(h) => traf_walk(next, (Some(h), acc.1, acc.2)),
                    }
                } else if t == TFDT@ {
                    match spec_parse_tfdt(body) {
                        Err(e) => Err(e),
                        Ok(d) => traf_walk(next, (acc.0, Some(d), acc.2)),
                    }
                } else if t == TRUN@ {
                    match spec_parse_trun(body) {
                        Err(e) => Err(e),
                        Ok(r) => traf_walk(next, (acc.0, acc.1, acc.2.push(r))),
                    }
                } else {
                    traf_walk(next, acc)
                }
            },
        }
    }
}

/// Outcome of parsing a `traf` body.
#[verifier::opaque]
pub open spec fn spec_parse_traf(body: Seq<u8>) -> Result<TrafView, Error> {
    match traf_walk(body, (None, None, Seq::empty())) {
        Err(e) => Err(e),
        Ok((h, d, rs)) => match h {
            None => Err(Error::BufferTooShort { need: 1, have: 0, what: "traf missing tfhd" }),
            Some(hh) => if rs.len() == 0 {
                Err(Error::BufferTooShort { need: 1, have: 0, what: "traf missing trun" })
            } else {
                Ok((hh, d, rs))
            },
        },
    }
}

pub proof fn lemma_truns_bytes_add(a: Seq<TrunView>, b: Seq<TrunView>)
    ensures
        truns_bytes(a + b) == truns_bytes(a) + truns_bytes(b),
    decreases a.len(),
{
    if a.len() == 0 {
        assert(a + b =~= b);
        assert(truns_bytes(a) + truns_bytes(b) =~= truns_bytes(b));
    } else {
        assert((a + b).skip(1) =~= a.skip(1) + b);
        lemma_truns_bytes_add(a.skip(1), b);
        assert((a + b)[0] == a[0]);
        assert(truns_bytes(a + b) =~= truns_bytes(a) + truns_bytes(b));
    }
}

pub proof fn lemma_truns_bytes_one(x: TrunView)
    ensures
        truns_bytes(seq![x]) == trun_bytes(x),
{
    assert(seq![x].skip(1) =~= Seq::<TrunView>::empty());
    assert(truns_bytes(seq![x]) =~= trun_bytes(x) + truns_bytes(Seq::<TrunView>::empty()));
}

/// Every run's encoding is no longer than the encoding of all runs.
pub proof fn lemma_truns_bytes_part(rs: Seq<TrunView>, i: int)
    requires
        0 <= i < rs.len(),
    ensures
        trun_bytes(rs[i]).len() <= truns_bytes(rs).len(),
{
    assert(rs =~= rs.take(i) + (seq![rs[i]] + rs.skip(i + 1)));
    lemma_truns_bytes_add(rs.take(i), seq![rs[i]] + rs.skip(i + 1));
    lemma_truns_bytes_add(seq![rs[i]], rs.skip(i + 1));
    lemma_truns_bytes_one(rs[i]);
}

impl TrackFragmentBox {
    /// Parse a `traf` body: walk its children, keeping the last `tfhd` and
    /// `tfdt` and every `trun`; a missing `tfhd` or `trun` is an error.
    pub fn parse_body(body: &[u8]) -> (r: Result<Self, Error>)
        ensures
            match spec_parse_traf(body@) {
                Ok(v) => r matches Ok(x) && x@ == v,
                Err(e) => r == Err::<Self, Error>(e),
            },
    {
        reveal(spec_parse_traf);
        let mut tfhd: Option<TrackFragmentHeaderBox> = None;
        let mut tfdt: Option<TrackFragmentBaseMediaDecodeTimeBox> = None;
        let mut trun: Vec<TrackFragmentRunBox> = Vec::new();
        let mut remaining: &[u8] = body;
        assert(trun@.map_values(|r: TrackFragmentRunBox| r@) =~= Seq::<TrunView>::empty());
        while remaining.len() > 0
            invariant
                traf_walk(body@, (None, None, Seq::empty())) == traf_walk(
                    remaining@,
                    (tfhd, opt_tfdt_view(tfdt), trun@.map_values(|r: TrackFragmentRunBox| r@)),
                ),
            decreases remaining@.len(),
        {
            proof {
                lemma_box_header_bounds(remaining@);
                reveal(spec_parse_traf);
            }
            let (bx, consumed) = match parse_box(remaining) {
                Ok(x) => x,
                Err(e) => {
                    return Err(e);
                },
            };
            let ghost old_runs = trun@.map_values(|r: TrackFragmentRunBox| r@);
            if fourcc_eq(&bx.header.box_type, &TFHD) {
                let h = TrackFragmentHeaderBox::parse_body(bx.body)?;
                tfhd = Some(h);
            } else if fourcc_eq(&bx.header.box_type, &TFDT) {
                let d = TrackFragmentBaseMediaDecodeTimeBox::parse_body(bx.body)?;
                tfdt = Some(d);
            } else if fourcc_eq(&bx.header.box_type, &TRUN) {
                let r = TrackFragmentRunBox::parse_body(bx.body)?;
                trun.push(r);
                assert(trun@.map_values(|r: TrackFragmentRunBox| r@) =~= old_runs.push(r@));
            }
            remaining = &remaining[consumed..remaining.len()];
        }
        let tfhd = match tfhd {
            Some(h) => h,
            None => {
                return Err(Error::BufferTooShort { need: 1, have: 0, what: "traf missing tfhd" });
            },
        };
        if trun.len() == 0 {
            return Err(Error::BufferTooShort { need: 1, have: 0, what: "traf missing trun" });
        }
        Ok(TrackFragmentBox { tfhd, tfdt, trun })
    }

    /// Encoded size in bytes.
    pub fn serialized_len(&self) -> (r: usize)
        requires
            traf_bytes(self@).len() <= usize::MAX,
        ensures
            r == traf_bytes(self@).len(),
    {
        let mut n: usize = 8 + self.tfhd.serialized_len();
        proof {
            lemma_tfhd_len(self.tfhd);
        }
        match &self.tfdt {
            Some(t) => {
                n = n + t.serialized_len();
            },
            None => {},
        }
        let ghost rs = self@.2;
        let mut i: usize = 0;
        while i < self.trun.len()
            invariant
                i <= self.trun@.len(),
                rs == self@.2,
                traf_bytes(self@).len() <= usize::MAX,
                n == 8 + tfhd_bytes(self.tfhd).len() + opt_tfdt_bytes(self@.1).len() + truns_bytes(
                    rs.take(i as int),
                ).len(),
            decreases self.trun@.len() - i,
        {
            proof {
                assert(rs.take(i + 1) =~= rs.take(i as int) + seq![rs[i as int]]);
                lemma_truns_bytes_add(rs.take(i as int), seq![rs[i as int]]);
                lemma_truns_bytes_one(rs[i as int]);
                assert(rs =~= rs.take(i + 1) + rs.skip(i + 1));
                lemma_truns_bytes_add(rs.take(i + 1), rs.skip(i + 1));
                lemma_trun_len(rs[i as int]);
                assert(rs[i as int] == self.trun@[i as int]@);
            }
            n = n + self.trun[i].serialized_len();
            i += 1;
        }
        assert(rs.take(self.trun@.len() as int) =~= rs);
        n
    }

    /// The encoded box.
    pub fn to_bytes(&self) -> (r: Vec<u8>)
        requires
            traf_bytes(self@).len() <= usize::MAX,
        ensures
            r@ == traf_bytes(self@),
    {
        let len = self.serialized_len();
        let mut out: Vec<u8> = Vec::new();
        push_box_head(&mut out, len, &TRAF);
        let hb = self.tfhd.to_bytes();
        push_all(&mut out, hb.as_slice());
        match &self.tfdt {
            Some(t) => {
                let tb = t.to_bytes();
                push_all(&mut out, tb.as_slice());
            },
            None => {},
        }
        let ghost head = out@;
        let ghost rs = self@.2;
        assert(head =~= box_head(8 + traf_payload(self@).len(), TRAF@) + tfhd_bytes(self.tfhd)
            + opt_tfdt_bytes(self@.1));
        let mut i: usize = 0;
        while i < self.trun.len()
            invariant
                i <= self.trun@.len(),
                rs == self@.2,
                traf_bytes(self@).len() <= usize::MAX,
                out@ == head + truns_bytes(rs.take(i as int)),
            decreases self.trun@.len() - i,
        {
            proof {
                assert(rs.take(i + 1) =~= rs.take(i as int) + seq![rs[i as int]]);
                lemma_truns_bytes_add(rs.take(i as int), seq![rs[i as int]]);
                lemma_truns_bytes_one(rs[i as int]);
                lemma_truns_bytes_part(rs, i as int);
                lemma_trun_len(rs[i as int]);
                assert(rs[i as int] == self.trun@[i as int]@);
            }
            let rb = self.trun[i].to_bytes();
            push_all(&mut out, rb.as_slice());
            i += 1;
        }
        assert(rs.take(self.trun@.len() as int) =~= rs);
        assert(out@ =~= traf_bytes(self@));
        out
    }
}

// ---------------------------------------------------------------------------
// moof
// ---------------------------------------------------------------------------

/// Movie Fragment Box (`moof`, §8.8.4).
#[derive(Debug, Clone, PartialEq, Eq)]
pub struct MovieFragmentBox {
    /// The fragment header.
    pub mfhd: MovieFragmentHeaderBox,
    /// The track fragments (at least one).
    pub traf: Vec<TrackFragmentBox>,
}

/// `(sequence number, trafs)` of a `moof`.
pub type MoofView = (u32, Seq<TrafView>);

impl View for MovieFragmentBox {
    type V = MoofView;

    open spec fn view(&self) -> MoofView {
        (self.mfhd.sequence_number, self.traf@.map_values(|t: TrackFragmentBox| t@))
    }
}

/// The encoded track fragments, in order.
pub open spec fn trafs_bytes(ts: Seq<TrafView>) -> Seq<u8>
    decreases ts.len(),
{
    if ts.len() == 0 {
        Seq::empty()
    } else {
        traf_bytes(ts[0]) + trafs_bytes(ts.skip(1))
    }
}

/// The `moof` body: `mfhd`, then the track fragments.
pub open spec fn moof_payload(v: MoofView) -> Seq<u8> {
    mfhd_bytes(v.0) + trafs_bytes(v.1)
}

/// The `moof` box bytes.
pub open spec fn moof_bytes(v: MoofView) -> Seq<u8> {
    box_head(8 + moof_payload(v).len(), MOOF@) + moof_payload(v)
}

/// What a walk over `moof` children has gathered: the last `mfhd` sequence
/// number seen and every `traf`, in order.
pub type MoofAcc = (Option<u32>, Seq<TrafView>);

/// Walking the child boxes of a `moof` body; unknown children are skipped.
pub open spec fn moof_walk(b: Seq<u8>, acc: MoofAcc) -> Result<MoofAcc, Error>
    decreases b.len(),
{
    if b.len() == 0 {
        Ok(acc)
    } else {
        match spec_box_header(b) {
            Err(e) => Err(e),
            Ok((t, hl, size)) => {
                proof {
                    lemma_box_header_bounds(b);
                }
                let body = b.subrange(hl as int, size as int);
                let next = b.skip(size as int);
                if t == MFHD@ {
                    match spec_parse_mfhd(body) {
                        Err(e) => Err(e),
                        Ok(m) => moof_walk(next, (Some(m), acc.1)),
                    }
                } else if t == TRAF@ {
                    match spec_parse_traf(body) {
                        Err(e) => Err(e),
                        Ok(f) => moof_walk(next, (acc.0, acc.1.push(f))),
                    }
                } else {
                    moof_walk(next, acc)
                }
            },
        }
    }
}

/// Outcome of parsing a `moof` body.
pub open spec fn spec_parse_moof(body: Seq<u8>) -> Result<MoofView, Error> {
    match moof_walk(body, (None, Seq::empty())) {
        Err(e) => Err(e),
        Ok((m, ts)) => match m {
            None => Err(Error::BufferTooShort { need: 1, have: 0, what: "moof missing mfhd" }),
            Some(mm) => if ts.len() == 0 {
                Err(Error::BufferTooShort { need: 1, have: 0, what: "moof missing traf" })
            } else {
                Ok((mm, ts))
            },
        },
    }
}

pub proof fn lemma_trafs_bytes_add(a: Seq<TrafView>, b: Seq<TrafView>)
    ensures
        trafs_bytes(a + b) == trafs_bytes(a) + trafs_bytes(b),
    decreases a.len(),
{
    if a.len() == 0 {
        assert(a + b =~= b);
        assert(trafs_bytes(a) + trafs_bytes(b) =~= trafs_bytes(b));
    } else {
        assert((a + b).skip(1) =~= a.skip(1) + b);
        lemma_trafs_bytes_add(a.skip(1), b);
        assert((a + b)[0] == a[0]);
        assert(trafs_bytes(a + b) =~= trafs_bytes(a) + trafs_bytes(b));
    }
}

pub proof fn lemma_trafs_bytes_one(x: TrafView)
    ensures
        trafs_bytes(seq![x]) == traf_bytes(x),
{
    assert(seq![x].skip(1) =~= Seq::<TrafView>::empty());
    assert(trafs_bytes(seq![x]) =~= traf_bytes(x) + trafs_bytes(Seq::<TrafView>::empty()));
}

pub proof fn lemma_trafs_bytes_part(ts: Seq<TrafView>, i: int)
    requires
        0 <= i < ts.len(),
    ensures
        traf_bytes(ts[i]).len() <= trafs_bytes(ts).len(),
{
    assert(ts =~= ts.take(i) + (seq![ts[i]] + ts.skip(i + 1)));
    lemma_trafs_bytes_add(ts.take(i), seq![ts[i]] + ts.skip(i + 1));
    lemma_trafs_bytes_add(seq![ts[i]], ts.skip(i + 1));
    lemma_trafs_bytes_one(ts[i]);
}

impl MovieFragmentBox {
    /// Parse a `moof` body: walk its children, keeping the last `mfhd` and
    /// every `traf`; a missing `mfhd` or `traf` is an error.
    pub fn parse_body(body: &[u8]) -> (r: Result<Self, Error>)
        ensures
            match spec_parse_moof(body@) {
                Ok(v) => r matches Ok(x) && x@ == v,
                Err(e) => r == Err::<Self, Error>(e),
            },
    {
        let mut mfhd: Option<MovieFragmentHeaderBox> = None;
        let mut traf: Vec<TrackFragmentBox> = Vec::new();
        let mut remaining: &[u8] = body;
        assert(traf@.map_values(|t: TrackFragmentBox| t@) =~= Seq::<TrafView>::empty());
        while remaining.len() > 0
            invariant
                moof_walk(body@, (None, Seq::empty())) == moof_walk(
                    remaining@,
                    (
                        match mfhd {
                            Some(m) => Some(m.sequence_number),
                            None => None,
                        },
                        traf@.map_values(|t: TrackFragmentBox| t@),
                    ),
                ),
            decreases remaining@.len(),
        {
            proof {
                lemma_box_header_bounds(remaining@);
            }
            let (bx, consumed) = match parse_box(remaining) {
                Ok(x) => x,
                Err(e) => {
                    return Err(e);
                },
            };
            let ghost old_trafs = traf@.map_values(|t: TrackFragmentBox| t@);
            if fourcc_eq(&bx.header.box_type, &MFHD) {
                let m = MovieFragmentHeaderBox::parse_body(bx.body)?;
                mfhd = Some(m);
            } else if fourcc_eq(&bx.header.box_type, &TRAF) {
                let t = TrackFragmentBox::parse_body(bx.body)?;
                traf.push(t);
                assert(traf@.map_values(|t: TrackFragmentBox| t@) =~= old_trafs.push(t@));
            }
            remaining = &remaining[consumed..remaining.len()];
        }
        let mfhd = match mfhd {
            Some(m) => m,
            None => {
                return Err(Error::BufferTooShort { need: 1, have: 0, what: "moof missing mfhd" });
            },
        };
        if traf.len() == 0 {
            return Err(Error::BufferTooShort { need: 1, have: 0, what: "moof missing traf" });
        }
        Ok(MovieFragmentBox { mfhd, traf })
    }

    /// Encoded size in bytes.
    pub fn serialized_len(&self) -> (r: usize)
        requires
            moof_bytes(self@).len() <= usize::MAX,
        ensures
            r == moof_bytes(self@).len(),
    {
        let mut n: usize = 8 + self.mfhd.serialized_len();
        let ghost ts = self@.1;
        let mut i: usize = 0;
        while i < self.traf.len()
            invariant
                i <= self.traf@.len(),
                ts == self@.1,
                moof_bytes(self@).len() <= usize::MAX,
                n == 8 + mfhd_bytes(self@.0).len() + trafs_bytes(ts.take(i as int)).len(),
            decreases self.traf@.len() - i,
        {
            proof {
                assert(ts.take(i + 1) =~= ts.take(i as int) + seq![ts[i as int]]);
                lemma_trafs_bytes_add(ts.take(i as int), seq![ts[i as int]]);
                lemma_trafs_bytes_one(ts[i as int]);
                assert(ts =~= ts.take(i + 1) + ts.skip(i + 1));
                lemma_trafs_bytes_add(ts.take(i + 1), ts.skip(i + 1));
                assert(ts[i as int] == self.traf@[i as int]@);
            }
            n = n + self.traf[i].serialized_len();
            i += 1;
        }
        assert(ts.take(self.traf@.len() as int) =~= ts);
        n
    }

    /// The encoded box.
    pub fn to_bytes(&self) -> (r: Vec<u8>)
        requires
            moof_bytes(self@).len() <= usize::MAX,
        ensures
            r@ == moof_bytes(self@),
    {
        let len = self.serialized_len();
        let mut out: Vec<u8> = Vec::new();
        push_box_head(&mut out, len, &MOOF);
        let mb = self.mfhd.to_bytes();
        push_all(&mut out, mb.as_slice());
        let ghost head = out@;
        let ghost ts = self@.1;
        let mut i: usize = 0;
        while i < self.traf.len()
            invariant
                i <= self.traf@.len(),
                ts == self@.1,
                moof_bytes(self@).len() <= usize::MAX,
                out@ == head + trafs_bytes(ts.take(i as int)),
            decreases self.traf@.len() - i,
        {
            proof {
                assert(ts.take(i + 1) =~= ts.take(i as int) + seq![ts[i as int]]);
                lemma_trafs_bytes_add(ts.take(i as int), seq![ts[i as int]]);
                lemma_trafs_bytes_one(ts[i as int]);
                lemma_trafs_bytes_part(ts, i as int);
                assert(ts[i as int] == self.traf@[i as int]@);
            }
            let tb = self.traf[i].to_bytes();
            push_all(&mut out, tb.as_slice());
            i += 1;
        }
        assert(ts.take(self.traf@.len() as int) =~= ts);
        assert(out@ =~= moof_bytes(self@));
        out
    }
}

// ---------------------------------------------------------------------------
// Container round trips
// ---------------------------------------------------------------------------

pub proof fn lemma_fourccs_distinct()
    ensures
        TFHD@ != TFDT@,
        TFHD@ != TRUN@,
        TFDT@ != TRUN@,
        MFHD@ != TRAF@,
        TFHD@ != UUID_TYPE@,
        TFDT@ != UUID_TYPE@,
        TRUN@ != UUID_TYPE@,
        MFHD@ != UUID_TYPE@,
        TRAF@ != UUID_TYPE@,
        TFHD@.len() == 4,
        TFDT@.len() == 4,
        TRUN@.len() == 4,
        MFHD@.len() == 4,
        TRAF@.len() == 4,
        MOOF@.len() == 4,
{
    assert(TFHD@[2] != TFDT@[2]);
    assert(TFHD@[1] != TRUN@[1]);
    assert(TFDT@[1] != TRUN@[1]);
    assert(MFHD@[0] != TRAF@[0]);
    assert(TFHD@[0] != UUID_TYPE@[0]);
    assert(TFDT@[0] != UUID_TYPE@[0]);
    assert(TRUN@[0] != UUID_TYPE@[0]);
    assert(MFHD@[0] != UUID_TYPE@[0]);
    assert(TRAF@[0] != UUID_TYPE@[0]);
}

#[verifier::spinoff_prover]
#[verifier::rlimit(80)]
proof fn lemma_traf_walk_tfhd(h: TrackFragmentHeaderBox, x: Seq<u8>, acc: TrafAcc)
    ensures
        traf_walk(tfhd_bytes(h) + x, acc) == traf_walk(x, (Some(tfhd_norm(h)), acc.1, acc.2)),
{
    let b = tfhd_bytes(h);
    lemma_tfhd_len(h);
    lemma_fourccs_distinct();
    assert(b.subrange(0, 4) =~= be32(b.len() as u32));
    assert(b.subrange(4, 8) =~= TFHD@);
    lemma_box_walk_step(b, TFHD@, x);
    lemma_tfhd_round_trip(h, Seq::empty());
    assert(b.skip(8) + Seq::<u8>::empty() =~= b.skip(8));
    assert((b + x).len() > 0);
}

#[verifier::spinoff_prover]
#[verifier::rlimit(80)]
proof fn lemma_traf_walk_tfdt(d: TfdtView, x: Seq<u8>, acc: TrafAcc)
    requires
        d.0 == 0 ==> d.1 <= u32::MAX,
    ensures
        traf_walk(tfdt_bytes(d) + x, acc) == traf_walk(x, (acc.0, Some(d), acc.2)),
{
    let b = tfdt_bytes(d);
    lemma_fourccs_distinct();
    assert(b.subrange(0, 4) =~= be32(b.len() as u32));
    assert(b.subrange(4, 8) =~= TFDT@);
    lemma_box_walk_step(b, TFDT@, x);
    lemma_tfdt_round_trip(d, Seq::empty());
    assert(b.skip(8) + Seq::<u8>::empty() =~= b.skip(8));
    assert((b + x).len() > 0);
}

/// A `trun` that can be written faithfully: its sample count and size fit
/// their 32-bit fields.
pub open spec fn trun_wf(r: TrunView) -> bool {
    r.4.len() <= u32::MAX && trun_bytes(r).len() <= u32::MAX
}

#[verifier::spinoff_prover]
#[verifier::rlimit(80)]
proof fn lemma_traf_walk_trun(r: TrunView, x: Seq<u8>, acc: TrafAcc)
    requires
        trun_wf(r),
    ensures
        traf_walk(trun_bytes(r) + x, acc) == traf_walk(x, (acc.0, acc.1, acc.2.push(trun_norm(r)))),
{
    let b = trun_bytes(r);
    lemma_trun_len(r);
    lemma_fourccs_distinct();
    assert(b.subrange(0, 4) =~= be32(b.len() as u32));
    assert(b.subrange(4, 8) =~= TRUN@);
    lemma_box_walk_step(b, TRUN@, x);
    lemma_trun_round_trip(r, Seq::empty());
    assert(b.skip(8) + Seq::<u8>::empty() =~= b.skip(8));
    assert((b + x).len() > 0);
}

#[verifier::spinoff_prover]
#[verifier::rlimit(80)]
proof fn lemma_traf_walk_truns(rs: Seq<TrunView>, acc: TrafAcc)
    requires
        forall|i: int| 0 <= i < rs.len() ==> trun_wf(#[trigger] rs[i]),
    ensures
        traf_walk(truns_bytes(rs), acc) == Ok::<TrafAcc, Error>(
            (acc.0, acc.1, acc.2 + rs.map_values(|r: TrunView| trun_norm(r))),
        ),
    decreases rs.len(),
{
    if rs.len() == 0 {
        assert(acc.2 + rs.map_values(|r: TrunView| trun_norm(r)) =~= acc.2);
    } else {
        let acc2 = (acc.0, acc.1, acc.2.push(trun_norm(rs[0])));
        assert(trun_wf(rs[0]));
        lemma_traf_walk_trun(rs[0], truns_bytes(rs.skip(1)), acc);
        assert forall|i: int| 0 <= i < rs.skip(1).len() implies trun_wf(#[trigger] rs.skip(1)[i]) by {
            assert(rs.skip(1)[i] == rs[i + 1]);
        }
        lemma_traf_walk_truns(rs.skip(1), acc2);
        assert(acc.2.push(trun_norm(rs[0])) + rs.skip(1).map_values(|r: TrunView| trun_norm(r))
            =~= acc.2 + rs.map_values(|r: TrunView| trun_norm(r)));
    }
}

/// What a `traf` reads back as.
pub open spec fn traf_norm(v: TrafView) -> TrafView {
    (tfhd_norm(v.0), v.1, v.2.map_values(|r: TrunView| trun_norm(r)))
}

/// A `traf` that can be written faithfully and parses back: at least one
/// run, every run well formed, a version-0 `tfdt` time within 32 bits.
pub open spec fn traf_wf(v: TrafView) -> bool {
    &&& v.2.len() > 0
    &&& (forall|i: int| 0 <= i < v.2.len() ==> trun_wf(#[trigger] v.2[i]))
    &&& match v.1 {
        Some(d) => d.0 == 0 ==> d.1 <= u32::MAX,
        None => true,
    }
    &&& traf_bytes(v).len() <= u32::MAX
}

#[verifier::spinoff_prover]
#[verifier::rlimit(80)]
proof fn lemma_truns_norm_bytes(rs: Seq<TrunView>)
    ensures
        truns_bytes(rs.map_values(|r: TrunView| trun_norm(r))) == truns_bytes(rs),
    decreases rs.len(),
{
    if rs.len() > 0 {
        let m = rs.map_values(|r: TrunView| trun_norm(r));
        assert(m.skip(1) =~= rs.skip(1).map_values(|r: TrunView| trun_norm(r)));
        lemma_truns_norm_bytes(rs.skip(1));
        lemma_trun_norm_bytes(rs[0]);
    }
}

/// Parsing the body of an encoded well-formed `traf` gives back its normal
/// form, and the normal form encodes to the same bytes.
#[verifier::spinoff_prover]
#[verifier::rlimit(80)]
pub proof fn lemma_traf_round_trip(v: TrafView)
    requires
        traf_wf(v),
    ensures
        spec_parse_traf(traf_payload(v)) == Ok::<TrafView, Error>(traf_norm(v)),
        traf_bytes(traf_norm(v)) == traf_bytes(v),
{
    reveal(spec_parse_traf);
    let rest = truns_bytes(v.2);
    let acc0: TrafAcc = (None, None, Seq::empty());
    lemma_traf_walk_tfhd(v.0, opt_tfdt_bytes(v.1) + rest, acc0);
    assert(traf_payload(v) =~= tfhd_bytes(v.0) + (opt_tfdt_bytes(v.1) + rest));
    let acc1: TrafAcc = (Some(tfhd_norm(v.0)), None, Seq::empty());
    match v.1 {
        Some(d) => {
            lemma_traf_walk_tfdt(d, rest, acc1);
        },
        None => {
            assert(opt_tfdt_bytes(v.1) + rest =~= rest);
        },
    }
    lemma_traf_walk_truns(v.2, (Some(tfhd_norm(v.0)), v.1, Seq::empty()));
    assert(Seq::<TrunView>::empty() + v.2.map_values(|r: TrunView| trun_norm(r)) =~= v.2.map_values(
        |r: TrunView| trun_norm(r),
    ));
    lemma_tfhd_round_trip(v.0, Seq::empty());
    lemma_truns_norm_bytes(v.2);
    assert(traf_payload(traf_norm(v)) =~= traf_payload(v));
}

#[verifier::spinoff_prover]
#[verifier::rlimit(80)]
proof fn lemma_moof_walk_mfhd(m: u32, x: Seq<u8>, acc: MoofAcc)
    ensures
        moof_walk(mfhd_bytes(m) + x, acc) == moof_walk(x, (Some(m), acc.1)),
{
    let b = mfhd_bytes(m);
    lemma_fourccs_distinct();
    assert(b.subrange(0, 4) =~= be32(b.len() as u32));
    assert(b.subrange(4, 8) =~= MFHD@);
    lemma_box_walk_step(b, MFHD@, x);
    lemma_mfhd_round_trip(m, Seq::empty());
    assert(b.skip(8) + Seq::<u8>::empty() =~= b.skip(8));
    assert((b + x).len() > 0);
}

#[verifier::spinoff_prover]
#[verifier::rlimit(80)]
proof fn lemma_moof_walk_traf(t: TrafView, x: Seq<u8>, acc: MoofAcc)
    requires
        traf_wf(t),
    ensures
        moof_walk(traf_bytes(t) + x, acc) == moof_walk(x, (acc.0, acc.1.push(traf_norm(t)))),
{
    let b = traf_bytes(t);
    lemma_fourccs_distinct();
    assert(b.subrange(0, 4) =~= be32(b.len() as u32));
    assert(b.subrange(4, 8) =~= TRAF@);
    lemma_box_walk_step(b, TRAF@, x);
    lemma_traf_round_trip(t);
    assert(b.skip(8) =~= traf_payload(t));
    assert((b + x).len() > 0);
}

#[verifier::spinoff_prover]
#[verifier::rlimit(80)]
proof fn lemma_moof_walk_trafs(ts: Seq<TrafView>, acc: MoofAcc)
    requires
        forall|i: int| 0 <= i < ts.len() ==> traf_wf(#[trigger] ts[i]),
    ensures
        moof_walk(trafs_bytes(ts), acc) == Ok::<MoofAcc, Error>(
            (acc.0, acc.1 + ts.map_values(|t: TrafView| traf_norm(t))),
        ),
    decreases ts.len(),
{
    if ts.len() == 0 {
        assert(acc.1 + ts.map_values(|t: TrafView| traf_norm(t)) =~= acc.1);
    } else {
        let acc2 = (acc.0, acc.1.push(traf_norm(ts[0])));
        assert(traf_wf(ts[0]));
        lemma_moof_walk_traf(ts[0], trafs_bytes(ts.skip(1)), acc);
        assert forall|i: int| 0 <= i < ts.skip(1).len() implies traf_wf(#[trigger] ts.skip(1)[i]) by {
            assert(ts.skip(1)[i] == ts[i + 1]);
        }
        lemma_moof_walk_trafs(ts.skip(1), acc2);
        assert(acc.1.push(traf_norm(ts[0])) + ts.skip(1).map_values(|t: TrafView| traf_norm(t))
            =~= acc.1 + ts.map_values(|t: TrafView| traf_norm(t)));
    }
}

/// What a `moof` reads back as.
pub open spec fn moof_norm(v: MoofView) -> MoofView {
    (v.0, v.1.map_values(|t: TrafView| traf_norm(t)))
}

/// A `moof` that can be written faithfully and parses back: at least one
/// track fragment, each well formed.
pub open spec fn moof_wf(v: MoofView) -> bool {
    &&& v.1.len() > 0
    &&& forall|i: int| 0 <= i < v.1.len() ==> traf_wf(#[trigger] v.1[i])
}

#[verifier::spinoff_prover]
#[verifier::rlimit(80)]
proof fn lemma_trafs_norm_bytes(ts: Seq<TrafView>)
    requires
        forall|i: int| 0 <= i < ts.len() ==> traf_wf(#[trigger] ts[i]),
    ensures
        trafs_bytes(ts.map_values(|t: TrafView| traf_norm(t))) == trafs_bytes(ts),
    decreases ts.len(),
{
    if ts.len() > 0 {
        let m = ts.map_values(|t: TrafView| traf_norm(t));
        assert(m.skip(1) =~= ts.skip(1).map_values(|t: TrafView| traf_norm(t)));
        assert forall|i: int| 0 <= i < ts.skip(1).len() implies traf_wf(#[trigger] ts.skip(1)[i]) by {
            assert(ts.skip(1)[i] == ts[i + 1]);
        }
        lemma_trafs_norm_bytes(ts.skip(1));
        assert(traf_wf(ts[0]));
        lemma_traf_round_trip(ts[0]);
    }
}

/// Parsing the body of an encoded well-formed `moof` gives back its normal
/// form (every field the flags select, absent ones defaulted), and the normal
/// form encodes to the very same bytes: serialize, parse, serialize is
/// byte-identical.
#[verifier::spinoff_prover]
#[verifier::rlimit(80)]
pub proof fn lemma_moof_round_trip(v: MoofView)
    requires
        moof_wf(v),
    ensures
        spec_parse_moof(moof_bytes(v).skip(8)) == Ok::<MoofView, Error>(moof_norm(v)),
        moof_bytes(moof_norm(v)) == moof_bytes(v),
{
    let rest = trafs_bytes(v.1);
    assert(moof_bytes(v).skip(8) =~= mfhd_bytes(v.0) + rest);
    lemma_moof_walk_mfhd(v.0, rest, (None, Seq::empty()));
    lemma_moof_walk_trafs(v.1, (Some(v.0), Seq::empty()));
    assert(Seq::<TrafView>::empty() + v.1.map_values(|t: TrafView| traf_norm(t)) =~= v.1.map_values(
        |t: TrafView| traf_norm(t),
    ));
    lemma_trafs_norm_bytes(v.1);
    assert(moof_payload(moof_norm(v)) =~= moof_payload(v));
}

// ---------------------------------------------------------------------------
// tfdt
// ---------------------------------------------------------------------------

/// Track Fragment Base Media Decode Time Box (`tfdt`, §8.8.12): version 0
/// carries a 32-bit time, version 1 a 64-bit one.
#[derive(Debug, Clone, Copy, PartialEq, Eq, Structural)]
pub struct TrackFragmentBaseMediaDecodeTimeBox {
    version: u8,
    v0: u32,
    v1: u64,
}

/// `(version, decode time)` of a `tfdt`.
pub type TfdtView = (u8, u64);

impl View for TrackFragmentBaseMediaDecodeTimeBox {
    type V = TfdtView;

    closed spec fn view(&self) -> TfdtView {
        (self.version, self.v1)
    }
}

/// The `tfdt` box bytes: a 32-bit time for version 0, else a 64-bit one.
pub open spec fn tfdt_bytes(t: TfdtView) -> Seq<u8> {
    if t.0 == 0 {
        box_head(16, TFDT@) + seq![0u8, 0u8, 0u8, 0u8] + be32(t.1 as u32)
    } else {
        box_head(20, TFDT@) + seq![t.0, 0u8, 0u8, 0u8] + be64(t.1)
    }
}

/// Outcome of parsing a `tfdt` body.
#[verifier::opaque]
pub open spec fn spec_parse_tfdt(body: Seq<u8>) -> Result<TfdtView, Error> {
    match spec_ver_flags(body) {
        Err(e) => Err(e),
        Ok((ver, _f)) => if ver == 0 {
            if body.len() - 4 < 4 {
                Err(Error::BufferTooShort { need: 4, have: (body.len() - 4) as usize, what: "tfdt.v0" })
            } else {
                Ok((0u8, get32(body, 4) as u64))
            }
        } else if body.len() - 4 < 8 {
            Err(Error::BufferTooShort { need: 8, have: (body.len() - 4) as usize, what: "tfdt.v1" })
        } else {
            Ok((ver, get64(body, 4)))
        },
    }
}

impl TrackFragmentBaseMediaDecodeTimeBox {
    /// The 32-bit copy is the low half of the 64-bit time, which for version
    /// 0 fits in 32 bits.
    #[verifier::type_invariant]
    spec fn times_agree(self) -> bool {
        &&& self.v0 == self.v1 as u32
        &&& self.version == 0 ==> self.v1 == self.v0 as u64
    }

    /// A version-0 box with a 32-bit decode time.
    pub fn new_v0(t: u32) -> (r: Self)
        ensures
            r@ == (0u8, t as u64),
    {
        Self { version: 0, v0: t, v1: t as u64 }
    }

    /// A version-1 box with a 64-bit decode time.
    pub fn new_v1(t: u64) -> (r: Self)
        ensures
            r@ == (1u8, t),
    {
        Self { version: 1, v0: t as u32, v1: t }
    }

    /// `baseMediaDecodeTime`.
    pub fn base_media_decode_time(&self) -> (r: u64)
        ensures
            r == self@.1,
    {
        self.v1
    }

    /// The FullBox version.
    pub fn version(&self) -> (r: u8)
        ensures
            r == self@.0,
    {
        self.version
    }

    /// Parse a `tfdt` body (the bytes after the 8-byte box header).
    pub fn parse_body(body: &[u8]) -> (r: Result<Self, Error>)
        ensures
            match spec_parse_tfdt(body@) {
                Ok(v) => r matches Ok(x) && x@ == v,
                Err(e) => r == Err::<Self, Error>(e),
            },
    {
        reveal(spec_parse_tfdt);
        let (ver, _flags) = read_ver_flags(body)?;
        if ver == 0 {
            if body.len() - 4 < 4 {
                return Err(Error::BufferTooShort { need: 4, have: body.len() - 4, what: "tfdt.v0" });
            }
            let v = read32(body, 4);
            Ok(Self { version: 0, v0: v, v1: v as u64 })
        } else {
            if body.len() - 4 < 8 {
                return Err(Error::BufferTooShort { need: 8, have: body.len() - 4, what: "tfdt.v1" });
            }
            let v = read64(body, 4);
            Ok(Self { version: ver, v0: v as u32, v1: v })
        }
    }

    /// Encoded size: 16 for version 0, else 20.
    pub fn serialized_len(&self) -> (r: usize)
        ensures
            r == tfdt_bytes(self@).len(),
    {
        if self.version == 0 {
            16
        } else {
            20
        }
    }

    /// The encoded box.
    pub fn to_bytes(&self) -> (r: Vec<u8>)
        ensures
            r@ == tfdt_bytes(self@),
    {
        proof {
            use_type_invariant(self);
        }
        let mut out: Vec<u8> = Vec::new();
        if self.version == 0 {
            push_box_head(&mut out, 16, &TFDT);
            push32(&mut out, 0);
            push32(&mut out, self.v0);
            assert(be32(0) =~= seq![0u8, 0u8, 0u8, 0u8]) by {
                assert(((0u32 >> 24u32) as u8) == 0u8 && ((0u32 >> 16u32) as u8) == 0u8 && ((0u32
                    >> 8u32) as u8) == 0u8 && (0u32 as u8) == 0u8) by (bit_vector);
            }
        } else {
            push_box_head(&mut out, 20, &TFDT);
            out.push(self.version);
            out.push(0);
            out.push(0);
            out.push(0);
            push64(&mut out, self.v1);
        }
        assert(out@ =~= tfdt_bytes(self@));
        out
    }
}

/// Parsing the body of an encoded `tfdt` gives it back (a version-0 time
/// must fit in 32 bits).
pub proof fn lemma_tfdt_round_trip(t: TfdtView, rest: Seq<u8>)
    requires
        t.0 == 0 ==> t.1 <= u32::MAX,
    ensures
        spec_parse_tfdt(tfdt_bytes(t).skip(8) + rest) == Ok::<TfdtView, Error>(t),
{
    reveal(spec_parse_tfdt);
    let b = tfdt_bytes(t).skip(8) + rest;
    if t.0 == 0 {
        assert(b.subrange(4, 8) =~= be32(t.1 as u32));
        crate::bytes::lemma_be32_get32(t.1 as u32, b, 4);
    } else {
        assert(b.subrange(4, 12) =~= be64(t.1));
        crate::bytes::lemma_be64_get64(t.1, b, 4);
    }
}

} // verus!
