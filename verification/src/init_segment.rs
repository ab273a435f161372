//! The typed initialisation-segment (`moov`) box tree, ISO/IEC 14496-12:2015
//! §8.2 to §8.8. Container sizes are computed from their children; child
//! boxes this crate does not model are kept verbatim as [`OpaqueBox`] so a
//! parse and re-serialisation reproduces them byte for byte.
use vstd::prelude::*;
use crate::box_types::box_head;
use crate::bytes::{be16, be24, be32, be64, get16, get24, get32, get64, push16, push24, push32, push64, push_all, copy_range, read16, read24, read32, read64, sat, size_field, trunc32, write_prefix};
use crate::error::Error;

verus! {

// ---------------------------------------------------------------------------
// OpaqueBox
// ---------------------------------------------------------------------------

/// A box whose body this crate does not interpret, kept verbatim.
#[derive(Debug, Clone, PartialEq, Eq)]
pub struct OpaqueBox {
    /// The four-character box type.
    pub box_type: [u8; 4],
    /// The box body (everything after the 8-byte header).
    pub data: Vec<u8>,
}

impl View for OpaqueBox {
    type V = (Seq<u8>, Seq<u8>);

    open spec fn view(&self) -> (Seq<u8>, Seq<u8>) {
        (self.box_type@, self.data@)
    }
}

/// An opaque box as written: compact header, then the body.
pub open spec fn opaque_bytes(v: (Seq<u8>, Seq<u8>)) -> Seq<u8> {
    box_head(8 + v.1.len(), v.0) + v.1
}

impl OpaqueBox {
    /// An opaque box of the given type and body.
    pub fn new(box_type: [u8; 4], data: Vec<u8>) -> (r: Self)
        ensures
            r.box_type == box_type,
            r.data@ == data@,
    {
        OpaqueBox { box_type, data }
    }

    /// A copy of this box.
    pub fn clone_box(&self) -> (r: Self)
        ensures
            r@ == self@,
    {
        OpaqueBox { box_type: self.box_type, data: copy_range(self.data.as_slice(), 0, self.data.len()) }
    }

    /// Encoded size: the 8-byte header plus the body.
    pub fn serialized_len(&self) -> (r: usize)
        requires
            8 + self.data@.len() <= usize::MAX,
        ensures
            r == opaque_bytes(self@).len(),
    {
        8 + self.data.len()
    }

    /// Append the encoded box to `out`.
    pub fn write_to(&self, out: &mut Vec<u8>)
        ensures
            final(out)@ == old(out)@ + opaque_bytes(self@),
    {
        let n = self.data.len();
        push32(out, size_field(n, 8));
        push_all(out, &self.box_type);
        push_all(out, self.data.as_slice());
        assert(final(out)@ =~= old(out)@ + opaque_bytes(self@));
    }

    /// The encoded box.
    pub fn to_bytes(&self) -> (r: Vec<u8>)
        ensures
            r@ == opaque_bytes(self@),
    {
        let mut out: Vec<u8> = Vec::new();
        self.write_to(&mut out);
        assert(out@ =~= opaque_bytes(self@));
        out
    }

    /// Write the encoded box to the front of `buf`.
    pub fn serialize_into(&self, buf: &mut Vec<u8>) -> (r: Result<usize, Error>)
        ensures
            prefix_written(old(buf)@, final(buf)@, opaque_bytes(self@), r),
    {
        let b = self.to_bytes();
        write_prefix(buf, b.as_slice())
    }
}

/// `buf` went from `before` to `after` by writing `enc` at its front,
/// reporting `r`: the write fails, leaving the buffer alone, exactly when
/// `enc` does not fit.
pub open spec fn prefix_written(before: Seq<u8>, after: Seq<u8>, enc: Seq<u8>, r: Result<usize, Error>) -> bool {
    &&& before.len() < enc.len() ==> r == Err::<usize, Error>(
        Error::OutputBufferTooSmall { need: enc.len() as usize, have: before.len() as usize },
    ) && after == before
    &&& before.len() >= enc.len() ==> r == Ok::<usize, Error>(enc.len() as usize) && after == enc
        + before.subrange(enc.len() as int, before.len() as int)
}

// ---------------------------------------------------------------------------
// Shared layout pieces
// ---------------------------------------------------------------------------

/// `n` zero bytes (reserved and pre-defined fields).
pub open spec fn zeros(n: nat) -> Seq<u8> {
    Seq::new(n, |i: int| 0u8)
}

/// Append `n` zero bytes.
fn push_zeros(out: &mut Vec<u8>, n: usize)
    ensures
        final(out)@ == old(out)@ + zeros(n as nat),
{
    let mut i: usize = 0;
    while i < n
        invariant
            i <= n,
            out@ == old(out)@ + zeros(i as nat),
        decreases n - i,
    {
        out.push(0u8);
        i += 1;
        assert(out@ =~= old(out)@ + zeros(i as nat));
    }
}

/// A FullBox header: compact box header for `len` bytes, then version and
/// the low 24 bits of `flags`.
pub open spec fn full_head(len: nat, typ: Seq<u8>, version: u8, flags: u32) -> Seq<u8> {
    box_head(len, typ) + seq![version] + be24(flags)
}

/// Append a FullBox header.
fn push_full_head(out: &mut Vec<u8>, size: u32, typ: &[u8; 4], version: u8, flags: u32)
    ensures
        final(out)@ == old(out)@ + full_head(size as nat, typ@, version, flags),
{
    push32(out, size);
    push_all(out, typ);
    out.push(version);
    push24(out, flags);
    assert(final(out)@ =~= old(out)@ + full_head(size as nat, typ@, version, flags));
}

/// The nine big-endian 32-bit matrix entries.
pub open spec fn matrix_bytes(m: Seq<i32>) -> Seq<u8> {
    be32(m[0] as u32) + be32(m[1] as u32) + be32(m[2] as u32) + be32(m[3] as u32) + be32(m[4] as u32)
        + be32(m[5] as u32) + be32(m[6] as u32) + be32(m[7] as u32) + be32(m[8] as u32)
}

/// The nine signed matrix entries read from `b` at `k`.
pub open spec fn matrix_at(b: Seq<u8>, k: int) -> Seq<i32> {
    Seq::new(9, |i: int| get32(b, k + 4 * i) as i32)
}

/// Append the matrix.
fn push_matrix(out: &mut Vec<u8>, m: &[i32; 9])
    ensures
        final(out)@ == old(out)@ + matrix_bytes(m@),
{
    let ghost start = out@;
    push32(out, m[0] as u32);
    push32(out, m[1] as u32);
    push32(out, m[2] as u32);
    push32(out, m[3] as u32);
    push32(out, m[4] as u32);
    push32(out, m[5] as u32);
    push32(out, m[6] as u32);
    push32(out, m[7] as u32);
    push32(out, m[8] as u32);
    assert(out@ =~= start + matrix_bytes(m@));
}

/// Read the matrix at `k`.
fn read_matrix(b: &[u8], k: usize) -> (r: [i32; 9])
    requires
        k + 36 <= b@.len(),
    ensures
        r@ == matrix_at(b@, k as int),
{
    let n = b.len();
    assert(k + 36 <= n);
    let r: [i32; 9] = [
        read32(b, k) as i32,
        read32(b, k + 4) as i32,
        read32(b, k + 8) as i32,
        read32(b, k + 12) as i32,
        read32(b, k + 16) as i32,
        read32(b, k + 20) as i32,
        read32(b, k + 24) as i32,
        read32(b, k + 28) as i32,
        read32(b, k + 32) as i32,
    ];
    assert(r@ =~= matrix_at(b@, k as int));
    r
}

proof fn lemma_i32_u32(x: i32)
    ensures
        ((x as u32) as i32) == x,
{
    assert(((x as u32) as i32) == x) by (bit_vector);
}

/// The matrix reads back from where it was written.
proof fn lemma_matrix_read(m: Seq<i32>, b: Seq<u8>, k: int)
    requires
        m.len() == 9,
        0 <= k,
        k + 36 <= b.len(),
        b.subrange(k, k + 36) == matrix_bytes(m),
    ensures
        matrix_at(b, k) == m,
{
    let mb = matrix_bytes(m);
    assert forall|i: int| 0 <= i < 9 implies matrix_at(b, k)[i] == m[i] by {
        crate::bytes::lemma_subrange_of(b, k, k + 36, mb, 4 * i, 4 * i + 4);
        assert(mb.subrange(4 * i, 4 * i + 4) =~= be32(m[i] as u32));
        crate::bytes::lemma_be32_get32(m[i] as u32, b, k + 4 * i);
        lemma_i32_u32(m[i]);
    }
    assert(matrix_at(b, k) =~= m);
}

// ---------------------------------------------------------------------------
// mvhd
// ---------------------------------------------------------------------------

/// Box type `mvhd`.
pub const MVHD: [u8; 4] = [0x6D, 0x76, 0x68, 0x64];

/// Movie Header Box (`mvhd`, §8.2.2): 32-bit times in version 0, 64-bit
/// otherwise.
#[derive(Debug, Clone, PartialEq, Eq)]
pub struct MovieHeaderBox {
    pub version: u8,
    pub flags: u32,
    pub creation_time: u64,
    pub modification_time: u64,
    pub timescale: u32,
    pub duration: u64,
    pub rate: u32,
    pub volume: u16,
    pub matrix: [i32; 9],
    pub next_track_id: u32,
}

/// `(version, flags, creation, modification, timescale, duration, rate,
/// volume, matrix, next_track_id)`.
pub type MvhdView = (u8, u32, u64, u64, u32, u64, u32, u16, Seq<i32>, u32);

impl View for MovieHeaderBox {
    type V = MvhdView;

    open spec fn view(&self) -> MvhdView {
        (
            self.version,
            self.flags,
            self.creation_time,
            self.modification_time,
            self.timescale,
            self.duration,
            self.rate,
            self.volume,
            self.matrix@,
            self.next_track_id,
        )
    }
}

/// Declared size of an `mvhd` box: 108 bytes in version 0, 124 otherwise.
pub open spec fn mvhd_len(v: MvhdView) -> nat {
    if v.0 == 0 { 108 } else { 124 }
}

/// The `mvhd` bytes as written. The 64-bit layout is written four bytes
/// short of its declared size (the last four bytes of the declared 124 are
/// not produced).
#[verifier::opaque]
pub open spec fn mvhd_bytes(v: MvhdView) -> Seq<u8> {
    if v.0 == 0 {
        full_head(108, MVHD@, v.0, v.1) + be32(v.2 as u32) + be32(v.3 as u32) + be32(v.4) + be32(v.5 as u32) + be32(v.6)
            + be16(v.7) + zeros(10) + matrix_bytes(v.8) + zeros(24) + be32(v.9)
    } else {
        full_head(124, MVHD@, v.0, v.1) + be64(v.2) + be64(v.3) + be32(v.4) + be64(v.5) + be32(v.6)
            + be16(v.7) + zeros(10) + matrix_bytes(v.8) + zeros(24) + be32(v.9)
    }
}

/// Outcome of parsing an `mvhd` box (header included).
#[verifier::opaque]
pub open spec fn spec_parse_mvhd(b: Seq<u8>) -> Result<MvhdView, Error> {
    if b.len() < 12 {
        Err(Error::BufferTooShort { need: 12, have: b.len() as usize, what: "mvhd" })
    } else if b[8] == 0 {
        if b.len() < 108 {
            Err(Error::BufferTooShort { need: 108, have: b.len() as usize, what: "mvhd v0" })
        } else {
            Ok((0u8, get24(b, 9), get32(b, 12) as u64, get32(b, 16) as u64, get32(b, 20), get32(b, 24) as u64,
                get32(b, 28), get16(b, 32), matrix_at(b, 44), get32(b, 104)))
        }
    } else if b.len() < 124 {
        Err(Error::BufferTooShort { need: 124, have: b.len() as usize, what: "mvhd v1" })
    } else {
        Ok((1u8, get24(b, 9), get64(b, 12), get64(b, 20), get32(b, 28), get64(b, 32), get32(b, 40),
            get16(b, 44), matrix_at(b, 56), get32(b, 120)))
    }
}

impl MovieHeaderBox {
    /// Parse an `mvhd` box.
    pub fn parse(bytes: &[u8]) -> (r: Result<Self, Error>)
        ensures
            match spec_parse_mvhd(bytes@) {
                Ok(v) => r matches Ok(x) && x@ == v,
                Err(e) => r == Err::<Self, Error>(e),
            },
    {
        reveal(spec_parse_mvhd);
        if bytes.len() < 12 {
            return Err(Error::BufferTooShort { need: 12, have: bytes.len(), what: "mvhd" });
        }
        let flags = read24(bytes, 9);
        if bytes[8] == 0 {
            if bytes.len() < 108 {
                return Err(Error::BufferTooShort { need: 108, have: bytes.len(), what: "mvhd v0" });
            }
            Ok(MovieHeaderBox {
                version: 0,
                flags,
                creation_time: read32(bytes, 12) as u64,
                modification_time: read32(bytes, 16) as u64,
                timescale: read32(bytes, 20),
                duration: read32(bytes, 24) as u64,
                rate: read32(bytes, 28),
                volume: read16(bytes, 32),
                matrix: read_matrix(bytes, 44),
                next_track_id: read32(bytes, 104),
            })
        } else {
            if bytes.len() < 124 {
                return Err(Error::BufferTooShort { need: 124, have: bytes.len(), what: "mvhd v1" });
            }
            Ok(MovieHeaderBox {
                version: 1,
                flags,
                creation_time: read64(bytes, 12),
                modification_time: read64(bytes, 20),
                timescale: read32(bytes, 28),
                duration: read64(bytes, 32),
                rate: read32(bytes, 40),
                volume: read16(bytes, 44),
                matrix: read_matrix(bytes, 56),
                next_track_id: read32(bytes, 120),
            })
        }
    }

    /// Declared encoded size.
    pub fn serialized_len(&self) -> (r: usize)
        ensures
            r == mvhd_len(self@),
    {
        if self.version == 0 { 108 } else { 124 }
    }

    /// Append the encoded box to `out`.
    pub fn write_to(&self, out: &mut Vec<u8>)
        ensures
            final(out)@ == old(out)@ + mvhd_bytes(self@),
    {
        let ghost start = out@;
        reveal(mvhd_bytes);
        if self.version == 0 {
            push_full_head(out, 108, &MVHD, self.version, self.flags);
            push32(out, self.creation_time as u32);
            push32(out, self.modification_time as u32);
            push32(out, self.timescale);
            push32(out, self.duration as u32);
        } else {
            push_full_head(out, 124, &MVHD, self.version, self.flags);
            push64(out, self.creation_time);
            push64(out, self.modification_time);
            push32(out, self.timescale);
            push64(out, self.duration);
        }
        push32(out, self.rate);
        push16(out, self.volume);
        push_zeros(out, 10);
        push_matrix(out, &self.matrix);
        push_zeros(out, 24);
        push32(out, self.next_track_id);
        assert(out@ =~= start + mvhd_bytes(self@));
    }

    /// The encoded box.
    pub fn to_bytes(&self) -> (r: Vec<u8>)
        ensures
            r@ == mvhd_bytes(self@),
    {
        let mut out: Vec<u8> = Vec::new();
        self.write_to(&mut out);
        assert(out@ =~= mvhd_bytes(self@));
        out
    }

    /// Write the encoded box to the front of `buf`.
    pub fn serialize_into(&self, buf: &mut Vec<u8>) -> (r: Result<usize, Error>)
        ensures
            prefix_written(old(buf)@, final(buf)@, mvhd_bytes(self@), r),
    {
        let b = self.to_bytes();
        write_prefix(buf, b.as_slice())
    }
}

/// A version-0 `mvhd` whose flags fit 24 bits and whose times fit 32 bits
/// reads back as written.
#[verifier::spinoff_prover]
#[verifier::rlimit(80)]
pub proof fn lemma_mvhd_round_trip(v: MvhdView)
    requires
        v.0 == 0,
        v.1 < 0x100_0000,
        v.2 <= u32::MAX,
        v.3 <= u32::MAX,
        v.5 <= u32::MAX,
        v.8.len() == 9,
    ensures
        spec_parse_mvhd(mvhd_bytes(v)) == Ok::<MvhdView, Error>(v),
{
    reveal(mvhd_bytes);
    reveal(spec_parse_mvhd);
    let b = mvhd_bytes(v);
    assert(b.len() == 108);
    assert(b[8] == 0);
    assert(b.subrange(9, 12) =~= be24(v.1));
    crate::bytes::lemma_be24_get24(v.1, b, 9);
    assert(b.subrange(12, 16) =~= be32(v.2 as u32));
    crate::bytes::lemma_be32_get32(v.2 as u32, b, 12);
    assert(b.subrange(16, 20) =~= be32(v.3 as u32));
    crate::bytes::lemma_be32_get32(v.3 as u32, b, 16);
    assert(b.subrange(20, 24) =~= be32(v.4));
    crate::bytes::lemma_be32_get32(v.4, b, 20);
    assert(b.subrange(24, 28) =~= be32(v.5 as u32));
    crate::bytes::lemma_be32_get32(v.5 as u32, b, 24);
    assert(b.subrange(28, 32) =~= be32(v.6));
    crate::bytes::lemma_be32_get32(v.6, b, 28);
    assert(b.subrange(32, 34) =~= be16(v.7));
    crate::bytes::lemma_be16_get16(v.7, b, 32);
    assert(b.subrange(44, 80) =~= matrix_bytes(v.8));
    lemma_matrix_read(v.8, b, 44);
    assert(b.subrange(104, 108) =~= be32(v.9));
    crate::bytes::lemma_be32_get32(v.9, b, 104);
}

// ---------------------------------------------------------------------------
// tkhd
// ---------------------------------------------------------------------------

/// Box type `tkhd`.
pub const TKHD: [u8; 4] = [0x74, 0x6B, 0x68, 0x64];

/// Track Header Box (`tkhd`, §8.2.3): 32-bit times in version 0, 64-bit
/// otherwise.
#[derive(Debug, Clone, PartialEq, Eq)]
pub struct TrackHeaderBox {
    pub version: u8,
    pub flags: u32,
    pub creation_time: u64,
    pub modification_time: u64,
    pub track_id: u32,
    pub duration: u64,
    pub layer: i16,
    pub alternate_group: i16,
    pub volume: i16,
    pub matrix: [i32; 9],
    pub width: u32,
    pub height: u32,
}

/// `(version, flags, creation, modification, track_id, duration, layer,
/// alternate_group, volume, matrix, width, height)`.
pub type TkhdView = (u8, u32, u64, u64, u32, u64, i16, i16, i16, Seq<i32>, u32, u32);

impl View for TrackHeaderBox {
    type V = TkhdView;

    open spec fn view(&self) -> TkhdView {
        (
            self.version,
            self.flags,
            self.creation_time,
            self.modification_time,
            self.track_id,
            self.duration,
            self.layer,
            self.alternate_group,
            self.volume,
            self.matrix@,
            self.width,
            self.height,
        )
    }
}

/// Encoded size of a `tkhd` box: 92 bytes in version 0, 104 otherwise.
pub open spec fn tkhd_len(v: TkhdView) -> nat {
    if v.0 == 0 { 92 } else { 104 }
}

/// The `tkhd` bytes as written.
#[verifier::opaque]
pub open spec fn tkhd_bytes(v: TkhdView) -> Seq<u8> {
    if v.0 == 0 {
        full_head(92, TKHD@, v.0, v.1) + be32(v.2 as u32) + be32(v.3 as u32) + be32(v.4) + zeros(4) + be32(v.5 as u32)
            + zeros(8) + be16(v.6 as u16) + be16(v.7 as u16) + be16(v.8 as u16) + zeros(2) + matrix_bytes(v.9)
            + be32(v.10) + be32(v.11)
    } else {
        full_head(104, TKHD@, v.0, v.1) + be64(v.2) + be64(v.3) + be32(v.4) + zeros(4) + be64(v.5) + zeros(8)
            + be16(v.6 as u16) + be16(v.7 as u16) + be16(v.8 as u16) + zeros(2) + matrix_bytes(v.9) + be32(v.10)
            + be32(v.11)
    }
}

/// Outcome of parsing a `tkhd` box (header included). The 64-bit layout is
/// read with `duration`, `layer`, `alternate_group`, `volume` and `matrix`
/// at the offsets the reader uses, four bytes after where they are written.
#[verifier::opaque]
pub open spec fn spec_parse_tkhd(b: Seq<u8>) -> Result<TkhdView, Error> {
    if b.len() < 12 {
        Err(Error::BufferTooShort { need: 12, have: b.len() as usize, what: "tkhd" })
    } else if b[8] == 0 {
        if b.len() < 92 {
            Err(Error::BufferTooShort { need: 92, have: b.len() as usize, what: "tkhd v0" })
        } else {
            Ok((0u8, get24(b, 9), get32(b, 12) as u64, get32(b, 16) as u64, get32(b, 20), get32(b, 28) as u64,
                get16(b, 40) as i16, get16(b, 42) as i16, get16(b, 44) as i16, matrix_at(b, 48), get32(b, 84),
                get32(b, 88)))
        }
    } else if b.len() < 104 {
        Err(Error::BufferTooShort { need: 104, have: b.len() as usize, what: "tkhd v1" })
    } else {
        Ok((1u8, get24(b, 9), get64(b, 12), get64(b, 20), get32(b, 28), get64(b, 40), get16(b, 48) as i16,
            get16(b, 50) as i16, get16(b, 52) as i16, matrix_at(b, 56), get32(b, 96), get32(b, 100)))
    }
}

impl TrackHeaderBox {
    /// Parse a `tkhd` box.
    pub fn parse(bytes: &[u8]) -> (r: Result<Self, Error>)
        ensures
            match spec_parse_tkhd(bytes@) {
                Ok(v) => r matches Ok(x) && x@ == v,
                Err(e) => r == Err::<Self, Error>(e),
            },
    {
        reveal(spec_parse_tkhd);
        if bytes.len() < 12 {
            return Err(Error::BufferTooShort { need: 12, have: bytes.len(), what: "tkhd" });
        }
        let flags = read24(bytes, 9);
        if bytes[8] == 0 {
            if bytes.len() < 92 {
                return Err(Error::BufferTooShort { need: 92, have: bytes.len(), what: "tkhd v0" });
            }
            Ok(TrackHeaderBox {
                version: 0,
                flags,
                creation_time: read32(bytes, 12) as u64,
                modification_time: read32(bytes, 16) as u64,
                track_id: read32(bytes, 20),
                duration: read32(bytes, 28) as u64,
                layer: read16(bytes, 40) as i16,
                alternate_group: read16(bytes, 42) as i16,
                volume: read16(bytes, 44) as i16,
                matrix: read_matrix(bytes, 48),
                width: read32(bytes, 84),
                height: read32(bytes, 88),
            })
        } else {
            if bytes.len() < 104 {
                return Err(Error::BufferTooShort { need: 104, have: bytes.len(), what: "tkhd v1" });
            }
            Ok(TrackHeaderBox {
                version: 1,
                flags,
                creation_time: read64(bytes, 12),
                modification_time: read64(bytes, 20),
                track_id: read32(bytes, 28),
                duration: read64(bytes, 40),
                layer: read16(bytes, 48) as i16,
                alternate_group: read16(bytes, 50) as i16,
                volume: read16(bytes, 52) as i16,
                matrix: read_matrix(bytes, 56),
                width: read32(bytes, 96),
                height: read32(bytes, 100),
            })
        }
    }

    /// Encoded size.
    pub fn serialized_len(&self) -> (r: usize)
        ensures
            r == tkhd_len(self@),
    {
        if self.version == 0 { 92 } else { 104 }
    }

    /// Append the encoded box to `out`.
    pub fn write_to(&self, out: &mut Vec<u8>)
        ensures
            final(out)@ == old(out)@ + tkhd_bytes(self@),
    {
        let ghost start = out@;
        reveal(tkhd_bytes);
        if self.version == 0 {
            push_full_head(out, 92, &TKHD, self.version, self.flags);
            push32(out, self.creation_time as u32);
            push32(out, self.modification_time as u32);
            push32(out, self.track_id);
            push_zeros(out, 4);
            push32(out, self.duration as u32);
        } else {
            push_full_head(out, 104, &TKHD, self.version, self.flags);
            push64(out, self.creation_time);
            push64(out, self.modification_time);
            push32(out, self.track_id);
            push_zeros(out, 4);
            push64(out, self.duration);
        }
        push_zeros(out, 8);
        push16(out, self.layer as u16);
        push16(out, self.alternate_group as u16);
        push16(out, self.volume as u16);
        push_zeros(out, 2);
        push_matrix(out, &self.matrix);
        push32(out, self.width);
        push32(out, self.height);
        assert(out@ =~= start + tkhd_bytes(self@));
    }

    /// The encoded box.
    pub fn to_bytes(&self) -> (r: Vec<u8>)
        ensures
            r@ == tkhd_bytes(self@),
    {
        let mut out: Vec<u8> = Vec::new();
        self.write_to(&mut out);
        assert(out@ =~= tkhd_bytes(self@));
        out
    }

    /// Write the encoded box to the front of `buf`.
    pub fn serialize_into(&self, buf: &mut Vec<u8>) -> (r: Result<usize, Error>)
        ensures
            prefix_written(old(buf)@, final(buf)@, tkhd_bytes(self@), r),
    {
        let b = self.to_bytes();
        write_prefix(buf, b.as_slice())
    }
}

proof fn lemma_i16_u16(x: i16)
    ensures
        ((x as u16) as i16) == x,
{
    assert(((x as u16) as i16) == x) by (bit_vector);
}

/// A version-0 `tkhd` whose flags fit 24 bits and whose times fit 32 bits
/// reads back as written.
#[verifier::spinoff_prover]
#[verifier::rlimit(80)]
pub proof fn lemma_tkhd_round_trip(v: TkhdView)
    requires
        v.0 == 0,
        v.1 < 0x100_0000,
        v.2 <= u32::MAX,
        v.3 <= u32::MAX,
        v.5 <= u32::MAX,
        v.9.len() == 9,
    ensures
        spec_parse_tkhd(tkhd_bytes(v)) == Ok::<TkhdView, Error>(v),
{
    reveal(tkhd_bytes);
    reveal(spec_parse_tkhd);
    let b = tkhd_bytes(v);
    assert(b.len() == 92);
    assert(b[8] == 0);
    assert(b.subrange(9, 12) =~= be24(v.1));
    crate::bytes::lemma_be24_get24(v.1, b, 9);
    assert(b.subrange(12, 16) =~= be32(v.2 as u32));
    crate::bytes::lemma_be32_get32(v.2 as u32, b, 12);
    assert(b.subrange(16, 20) =~= be32(v.3 as u32));
    crate::bytes::lemma_be32_get32(v.3 as u32, b, 16);
    assert(b.subrange(20, 24) =~= be32(v.4));
    crate::bytes::lemma_be32_get32(v.4, b, 20);
    assert(b.subrange(28, 32) =~= be32(v.5 as u32));
    crate::bytes::lemma_be32_get32(v.5 as u32, b, 28);
    assert(b.subrange(40, 42) =~= be16(v.6 as u16));
    crate::bytes::lemma_be16_get16(v.6 as u16, b, 40);
    lemma_i16_u16(v.6);
    assert(b.subrange(42, 44) =~= be16(v.7 as u16));
    crate::bytes::lemma_be16_get16(v.7 as u16, b, 42);
    lemma_i16_u16(v.7);
    assert(b.subrange(44, 46) =~= be16(v.8 as u16));
    crate::bytes::lemma_be16_get16(v.8 as u16, b, 44);
    lemma_i16_u16(v.8);
    assert(b.subrange(48, 84) =~= matrix_bytes(v.9));
    lemma_matrix_read(v.9, b, 48);
    assert(b.subrange(84, 88) =~= be32(v.10));
    crate::bytes::lemma_be32_get32(v.10, b, 84);
    assert(b.subrange(88, 92) =~= be32(v.11));
    crate::bytes::lemma_be32_get32(v.11, b, 88);
}

// ---------------------------------------------------------------------------
// mdhd
// ---------------------------------------------------------------------------

/// Box type `mdhd`.
pub const MDHD: [u8; 4] = [0x6D, 0x64, 0x68, 0x64];

/// Media Header Box (`mdhd`, §8.4.2).
#[derive(Debug, Clone, PartialEq, Eq, Structural)]
pub struct MediaHeaderBox {
    pub version: u8,
    pub flags: u32,
    pub creation_time: u64,
    pub modification_time: u64,
    pub timescale: u32,
    pub duration: u64,
    pub language: u16,
}

/// Encoded size of an `mdhd` box: 32 bytes in version 0, 44 otherwise.
pub open spec fn mdhd_len(v: MediaHeaderBox) -> nat {
    if v.version == 0 { 32 } else { 44 }
}

/// The `mdhd` bytes as written.
#[verifier::opaque]
pub open spec fn mdhd_bytes(v: MediaHeaderBox) -> Seq<u8> {
    if v.version == 0 {
        full_head(32, MDHD@, v.version, v.flags) + be32(v.creation_time as u32) + be32(v.modification_time as u32)
            + be32(v.timescale) + be32(v.duration as u32) + be16(v.language) + zeros(2)
    } else {
        full_head(44, MDHD@, v.version, v.flags) + be64(v.creation_time) + be64(v.modification_time) + be32(
            v.timescale,
        ) + be64(v.duration) + be16(v.language) + zeros(2)
    }
}

/// Outcome of parsing an `mdhd` box (header included).
#[verifier::opaque]
pub open spec fn spec_parse_mdhd(b: Seq<u8>) -> Result<MediaHeaderBox, Error> {
    if b.len() < 12 {
        Err(Error::BufferTooShort { need: 12, have: b.len() as usize, what: "mdhd" })
    } else if b[8] == 0 {
        if b.len() < 32 {
            Err(Error::BufferTooShort { need: 32, have: b.len() as usize, what: "mdhd v0" })
        } else {
            Ok(MediaHeaderBox {
                version: 0,
                flags: get24(b, 9),
                creation_time: get32(b, 12) as u64,
                modification_time: get32(b, 16) as u64,
                timescale: get32(b, 20),
                duration: get32(b, 24) as u64,
                language: get16(b, 28),
            })
        }
    } else if b.len() < 44 {
        Err(Error::BufferTooShort { need: 44, have: b.len() as usize, what: "mdhd v1" })
    } else {
        Ok(MediaHeaderBox {
            version: 1,
            flags: get24(b, 9),
            creation_time: get64(b, 12),
            modification_time: get64(b, 20),
            timescale: get32(b, 28),
            duration: get64(b, 32),
            language: get16(b, 40),
        })
    }
}

impl MediaHeaderBox {
    /// Parse an `mdhd` box.
    pub fn parse(bytes: &[u8]) -> (r: Result<Self, Error>)
        ensures
            r == spec_parse_mdhd(bytes@),
    {
        reveal(spec_parse_mdhd);
        if bytes.len() < 12 {
            return Err(Error::BufferTooShort { need: 12, have: bytes.len(), what: "mdhd" });
        }
        let flags = read24(bytes, 9);
        if bytes[8] == 0 {
            if bytes.len() < 32 {
                return Err(Error::BufferTooShort { need: 32, have: bytes.len(), what: "mdhd v0" });
            }
            Ok(MediaHeaderBox {
                version: 0,
                flags,
                creation_time: read32(bytes, 12) as u64,
                modification_time: read32(bytes, 16) as u64,
                timescale: read32(bytes, 20),
                duration: read32(bytes, 24) as u64,
                language: read16(bytes, 28),
            })
        } else {
            if bytes.len() < 44 {
                return Err(Error::BufferTooShort { need: 44, have: bytes.len(), what: "mdhd v1" });
            }
            Ok(MediaHeaderBox {
                version: 1,
                flags,
                creation_time: read64(bytes, 12),
                modification_time: read64(bytes, 20),
                timescale: read32(bytes, 28),
                duration: read64(bytes, 32),
                language: read16(bytes, 40),
            })
        }
    }

    /// Encoded size.
    pub fn serialized_len(&self) -> (r: usize)
        ensures
            r == mdhd_len(*self),
    {
        if self.version == 0 { 32 } else { 44 }
    }

    /// Append the encoded box to `out`.
    pub fn write_to(&self, out: &mut Vec<u8>)
        ensures
            final(out)@ == old(out)@ + mdhd_bytes(*self),
    {
        let ghost start = out@;
        reveal(mdhd_bytes);
        if self.version == 0 {
            push_full_head(out, 32, &MDHD, self.version, self.flags);
            push32(out, self.creation_time as u32);
            push32(out, self.modification_time as u32);
            push32(out, self.timescale);
            push32(out, self.duration as u32);
        } else {
            push_full_head(out, 44, &MDHD, self.version, self.flags);
            push64(out, self.creation_time);
            push64(out, self.modification_time);
            push32(out, self.timescale);
            push64(out, self.duration);
        }
        push16(out, self.language);
        push_zeros(out, 2);
        assert(out@ =~= start + mdhd_bytes(*self));
    }

    /// The encoded box.
    pub fn to_bytes(&self) -> (r: Vec<u8>)
        ensures
            r@ == mdhd_bytes(*self),
    {
        let mut out: Vec<u8> = Vec::new();
        self.write_to(&mut out);
        assert(out@ =~= mdhd_bytes(*self));
        out
    }

    /// Write the encoded box to the front of `buf`.
    pub fn serialize_into(&self, buf: &mut Vec<u8>) -> (r: Result<usize, Error>)
        ensures
            prefix_written(old(buf)@, final(buf)@, mdhd_bytes(*self), r),
    {
        let b = self.to_bytes();
        write_prefix(buf, b.as_slice())
    }
}

/// An `mdhd` of version 0 or 1 whose flags fit 24 bits (and, in version 0,
/// whose times fit 32 bits) reads back as written.
#[verifier::spinoff_prover]
#[verifier::rlimit(80)]
pub proof fn lemma_mdhd_round_trip(v: MediaHeaderBox)
    requires
        v.version <= 1,
        v.flags < 0x100_0000,
        v.version == 0 ==> v.creation_time <= u32::MAX && v.modification_time <= u32::MAX && v.duration <= u32::MAX,
    ensures
        spec_parse_mdhd(mdhd_bytes(v)) == Ok::<MediaHeaderBox, Error>(v),
{
    reveal(mdhd_bytes);
    reveal(spec_parse_mdhd);
    let b = mdhd_bytes(v);
    assert(b[8] == v.version);
    assert(b.subrange(9, 12) =~= be24(v.flags));
    crate::bytes::lemma_be24_get24(v.flags, b, 9);
    if v.version == 0 {
        assert(b.subrange(12, 16) =~= be32(v.creation_time as u32));
        crate::bytes::lemma_be32_get32(v.creation_time as u32, b, 12);
        assert(b.subrange(16, 20) =~= be32(v.modification_time as u32));
        crate::bytes::lemma_be32_get32(v.modification_time as u32, b, 16);
        assert(b.subrange(20, 24) =~= be32(v.timescale));
        crate::bytes::lemma_be32_get32(v.timescale, b, 20);
        assert(b.subrange(24, 28) =~= be32(v.duration as u32));
        crate::bytes::lemma_be32_get32(v.duration as u32, b, 24);
        assert(b.subrange(28, 30) =~= be16(v.language));
        crate::bytes::lemma_be16_get16(v.language, b, 28);
    } else {
        assert(b.subrange(12, 20) =~= be64(v.creation_time));
        crate::bytes::lemma_be64_get64(v.creation_time, b, 12);
        assert(b.subrange(20, 28) =~= be64(v.modification_time));
        crate::bytes::lemma_be64_get64(v.modification_time, b, 20);
        assert(b.subrange(28, 32) =~= be32(v.timescale));
        crate::bytes::lemma_be32_get32(v.timescale, b, 28);
        assert(b.subrange(32, 40) =~= be64(v.duration));
        crate::bytes::lemma_be64_get64(v.duration, b, 32);
        assert(b.subrange(40, 42) =~= be16(v.language));
        crate::bytes::lemma_be16_get16(v.language, b, 40);
    }
}

// ---------------------------------------------------------------------------
// hdlr
// ---------------------------------------------------------------------------

/// Box type `hdlr`.
pub const HDLR: [u8; 4] = [0x68, 0x64, 0x6C, 0x72];

/// Handler Box (`hdlr`, §8.4.3): the media handler type and its name.
#[derive(Debug, Clone, PartialEq, Eq)]
pub struct HandlerBox {
    pub version: u8,
    pub flags: u32,
    pub handler_type: [u8; 4],
    pub name: Vec<u8>,
}

/// `(version, flags, handler_type, name)`.
pub type HdlrView = (u8, u32, Seq<u8>, Seq<u8>);

impl View for HandlerBox {
    type V = HdlrView;

    open spec fn view(&self) -> HdlrView {
        (self.version, self.flags, self.handler_type@, self.name@)
    }
}

/// The `hdlr` bytes as written.
pub open spec fn hdlr_bytes(v: HdlrView) -> Seq<u8> {
    full_head(32 + v.3.len(), HDLR@, v.0, v.1) + zeros(4) + v.2 + zeros(12) + v.3
}

/// Outcome of parsing an `hdlr` box (header included).
pub open spec fn spec_parse_hdlr(b: Seq<u8>) -> Result<HdlrView, Error> {
    if b.len() < 24 {
        Err(Error::BufferTooShort { need: 24, have: b.len() as usize, what: "hdlr" })
    } else {
        Ok((b[8], get24(b, 9), b.subrange(16, 20), if b.len() > 32 { b.skip(32) } else { Seq::empty() }))
    }
}

impl HandlerBox {
    /// Parse an `hdlr` box.
    pub fn parse(bytes: &[u8]) -> (r: Result<Self, Error>)
        ensures
            match spec_parse_hdlr(bytes@) {
                Ok(v) => r matches Ok(x) && x@ == v,
                Err(e) => r == Err::<Self, Error>(e),
            },
    {
        if bytes.len() < 24 {
            return Err(Error::BufferTooShort { need: 24, have: bytes.len(), what: "hdlr" });
        }
        let handler_type: [u8; 4] = [bytes[16], bytes[17], bytes[18], bytes[19]];
        assert(handler_type@ =~= bytes@.subrange(16, 20));
        let name = if bytes.len() > 32 {
            copy_range(bytes, 32, bytes.len())
        } else {
            Vec::new()
        };
        proof {
            if bytes@.len() > 32 {
                assert(bytes@.subrange(32, bytes@.len() as int) =~= bytes@.skip(32));
            } else {
                assert(name@ =~= Seq::<u8>::empty());
            }
        }
        Ok(HandlerBox { version: bytes[8], flags: read24(bytes, 9), handler_type, name })
    }

    /// Encoded size.
    pub fn serialized_len(&self) -> (r: usize)
        requires
            32 + self.name@.len() <= usize::MAX,
        ensures
            r == hdlr_bytes(self@).len(),
    {
        32 + self.name.len()
    }

    /// Append the encoded box to `out`.
    pub fn write_to(&self, out: &mut Vec<u8>)
        ensures
            final(out)@ == old(out)@ + hdlr_bytes(self@),
    {
        let ghost start = out@;
        push_full_head(out, size_field(self.name.len(), 32), &HDLR, self.version, self.flags);
        push_zeros(out, 4);
        push_all(out, &self.handler_type);
        push_zeros(out, 12);
        push_all(out, self.name.as_slice());
        assert(out@ =~= start + hdlr_bytes(self@));
    }

    /// The encoded box.
    pub fn to_bytes(&self) -> (r: Vec<u8>)
        ensures
            r@ == hdlr_bytes(self@),
    {
        let mut out: Vec<u8> = Vec::new();
        self.write_to(&mut out);
        assert(out@ =~= hdlr_bytes(self@));
        out
    }

    /// Write the encoded box to the front of `buf`.
    pub fn serialize_into(&self, buf: &mut Vec<u8>) -> (r: Result<usize, Error>)
        ensures
            prefix_written(old(buf)@, final(buf)@, hdlr_bytes(self@), r),
    {
        let b = self.to_bytes();
        write_prefix(buf, b.as_slice())
    }
}

/// An `hdlr` whose flags fit 24 bits reads back as written.
pub proof fn lemma_hdlr_round_trip(v: HdlrView)
    requires
        v.1 < 0x100_0000,
        v.2.len() == 4,
    ensures
        spec_parse_hdlr(hdlr_bytes(v)) == Ok::<HdlrView, Error>(v),
{
    let b = hdlr_bytes(v);
    assert(b.subrange(9, 12) =~= be24(v.1));
    crate::bytes::lemma_be24_get24(v.1, b, 9);
    assert(b[8] == v.0);
    assert(b.subrange(16, 20) =~= v.2);
    if v.3.len() > 0 {
        assert(b.skip(32) =~= v.3);
    } else {
        assert(v.3 =~= Seq::<u8>::empty());
    }
}

// ---------------------------------------------------------------------------
// vmhd, smhd
// ---------------------------------------------------------------------------

/// Box type `vmhd`.
pub const VMHD: [u8; 4] = [0x76, 0x6D, 0x68, 0x64];

/// Video Media Header Box (`vmhd`, §12.1.2).
#[derive(Debug, Clone, PartialEq, Eq)]
pub struct VideoMediaHeaderBox {
    pub version: u8,
    pub flags: u32,
    pub graphicsmode: u16,
    pub opcolor: [u16; 3],
}

/// `(version, flags, graphicsmode, opcolor)`.
pub type VmhdView = (u8, u32, u16, Seq<u16>);

impl View for VideoMediaHeaderBox {
    type V = VmhdView;

    open spec fn view(&self) -> VmhdView {
        (self.version, self.flags, self.graphicsmode, self.opcolor@)
    }
}

/// The `vmhd` bytes as written.
#[verifier::opaque]
pub open spec fn vmhd_bytes(v: VmhdView) -> Seq<u8> {
    full_head(20, VMHD@, v.0, v.1) + be16(v.2) + be16(v.3[0]) + be16(v.3[1]) + be16(v.3[2])
}

/// Outcome of parsing a `vmhd` box (header included).
pub open spec fn spec_parse_vmhd(b: Seq<u8>) -> Result<VmhdView, Error> {
    if b.len() < 20 {
        Err(Error::BufferTooShort { need: 20, have: b.len() as usize, what: "vmhd" })
    } else {
        Ok((b[8], get24(b, 9), get16(b, 12), seq![get16(b, 14), get16(b, 16), get16(b, 18)]))
    }
}

impl VideoMediaHeaderBox {
    /// Parse a `vmhd` box.
    pub fn parse(bytes: &[u8]) -> (r: Result<Self, Error>)
        ensures
            match spec_parse_vmhd(bytes@) {
                Ok(v) => r matches Ok(x) && x@ == v,
                Err(e) => r == Err::<Self, Error>(e),
            },
    {
        if bytes.len() < 20 {
            return Err(Error::BufferTooShort { need: 20, have: bytes.len(), what: "vmhd" });
        }
        let opcolor: [u16; 3] = [read16(bytes, 14), read16(bytes, 16), read16(bytes, 18)];
        assert(opcolor@ =~= seq![get16(bytes@, 14), get16(bytes@, 16), get16(bytes@, 18)]);
        Ok(VideoMediaHeaderBox { version: bytes[8], flags: read24(bytes, 9), graphicsmode: read16(bytes, 12), opcolor })
    }

    /// Encoded size (20 bytes).
    pub fn serialized_len(&self) -> (r: usize)
        ensures
            r == vmhd_bytes(self@).len(),
    {
        reveal(vmhd_bytes);
        20
    }

    /// Append the encoded box to `out`.
    pub fn write_to(&self, out: &mut Vec<u8>)
        ensures
            final(out)@ == old(out)@ + vmhd_bytes(self@),
    {
        let ghost start = out@;
        reveal(vmhd_bytes);
        push_full_head(out, 20, &VMHD, self.version, self.flags);
        push16(out, self.graphicsmode);
        push16(out, self.opcolor[0]);
        push16(out, self.opcolor[1]);
        push16(out, self.opcolor[2]);
        assert(out@ =~= start + vmhd_bytes(self@));
    }

    /// The encoded box.
    pub fn to_bytes(&self) -> (r: Vec<u8>)
        ensures
            r@ == vmhd_bytes(self@),
    {
        let mut out: Vec<u8> = Vec::new();
        self.write_to(&mut out);
        assert(out@ =~= vmhd_bytes(self@));
        out
    }

    /// Write the encoded box to the front of `buf`.
    pub fn serialize_into(&self, buf: &mut Vec<u8>) -> (r: Result<usize, Error>)
        ensures
            prefix_written(old(buf)@, final(buf)@, vmhd_bytes(self@), r),
    {
        let b = self.to_bytes();
        write_prefix(buf, b.as_slice())
    }
}

/// A `vmhd` whose flags fit 24 bits reads back as written.
#[verifier::spinoff_prover]
pub proof fn lemma_vmhd_round_trip(v: VmhdView)
    requires
        v.1 < 0x100_0000,
        v.3.len() == 3,
    ensures
        spec_parse_vmhd(vmhd_bytes(v)) == Ok::<VmhdView, Error>(v),
{
    reveal(vmhd_bytes);
    let b = vmhd_bytes(v);
    assert(b.len() == 20);
    assert(b[8] == v.0);
    assert(b.subrange(9, 12) =~= be24(v.1));
    crate::bytes::lemma_be24_get24(v.1, b, 9);
    assert(b.subrange(12, 14) =~= be16(v.2));
    crate::bytes::lemma_be16_get16(v.2, b, 12);
    assert(b.subrange(14, 16) =~= be16(v.3[0]));
    crate::bytes::lemma_be16_get16(v.3[0], b, 14);
    assert(b.subrange(16, 18) =~= be16(v.3[1]));
    crate::bytes::lemma_be16_get16(v.3[1], b, 16);
    assert(b.subrange(18, 20) =~= be16(v.3[2]));
    crate::bytes::lemma_be16_get16(v.3[2], b, 18);
    assert(seq![get16(b, 14), get16(b, 16), get16(b, 18)] =~= v.3);
}

/// Box type `smhd`.
pub const SMHD: [u8; 4] = [0x73, 0x6D, 0x68, 0x64];

/// Sound Media Header Box (`smhd`, §12.2.2).
#[derive(Debug, Clone, Copy, PartialEq, Eq, Structural)]
pub struct SoundMediaHeaderBox {
    pub version: u8,
    pub flags: u32,
    pub balance: i16,
}

/// The `smhd` bytes as written.
pub open spec fn smhd_bytes(v: SoundMediaHeaderBox) -> Seq<u8> {
    full_head(16, SMHD@, v.version, v.flags) + be16(v.balance as u16) + zeros(2)
}

/// Outcome of parsing an `smhd` box (header included).
pub open spec fn spec_parse_smhd(b: Seq<u8>) -> Result<SoundMediaHeaderBox, Error> {
    if b.len() < 16 {
        Err(Error::BufferTooShort { need: 16, have: b.len() as usize, what: "smhd" })
    } else {
        Ok(SoundMediaHeaderBox { version: b[8], flags: get24(b, 9), balance: get16(b, 12) as i16 })
    }
}

impl SoundMediaHeaderBox {
    /// Parse an `smhd` box.
    pub fn parse(bytes: &[u8]) -> (r: Result<Self, Error>)
        ensures
            r == spec_parse_smhd(bytes@),
    {
        if bytes.len() < 16 {
            return Err(Error::BufferTooShort { need: 16, have: bytes.len(), what: "smhd" });
        }
        Ok(SoundMediaHeaderBox { version: bytes[8], flags: read24(bytes, 9), balance: read16(bytes, 12) as i16 })
    }

    /// Encoded size (16 bytes).
    pub fn serialized_len(&self) -> (r: usize)
        ensures
            r == smhd_bytes(*self).len(),
    {
        16
    }

    /// Append the encoded box to `out`.
    pub fn write_to(&self, out: &mut Vec<u8>)
        ensures
            final(out)@ == old(out)@ + smhd_bytes(*self),
    {
        let ghost start = out@;
        push_full_head(out, 16, &SMHD, self.version, self.flags);
        push16(out, self.balance as u16);
        push_zeros(out, 2);
        assert(out@ =~= start + smhd_bytes(*self));
    }

    /// The encoded box.
    pub fn to_bytes(&self) -> (r: Vec<u8>)
        ensures
            r@ == smhd_bytes(*self),
    {
        let mut out: Vec<u8> = Vec::new();
        self.write_to(&mut out);
        assert(out@ =~= smhd_bytes(*self));
        out
    }

    /// Write the encoded box to the front of `buf`.
    pub fn serialize_into(&self, buf: &mut Vec<u8>) -> (r: Result<usize, Error>)
        ensures
            prefix_written(old(buf)@, final(buf)@, smhd_bytes(*self), r),
    {
        let b = self.to_bytes();
        write_prefix(buf, b.as_slice())
    }
}

/// An `smhd` whose flags fit 24 bits reads back as written.
#[verifier::spinoff_prover]
pub proof fn lemma_smhd_round_trip(v: SoundMediaHeaderBox)
    requires
        v.flags < 0x100_0000,
    ensures
        spec_parse_smhd(smhd_bytes(v)) == Ok::<SoundMediaHeaderBox, Error>(v),
{
    let b = smhd_bytes(v);
    assert(b.len() == 16);
    assert(b[8] == v.version);
    assert(b.subrange(9, 12) =~= be24(v.flags));
    crate::bytes::lemma_be24_get24(v.flags, b, 9);
    assert(b.subrange(12, 14) =~= be16(v.balance as u16));
    crate::bytes::lemma_be16_get16(v.balance as u16, b, 12);
    lemma_i16_u16(v.balance);
}

// ---------------------------------------------------------------------------
// url, dref
// ---------------------------------------------------------------------------

/// Box type `url `.
pub const URL_: [u8; 4] = [0x75, 0x72, 0x6C, 0x20];

/// Data Entry URL Box (`url `, §8.7.2); flag bit 0 set means the media is
/// in this file.
#[derive(Debug, Clone, PartialEq, Eq)]
pub struct DataEntryUrlBox {
    pub version: u8,
    pub flags: u32,
    pub location: Vec<u8>,
}

/// `(version, flags, location)`.
pub type UrlView = (u8, u32, Seq<u8>);

impl View for DataEntryUrlBox {
    type V = UrlView;

    open spec fn view(&self) -> UrlView {
        (self.version, self.flags, self.location@)
    }
}

/// The `url ` bytes as written.
pub open spec fn url_box_bytes(v: UrlView) -> Seq<u8> {
    full_head(12 + v.2.len(), URL_@, v.0, v.1) + v.2
}

/// Outcome of parsing a `url ` box (header included).
pub open spec fn spec_parse_url(b: Seq<u8>) -> Result<UrlView, Error> {
    if b.len() < 12 {
        Err(Error::BufferTooShort { need: 12, have: b.len() as usize, what: "url" })
    } else {
        Ok((b[8], get24(b, 9), if b.len() > 12 { b.skip(12) } else { Seq::empty() }))
    }
}

impl DataEntryUrlBox {
    /// Parse a `url ` box.
    pub fn parse(bytes: &[u8]) -> (r: Result<Self, Error>)
        ensures
            match spec_parse_url(bytes@) {
                Ok(v) => r matches Ok(x) && x@ == v,
                Err(e) => r == Err::<Self, Error>(e),
            },
    {
        if bytes.len() < 12 {
            return Err(Error::BufferTooShort { need: 12, have: bytes.len(), what: "url" });
        }
        let location = if bytes.len() > 12 {
            copy_range(bytes, 12, bytes.len())
        } else {
            Vec::new()
        };
        proof {
            if bytes@.len() > 12 {
                assert(bytes@.subrange(12, bytes@.len() as int) =~= bytes@.skip(12));
            } else {
                assert(location@ =~= Seq::<u8>::empty());
            }
        }
        Ok(DataEntryUrlBox { version: bytes[8], flags: read24(bytes, 9), location })
    }

    /// Encoded size.
    pub fn serialized_len(&self) -> (r: usize)
        requires
            12 + self.location@.len() <= usize::MAX,
        ensures
            r == url_box_bytes(self@).len(),
    {
        12 + self.location.len()
    }

    /// Append the encoded box to `out`.
    pub fn write_to(&self, out: &mut Vec<u8>)
        ensures
            final(out)@ == old(out)@ + url_box_bytes(self@),
    {
        let ghost start = out@;
        push_full_head(out, size_field(self.location.len(), 12), &URL_, self.version, self.flags);
        push_all(out, self.location.as_slice());
        assert(out@ =~= start + url_box_bytes(self@));
    }

    /// The encoded box.
    pub fn to_bytes(&self) -> (r: Vec<u8>)
        ensures
            r@ == url_box_bytes(self@),
    {
        let mut out: Vec<u8> = Vec::new();
        self.write_to(&mut out);
        assert(out@ =~= url_box_bytes(self@));
        out
    }

    /// Write the encoded box to the front of `buf`.
    pub fn serialize_into(&self, buf: &mut Vec<u8>) -> (r: Result<usize, Error>)
        ensures
            prefix_written(old(buf)@, final(buf)@, url_box_bytes(self@), r),
    {
        let b = self.to_bytes();
        write_prefix(buf, b.as_slice())
    }
}

/// A `url ` box whose flags fit 24 bits reads back as written.
pub proof fn lemma_url_round_trip(v: UrlView)
    requires
        v.1 < 0x100_0000,
    ensures
        spec_parse_url(url_box_bytes(v)) == Ok::<UrlView, Error>(v),
{
    let b = url_box_bytes(v);
    assert(b[8] == v.0);
    assert(b.subrange(9, 12) =~= be24(v.1));
    crate::bytes::lemma_be24_get24(v.1, b, 9);
    if v.2.len() > 0 {
        assert(b.skip(12) =~= v.2);
    } else {
        assert(v.2 =~= Seq::<u8>::empty());
    }
}

/// Box type `dref`.
pub const DREF: [u8; 4] = [0x64, 0x72, 0x65, 0x66];

/// Data Reference Box (`dref`, §8.7.2): a counted list of `url ` entries.
#[derive(Debug, Clone, PartialEq, Eq)]
pub struct DataReferenceBox {
    pub version: u8,
    pub flags: u32,
    pub entries: Vec<DataEntryUrlBox>,
}

/// `(version, flags, entries)`.
pub type DrefView = (u8, u32, Seq<UrlView>);

impl View for DataReferenceBox {
    type V = DrefView;

    open spec fn view(&self) -> DrefView {
        (self.version, self.flags, self.entries@.map_values(|e: DataEntryUrlBox| e@))
    }
}

/// The entries, each encoded, in order.
pub open spec fn urls_bytes(s: Seq<UrlView>) -> Seq<u8>
    decreases s.len(),
{
    if s.len() == 0 {
        Seq::empty()
    } else {
        urls_bytes(s.drop_last()) + url_box_bytes(s.last())
    }
}

/// The `dref` bytes as written.
pub open spec fn dref_bytes(v: DrefView) -> Seq<u8> {
    full_head(16 + urls_bytes(v.2).len(), DREF@, v.0, v.1) + be32(v.2.len() as u32) + urls_bytes(v.2)
}

/// Walking the counted entries of a `dref` from `off`, entry `k` of
/// `count`: stops at the count, at fewer than 8 bytes left or at a size
/// below 8; an entry's bytes run to its size, clamped to the input.
pub open spec fn dref_walk(b: Seq<u8>, off: nat, k: nat, count: nat, acc: Seq<UrlView>) -> Result<Seq<UrlView>, Error>
    decreases count - k,
{
    if k >= count || off + 8 > b.len() {
        Ok(acc)
    } else {
        let sz = get32(b, off as int) as nat;
        if sz < 8 {
            Ok(acc)
        } else {
            let end = if off + sz <= b.len() { off + sz } else { b.len() };
            match spec_parse_url(b.subrange(off as int, end as int)) {
                Err(e) => Err(e),
                Ok(u) => dref_walk(b, off + sz, k + 1, count, acc.push(u)),
            }
        }
    }
}

/// Outcome of parsing a `dref` box (header included).
pub open spec fn spec_parse_dref(b: Seq<u8>) -> Result<DrefView, Error> {
    if b.len() < 16 {
        Err(Error::BufferTooShort { need: 16, have: b.len() as usize, what: "dref" })
    } else {
        match dref_walk(b, 16, 0, get32(b, 12) as nat, Seq::empty()) {
            Err(e) => Err(e),
            Ok(es) => Ok((b[8], get24(b, 9), es)),
        }
    }
}

impl DataReferenceBox {
    /// Parse a `dref` box.
    pub fn parse(bytes: &[u8]) -> (r: Result<Self, Error>)
        ensures
            match spec_parse_dref(bytes@) {
                Ok(v) => r matches Ok(x) && x@ == v,
                Err(e) => r == Err::<Self, Error>(e),
            },
    {
        if bytes.len() < 16 {
            return Err(Error::BufferTooShort { need: 16, have: bytes.len(), what: "dref" });
        }
        let count = read32(bytes, 12);
        let n = bytes.len();
        let mut entries: Vec<DataEntryUrlBox> = Vec::new();
        let mut off: usize = 16;
        let mut k: u32 = 0;
        assert(entries@.map_values(|e: DataEntryUrlBox| e@) =~= Seq::<UrlView>::empty());
        while k < count
            invariant_except_break
                k <= count,
                16 <= off <= n,
                n == bytes@.len(),
                count == get32(bytes@, 12),
                dref_walk(bytes@, 16, 0, count as nat, Seq::empty()) == dref_walk(
                    bytes@,
                    off as nat,
                    k as nat,
                    count as nat,
                    entries@.map_values(|e: DataEntryUrlBox| e@),
                ),
            ensures
                dref_walk(bytes@, 16, 0, count as nat, Seq::empty()) == Ok::<Seq<UrlView>, Error>(
                    entries@.map_values(|e: DataEntryUrlBox| e@),
                ),
            decreases count - k,
        {
            if n - off < 8 {
                break;
            }
            let sz = read32(bytes, off) as usize;
            if sz < 8 {
                break;
            }
            let last = sz > n - off;
            let end = if last { n } else { off + sz };
            let ghost acc = entries@.map_values(|e: DataEntryUrlBox| e@);
            let e = DataEntryUrlBox::parse(&bytes[off..end]);
            let e = match e {
                Ok(e) => e,
                Err(err) => {
                    return Err(err);
                },
            };
            entries.push(e);
            assert(entries@.map_values(|e: DataEntryUrlBox| e@) =~= acc.push(e@));
            if last {
                assert(dref_walk(bytes@, (off + sz) as nat, (k + 1) as nat, count as nat, acc.push(e@))
                    == Ok::<Seq<UrlView>, Error>(acc.push(e@)));
                break;
            }
            off = off + sz;
            k = k + 1;
        }
        Ok(DataReferenceBox { version: bytes[8], flags: read24(bytes, 9), entries })
    }

    /// Append the encoded box to `out`.
    pub fn write_to(&self, out: &mut Vec<u8>)
        ensures
            final(out)@ == old(out)@ + dref_bytes(self@),
    {
        let ghost s = self@.2;
        let mut body: Vec<u8> = Vec::new();
        let mut i: usize = 0;
        while i < self.entries.len()
            invariant
                i <= self.entries@.len(),
                s == self.entries@.map_values(|e: DataEntryUrlBox| e@),
                body@ == urls_bytes(s.take(i as int)),
            decreases self.entries@.len() - i,
        {
            self.entries[i].write_to(&mut body);
            assert(s.take(i + 1int).drop_last() =~= s.take(i as int));
            i += 1;
        }
        assert(s.take(i as int) =~= s);
        let ghost start = out@;
        push_full_head(out, size_field(body.len(), 16), &DREF, self.version, self.flags);
        push32(out, self.entries.len() as u32);
        push_all(out, body.as_slice());
        assert(out@ =~= start + dref_bytes(self@));
    }

    /// The encoded box.
    pub fn to_bytes(&self) -> (r: Vec<u8>)
        ensures
            r@ == dref_bytes(self@),
    {
        let mut out: Vec<u8> = Vec::new();
        self.write_to(&mut out);
        assert(out@ =~= dref_bytes(self@));
        out
    }

    /// Encoded size: the header, the count and every entry.
    pub fn serialized_len(&self) -> (r: usize)
        ensures
            r == dref_bytes(self@).len(),
    {
        self.to_bytes().len()
    }

    /// Write the encoded box to the front of `buf`.
    pub fn serialize_into(&self, buf: &mut Vec<u8>) -> (r: Result<usize, Error>)
        ensures
            prefix_written(old(buf)@, final(buf)@, dref_bytes(self@), r),
    {
        let b = self.to_bytes();
        write_prefix(buf, b.as_slice())
    }
}

/// The first entry's bytes lead the encoded entries.
proof fn lemma_urls_cons(t: Seq<UrlView>)
    requires
        t.len() > 0,
    ensures
        urls_bytes(t) == url_box_bytes(t[0]) + urls_bytes(t.skip(1)),
    decreases t.len(),
{
    if t.len() == 1 {
        assert(t.drop_last() =~= Seq::<UrlView>::empty());
        assert(t.skip(1) =~= Seq::<UrlView>::empty());
        assert(urls_bytes(t) =~= url_box_bytes(t[0]) + urls_bytes(t.skip(1)));
    } else {
        let d = t.drop_last();
        lemma_urls_cons(d);
        assert(t.skip(1).drop_last() =~= d.skip(1));
        assert(t.skip(1).last() == t.last());
        assert(urls_bytes(t) =~= url_box_bytes(t[0]) + urls_bytes(t.skip(1)));
    }
}

/// A `url ` entry that writes and reads back faithfully.
pub open spec fn url_wf(u: UrlView) -> bool {
    u.1 < 0x100_0000 && 12 + u.2.len() <= u32::MAX
}

proof fn lemma_dref_walk_ok(b: Seq<u8>, off: nat, k: nat, count: nat, acc: Seq<UrlView>, t: Seq<UrlView>)
    requires
        count == k + t.len(),
        off + urls_bytes(t).len() == b.len(),
        b.skip(off as int) == urls_bytes(t),
        forall|i: int| 0 <= i < t.len() ==> #[trigger] url_wf(t[i]),
    ensures
        dref_walk(b, off, k, count, acc) == Ok::<Seq<UrlView>, Error>(acc + t),
    decreases t.len(),
{
    if t.len() == 0 {
        assert(acc + t =~= acc);
    } else {
        lemma_urls_cons(t);
        let u = t[0];
        assert(url_wf(u));
        let l0 = 12 + u.2.len();
        let ub = url_box_bytes(u);
        assert(ub.len() == l0);
        assert(b.subrange(off as int, off + 4int) =~= be32(l0 as u32));
        crate::bytes::lemma_be32_get32(l0 as u32, b, off as int);
        assert(b.subrange(off as int, (off + l0) as int) =~= ub);
        lemma_url_round_trip(u);
        let rest = t.skip(1);
        assert forall|i: int| 0 <= i < urls_bytes(rest).len() implies b.skip((off + l0) as int)[i] == urls_bytes(rest)[i] by {
            assert(b.skip(off as int)[l0 + i] == b[off + l0 + i]);
            assert((ub + urls_bytes(rest))[l0 + i] == urls_bytes(rest)[i]);
        }
        assert(b.skip((off + l0) as int) =~= urls_bytes(rest));
        assert forall|i: int| 0 <= i < rest.len() implies #[trigger] url_wf(rest[i]) by {
            assert(url_wf(t[i + 1]));
        }
        lemma_dref_walk_ok(b, off + l0, k + 1, count, acc.push(u), rest);
        assert(acc.push(u) + rest =~= acc + t);
    }
}

/// A `dref` whose flags fit 24 bits, whose entries each write and read back
/// faithfully and whose count fits 32 bits reads back as written.
pub proof fn lemma_dref_round_trip(v: DrefView)
    requires
        v.1 < 0x100_0000,
        v.2.len() <= u32::MAX,
        forall|i: int| 0 <= i < v.2.len() ==> #[trigger] url_wf(v.2[i]),
    ensures
        spec_parse_dref(dref_bytes(v)) == Ok::<DrefView, Error>(v),
{
    let b = dref_bytes(v);
    assert(b[8] == v.0);
    assert(b.subrange(9, 12) =~= be24(v.1));
    crate::bytes::lemma_be24_get24(v.1, b, 9);
    assert(b.subrange(12, 16) =~= be32(v.2.len() as u32));
    crate::bytes::lemma_be32_get32(v.2.len() as u32, b, 12);
    assert(b.skip(16) =~= urls_bytes(v.2));
    lemma_dref_walk_ok(b, 16, 0, v.2.len(), Seq::empty(), v.2);
    assert(Seq::<UrlView>::empty() + v.2 =~= v.2);
}

// ---------------------------------------------------------------------------
// Fixed-width tables: stsc, stsz, stco
// ---------------------------------------------------------------------------

/// 32-bit words, big-endian, in order.
pub open spec fn words_bytes(s: Seq<u32>) -> Seq<u8>
    decreases s.len(),
{
    if s.len() == 0 {
        Seq::empty()
    } else {
        words_bytes(s.drop_last()) + be32(s.last())
    }
}

/// The `i`-th word sits at `4 * i`.
proof fn lemma_words_at(s: Seq<u32>, i: int)
    requires
        0 <= i < s.len(),
    ensures
        words_bytes(s).len() == 4 * s.len(),
        words_bytes(s).subrange(4 * i, 4 * i + 4) == be32(s[i]),
    decreases s.len(),
{
    lemma_words_len(s);
    let d = s.drop_last();
    lemma_words_len(d);
    if i < s.len() - 1 {
        lemma_words_at(d, i);
        assert(words_bytes(s).subrange(4 * i, 4 * i + 4) =~= words_bytes(d).subrange(4 * i, 4 * i + 4));
    } else {
        assert(words_bytes(s).subrange(4 * i, 4 * i + 4) =~= be32(s[i]));
    }
}

proof fn lemma_words_len(s: Seq<u32>)
    ensures
        words_bytes(s).len() == 4 * s.len(),
    decreases s.len(),
{
    if s.len() > 0 {
        lemma_words_len(s.drop_last());
    }
}

/// Append the words.
fn push_words(out: &mut Vec<u8>, w: &Vec<u32>)
    ensures
        final(out)@ == old(out)@ + words_bytes(w@),
{
    let ghost start = out@;
    let mut i: usize = 0;
    while i < w.len()
        invariant
            i <= w@.len(),
            out@ == start + words_bytes(w@.take(i as int)),
        decreases w@.len() - i,
    {
        push32(out, w[i]);
        assert(w@.take(i + 1int).drop_last() =~= w@.take(i as int));
        i += 1;
        assert(out@ =~= start + words_bytes(w@.take(i as int)));
    }
    assert(w@.take(i as int) =~= w@);
}

/// Up to `count` words read from `b` at `off`, stopping where fewer than
/// four bytes are left.
pub open spec fn words_at(b: Seq<u8>, off: nat, count: nat) -> Seq<u32> {
    let avail: nat = if b.len() >= off { ((b.len() - off) / 4) as nat } else { 0 };
    let n: nat = if count <= avail { count } else { avail };
    Seq::new(n, |i: int| get32(b, off + 4 * i))
}

/// Read up to `count` words at `off`.
fn read_words(b: &[u8], off: usize, count: u32) -> (r: Vec<u32>)
    requires
        off <= b@.len(),
    ensures
        r@ == words_at(b@, off as nat, count as nat),
{
    let n = b.len();
    let mut out: Vec<u32> = Vec::new();
    let mut c = off;
    let mut k: u32 = 0;
    while k < count
        invariant_except_break
            k <= count,
            off <= c <= n,
            n == b@.len(),
            c == off + 4 * k,
            out@ == Seq::new(k as nat, |i: int| get32(b@, off + 4 * i)),
        ensures
            out@ == words_at(b@, off as nat, count as nat),
        decreases count - k,
    {
        if n - c < 4 {
            break;
        }
        out.push(read32(b, c));
        c += 4;
        k += 1;
        assert(out@ =~= Seq::new(k as nat, |i: int| get32(b@, off + 4 * i)));
    }
    out
}

/// Words written at `off` read back.
proof fn lemma_words_read(b: Seq<u8>, off: nat, s: Seq<u32>)
    requires
        off + 4 * s.len() == b.len(),
        b.skip(off as int) == words_bytes(s),
    ensures
        words_at(b, off, s.len()) == s,
{
    lemma_words_len(s);
    assert forall|i: int| 0 <= i < s.len() implies words_at(b, off, s.len())[i] == s[i] by {
        lemma_words_at(s, i);
        crate::bytes::lemma_subrange_of(b, off as int, b.len() as int, words_bytes(s), 4 * i, 4 * i + 4);
        assert(b.subrange(off as int, b.len() as int) =~= b.skip(off as int));
        crate::bytes::lemma_be32_get32(s[i], b, off + 4 * i);
    }
    assert(words_at(b, off, s.len()) =~= s);
}

/// Box type `stco`.
pub const STCO: [u8; 4] = [0x73, 0x74, 0x63, 0x6F];

/// Chunk Offset Box (`stco`, §8.7.5): 32-bit chunk offsets.
#[derive(Debug, Clone, PartialEq, Eq)]
pub struct ChunkOffsetBox {
    pub version: u8,
    pub flags: u32,
    pub entries: Vec<u32>,
}

/// `(version, flags, offsets)`.
pub type StcoView = (u8, u32, Seq<u32>);

impl View for ChunkOffsetBox {
    type V = StcoView;

    open spec fn view(&self) -> StcoView {
        (self.version, self.flags, self.entries@)
    }
}

/// The `stco` bytes as written.
pub open spec fn stco_bytes(v: StcoView) -> Seq<u8> {
    full_head(16 + 4 * v.2.len(), STCO@, v.0, v.1) + be32(v.2.len() as u32) + words_bytes(v.2)
}

/// Outcome of parsing an `stco` box (header included).
pub open spec fn spec_parse_stco(b: Seq<u8>) -> Result<StcoView, Error> {
    if b.len() < 16 {
        Err(Error::BufferTooShort { need: 16, have: b.len() as usize, what: "stco" })
    } else {
        Ok((b[8], get24(b, 9), words_at(b, 16, get32(b, 12) as nat)))
    }
}

impl ChunkOffsetBox {
    /// Parse an `stco` box.
    pub fn parse(bytes: &[u8]) -> (r: Result<Self, Error>)
        ensures
            match spec_parse_stco(bytes@) {
                Ok(v) => r matches Ok(x) && x@ == v,
                Err(e) => r == Err::<Self, Error>(e),
            },
    {
        if bytes.len() < 16 {
            return Err(Error::BufferTooShort { need: 16, have: bytes.len(), what: "stco" });
        }
        let entries = read_words(bytes, 16, read32(bytes, 12));
        Ok(ChunkOffsetBox { version: bytes[8], flags: read24(bytes, 9), entries })
    }

    /// Encoded size.
    pub fn serialized_len(&self) -> (r: usize)
        requires
            16 + 4 * self.entries@.len() <= usize::MAX,
        ensures
            r == stco_bytes(self@).len(),
    {
        proof {
            lemma_words_len(self.entries@);
        }
        16 + 4 * self.entries.len()
    }

    /// Append the encoded box to `out`.
    pub fn write_to(&self, out: &mut Vec<u8>)
        ensures
            final(out)@ == old(out)@ + stco_bytes(self@),
    {
        let ghost start = out@;
        let mut body: Vec<u8> = Vec::new();
        push32(&mut body, self.entries.len() as u32);
        push_words(&mut body, &self.entries);
        proof {
            lemma_words_len(self.entries@);
        }
        push_full_head(out, size_field(body.len(), 12), &STCO, self.version, self.flags);
        push_all(out, body.as_slice());
        assert(out@ =~= start + stco_bytes(self@));
    }

    /// The encoded box.
    pub fn to_bytes(&self) -> (r: Vec<u8>)
        ensures
            r@ == stco_bytes(self@),
    {
        let mut out: Vec<u8> = Vec::new();
        self.write_to(&mut out);
        assert(out@ =~= stco_bytes(self@));
        out
    }

    /// Write the encoded box to the front of `buf`.
    pub fn serialize_into(&self, buf: &mut Vec<u8>) -> (r: Result<usize, Error>)
        ensures
            prefix_written(old(buf)@, final(buf)@, stco_bytes(self@), r),
    {
        let b = self.to_bytes();
        write_prefix(buf, b.as_slice())
    }
}

/// An `stco` whose flags fit 24 bits and whose count fits 32 bits reads
/// back as written.
pub proof fn lemma_stco_round_trip(v: StcoView)
    requires
        v.1 < 0x100_0000,
        v.2.len() <= u32::MAX,
    ensures
        spec_parse_stco(stco_bytes(v)) == Ok::<StcoView, Error>(v),
{
    let b = stco_bytes(v);
    lemma_words_len(v.2);
    assert(b[8] == v.0);
    assert(b.subrange(9, 12) =~= be24(v.1));
    crate::bytes::lemma_be24_get24(v.1, b, 9);
    assert(b.subrange(12, 16) =~= be32(v.2.len() as u32));
    crate::bytes::lemma_be32_get32(v.2.len() as u32, b, 12);
    assert(b.skip(16) =~= words_bytes(v.2));
    lemma_words_read(b, 16, v.2);
}

/// Box type `stsz`.
pub const STSZ: [u8; 4] = [0x73, 0x74, 0x73, 0x7A];

/// Sample Size Box (`stsz`, §8.7.3): a uniform `sample_size`, or (when it
/// is 0) one size per sample.
#[derive(Debug, Clone, PartialEq, Eq)]
pub struct SampleSizeBox {
    pub version: u8,
    pub flags: u32,
    pub sample_size: u32,
    pub entries: Vec<u32>,
}

/// `(version, flags, sample_size, sizes)`.
pub type StszView = (u8, u32, u32, Seq<u32>);

impl View for SampleSizeBox {
    type V = StszView;

    open spec fn view(&self) -> StszView {
        (self.version, self.flags, self.sample_size, self.entries@)
    }
}

/// The sample count an `stsz` declares: the entries when the uniform size
/// is 0, none otherwise.
pub open spec fn stsz_count(v: StszView) -> nat {
    if v.2 == 0 { v.3.len() } else { 0 }
}

/// The declared `stsz` size (what [`SampleSizeBox::serialized_len`]
/// reports and the header carries).
pub open spec fn stsz_len(v: StszView) -> nat {
    20 + 4 * stsz_count(v)
}

/// The `stsz` bytes as written: every entry is written, whatever the
/// uniform size (so with a non-zero uniform size and entries present, more
/// is written than the header declares).
pub open spec fn stsz_bytes(v: StszView) -> Seq<u8> {
    full_head(stsz_len(v), STSZ@, v.0, v.1) + be32(v.2) + be32(stsz_count(v) as u32) + words_bytes(v.3)
}

/// Outcome of parsing an `stsz` box (header included).
pub open spec fn spec_parse_stsz(b: Seq<u8>) -> Result<StszView, Error> {
    if b.len() < 20 {
        Err(Error::BufferTooShort { need: 20, have: b.len() as usize, what: "stsz" })
    } else {
        Ok((b[8], get24(b, 9), get32(b, 12), if get32(b, 12) == 0 { words_at(b, 20, get32(b, 16) as nat) } else { Seq::empty() }))
    }
}

impl SampleSizeBox {
    /// Parse an `stsz` box.
    pub fn parse(bytes: &[u8]) -> (r: Result<Self, Error>)
        ensures
            match spec_parse_stsz(bytes@) {
                Ok(v) => r matches Ok(x) && x@ == v,
                Err(e) => r == Err::<Self, Error>(e),
            },
    {
        if bytes.len() < 20 {
            return Err(Error::BufferTooShort { need: 20, have: bytes.len(), what: "stsz" });
        }
        let sample_size = read32(bytes, 12);
        let entries = if sample_size == 0 {
            read_words(bytes, 20, read32(bytes, 16))
        } else {
            Vec::new()
        };
        proof {
            if sample_size != 0 {
                assert(entries@ =~= Seq::<u32>::empty());
            }
        }
        Ok(SampleSizeBox { version: bytes[8], flags: read24(bytes, 9), sample_size, entries })
    }

    /// Declared encoded size.
    pub fn serialized_len(&self) -> (r: usize)
        requires
            stsz_len(self@) <= usize::MAX,
        ensures
            r == stsz_len(self@),
    {
        if self.sample_size == 0 {
            20 + 4 * self.entries.len()
        } else {
            20
        }
    }

    /// Append the encoded box to `out`.
    pub fn write_to(&self, out: &mut Vec<u8>)
        ensures
            final(out)@ == old(out)@ + stsz_bytes(self@),
    {
        let ghost start = out@;
        let count: usize = if self.sample_size == 0 {
            self.entries.len()
        } else {
            0
        };
        push_full_head(out, trunc32(20 + 4 * (count as u128)), &STSZ, self.version, self.flags);
        push32(out, self.sample_size);
        push32(out, count as u32);
        push_words(out, &self.entries);
        assert(out@ =~= start + stsz_bytes(self@));
    }
}

impl SampleSizeBox {
    /// The encoded box.
    pub fn to_bytes(&self) -> (r: Vec<u8>)
        ensures
            r@ == stsz_bytes(self@),
    {
        let mut out: Vec<u8> = Vec::new();
        self.write_to(&mut out);
        assert(out@ =~= stsz_bytes(self@));
        out
    }

    /// Write the encoded box to the front of `buf`: refused when `buf` is
    /// shorter than the declared size, otherwise every byte of the encoding
    /// is written and their count returned.
    pub fn serialize_into(&self, buf: &mut Vec<u8>) -> (r: Result<usize, Error>)
        requires
            stsz_len(self@) <= usize::MAX,
            old(buf)@.len() < stsz_len(self@) || old(buf)@.len() >= stsz_bytes(self@).len(),
        ensures
            old(buf)@.len() < stsz_len(self@) ==> r == Err::<usize, Error>(
                Error::OutputBufferTooSmall { need: stsz_len(self@) as usize, have: old(buf)@.len() as usize },
            ) && final(buf)@ == old(buf)@,
            old(buf)@.len() >= stsz_len(self@) ==> prefix_written(old(buf)@, final(buf)@, stsz_bytes(self@), r),
    {
        let need = self.serialized_len();
        if buf.len() < need {
            return Err(Error::OutputBufferTooSmall { need, have: buf.len() });
        }
        let b = self.to_bytes();
        write_prefix(buf, b.as_slice())
    }
}

/// An `stsz` whose flags fit 24 bits, with per-sample sizes (uniform size 0)
/// or a uniform size and no entries, and a count that fits 32 bits, reads
/// back as written.
pub proof fn lemma_stsz_round_trip(v: StszView)
    requires
        v.1 < 0x100_0000,
        v.2 == 0 || v.3.len() == 0,
        v.3.len() <= u32::MAX,
    ensures
        spec_parse_stsz(stsz_bytes(v)) == Ok::<StszView, Error>(v),
{
    let b = stsz_bytes(v);
    lemma_words_len(v.3);
    assert(b[8] == v.0);
    assert(b.subrange(9, 12) =~= be24(v.1));
    crate::bytes::lemma_be24_get24(v.1, b, 9);
    assert(b.subrange(12, 16) =~= be32(v.2));
    crate::bytes::lemma_be32_get32(v.2, b, 12);
    assert(b.subrange(16, 20) =~= be32(stsz_count(v) as u32));
    crate::bytes::lemma_be32_get32(stsz_count(v) as u32, b, 16);
    if v.2 == 0 {
        assert(b.skip(20) =~= words_bytes(v.3));
        lemma_words_read(b, 20, v.3);
    } else {
        assert(v.3 =~= Seq::<u32>::empty());
    }
}

/// Box type `stsc`.
pub const STSC: [u8; 4] = [0x73, 0x74, 0x73, 0x63];

/// One run of the sample-to-chunk table (§8.7.4).
#[derive(Debug, Clone, Copy, PartialEq, Eq, Structural)]
pub struct StscEntry {
    pub first_chunk: u32,
    pub samples_per_chunk: u32,
    pub sample_description_index: u32,
}

/// Sample To Chunk Box (`stsc`, §8.7.4).
#[derive(Debug, Clone, PartialEq, Eq)]
pub struct SampleToChunkBox {
    pub version: u8,
    pub flags: u32,
    pub entries: Vec<StscEntry>,
}

/// `(version, flags, entries)`.
pub type StscView = (u8, u32, Seq<StscEntry>);

impl View for SampleToChunkBox {
    type V = StscView;

    open spec fn view(&self) -> StscView {
        (self.version, self.flags, self.entries@)
    }
}

/// The table entries as the flat word list they are written as.
pub open spec fn stsc_words(s: Seq<StscEntry>) -> Seq<u32> {
    Seq::new(3 * s.len(), |i: int| {
        let e = s[i / 3];
        if i % 3 == 0 {
            e.first_chunk
        } else if i % 3 == 1 {
            e.samples_per_chunk
        } else {
            e.sample_description_index
        }
    })
}

/// The table entries read back from a flat word list.
pub open spec fn stsc_from_words(w: Seq<u32>) -> Seq<StscEntry> {
    Seq::new(w.len() / 3, |i: int| StscEntry { first_chunk: w[3 * i], samples_per_chunk: w[3 * i + 1], sample_description_index: w[3 * i + 2] })
}

/// The `stsc` bytes as written.
pub open spec fn stsc_bytes(v: StscView) -> Seq<u8> {
    full_head(16 + 12 * v.2.len(), STSC@, v.0, v.1) + be32(v.2.len() as u32) + words_bytes(stsc_words(v.2))
}

/// Up to `count` entries read at 16, stopping where fewer than 12 bytes are
/// left.
pub open spec fn stsc_at(b: Seq<u8>, count: nat) -> Seq<StscEntry> {
    let avail: nat = if b.len() >= 16 { ((b.len() - 16) / 12) as nat } else { 0 };
    let n: nat = if count <= avail { count } else { avail };
    Seq::new(n, |i: int| StscEntry { first_chunk: get32(b, 16 + 12 * i), samples_per_chunk: get32(b, 20 + 12 * i), sample_description_index: get32(b, 24 + 12 * i) })
}

/// Outcome of parsing an `stsc` box (header included).
pub open spec fn spec_parse_stsc(b: Seq<u8>) -> Result<StscView, Error> {
    if b.len() < 16 {
        Err(Error::BufferTooShort { need: 16, have: b.len() as usize, what: "stsc" })
    } else {
        Ok((b[8], get24(b, 9), stsc_at(b, get32(b, 12) as nat)))
    }
}

impl SampleToChunkBox {
    /// Parse an `stsc` box.
    pub fn parse(bytes: &[u8]) -> (r: Result<Self, Error>)
        ensures
            match spec_parse_stsc(bytes@) {
                Ok(v) => r matches Ok(x) && x@ == v,
                Err(e) => r == Err::<Self, Error>(e),
            },
    {
        if bytes.len() < 16 {
            return Err(Error::BufferTooShort { need: 16, have: bytes.len(), what: "stsc" });
        }
        let count = read32(bytes, 12);
        let n = bytes.len();
        let mut entries: Vec<StscEntry> = Vec::new();
        let mut off: usize = 16;
        let mut k: u32 = 0;
        while k < count
            invariant_except_break
                k <= count,
                16 <= off <= n,
                n == bytes@.len(),
                count == get32(bytes@, 12),
                off == 16 + 12 * k,
                entries@ == Seq::new(k as nat, |i: int| StscEntry { first_chunk: get32(bytes@, 16 + 12 * i), samples_per_chunk: get32(bytes@, 20 + 12 * i), sample_description_index: get32(bytes@, 24 + 12 * i) }),
            ensures
                entries@ == stsc_at(bytes@, count as nat),
            decreases count - k,
        {
            if n - off < 12 {
                break;
            }
            entries.push(StscEntry {
                first_chunk: read32(bytes, off),
                samples_per_chunk: read32(bytes, off + 4),
                sample_description_index: read32(bytes, off + 8),
            });
            off += 12;
            k += 1;
            assert(entries@ =~= Seq::new(k as nat, |i: int| StscEntry { first_chunk: get32(bytes@, 16 + 12 * i), samples_per_chunk: get32(bytes@, 20 + 12 * i), sample_description_index: get32(bytes@, 24 + 12 * i) }));
        }
        Ok(SampleToChunkBox { version: bytes[8], flags: read24(bytes, 9), entries })
    }

    /// Encoded size.
    pub fn serialized_len(&self) -> (r: usize)
        requires
            16 + 12 * self.entries@.len() <= usize::MAX,
        ensures
            r == 16 + 12 * self.entries@.len(),
    {
        16 + 12 * self.entries.len()
    }

    /// Append the encoded box to `out`.
    pub fn write_to(&self, out: &mut Vec<u8>)
        ensures
            final(out)@ == old(out)@ + stsc_bytes(self@),
    {
        let ghost start = out@;
        let mut words: Vec<u32> = Vec::new();
        let mut i: usize = 0;
        while i < self.entries.len()
            invariant
                i <= self.entries@.len(),
                words@ == stsc_words(self.entries@.take(i as int)),
            decreases self.entries@.len() - i,
        {
            let e = self.entries[i];
            words.push(e.first_chunk);
            words.push(e.samples_per_chunk);
            words.push(e.sample_description_index);
            i += 1;
            assert(words@ =~= stsc_words(self.entries@.take(i as int)));
        }
        assert(self.entries@.take(i as int) =~= self.entries@);
        push_full_head(out, trunc32(16 + 12 * (self.entries.len() as u128)), &STSC, self.version, self.flags);
        push32(out, self.entries.len() as u32);
        push_words(out, &words);
        assert(out@ =~= start + stsc_bytes(self@));
    }

    /// The encoded box.
    pub fn to_bytes(&self) -> (r: Vec<u8>)
        ensures
            r@ == stsc_bytes(self@),
    {
        let mut out: Vec<u8> = Vec::new();
        self.write_to(&mut out);
        assert(out@ =~= stsc_bytes(self@));
        out
    }

    /// Write the encoded box to the front of `buf`.
    pub fn serialize_into(&self, buf: &mut Vec<u8>) -> (r: Result<usize, Error>)
        ensures
            prefix_written(old(buf)@, final(buf)@, stsc_bytes(self@), r),
    {
        let b = self.to_bytes();
        write_prefix(buf, b.as_slice())
    }
}

/// An `stsc` whose flags fit 24 bits and whose count fits 32 bits reads
/// back as written.
#[verifier::spinoff_prover]
pub proof fn lemma_stsc_round_trip(v: StscView)
    requires
        v.1 < 0x100_0000,
        v.2.len() <= u32::MAX,
    ensures
        spec_parse_stsc(stsc_bytes(v)) == Ok::<StscView, Error>(v),
{
    let b = stsc_bytes(v);
    let w = stsc_words(v.2);
    lemma_words_len(w);
    assert(b[8] == v.0);
    assert(b.subrange(9, 12) =~= be24(v.1));
    crate::bytes::lemma_be24_get24(v.1, b, 9);
    assert(b.subrange(12, 16) =~= be32(v.2.len() as u32));
    crate::bytes::lemma_be32_get32(v.2.len() as u32, b, 12);
    assert(b.skip(16) =~= words_bytes(w));
    lemma_words_read(b, 16, w);
    assert forall|i: int| 0 <= i < v.2.len() implies #[trigger] stsc_at(b, v.2.len())[i] == v.2[i] by {
        assert(words_at(b, 16, w.len())[3 * i] == w[3 * i]);
        assert(words_at(b, 16, w.len())[3 * i + 1] == w[3 * i + 1]);
        assert(words_at(b, 16, w.len())[3 * i + 2] == w[3 * i + 2]);
        assert((3 * i) / 3 == i && (3 * i) % 3 == 0) by (nonlinear_arith);
        assert((3 * i + 1) / 3 == i && (3 * i + 1) % 3 == 1) by (nonlinear_arith);
        assert((3 * i + 2) / 3 == i && (3 * i + 2) % 3 == 2) by (nonlinear_arith);
    }
    assert(stsc_at(b, v.2.len()) =~= v.2);
}

// ---------------------------------------------------------------------------
// trex
// ---------------------------------------------------------------------------

/// Box type `trex`.
pub const TREX: [u8; 4] = [0x74, 0x72, 0x65, 0x78];

/// Track Extends Box (`trex`, §8.8.3): per-track defaults for the samples
/// of movie fragments.
#[derive(Debug, Clone, Copy, PartialEq, Eq, Structural)]
pub struct TrackExtendsBox {
    pub version: u8,
    pub flags: u32,
    pub track_id: u32,
    pub default_sample_description_index: u32,
    pub default_sample_duration: u32,
    pub default_sample_size: u32,
    pub default_sample_flags: u32,
}

/// The `trex` bytes as written.
pub open spec fn trex_bytes(v: TrackExtendsBox) -> Seq<u8> {
    full_head(32, TREX@, v.version, v.flags) + be32(v.track_id) + be32(v.default_sample_description_index) + be32(
        v.default_sample_duration,
    ) + be32(v.default_sample_size) + be32(v.default_sample_flags)
}

/// Outcome of parsing a `trex` box (header included).
pub open spec fn spec_parse_trex(b: Seq<u8>) -> Result<TrackExtendsBox, Error> {
    if b.len() < 32 {
        Err(Error::BufferTooShort { need: 32, have: b.len() as usize, what: "trex" })
    } else {
        Ok(TrackExtendsBox {
            version: b[8],
            flags: get24(b, 9),
            track_id: get32(b, 12),
            default_sample_description_index: get32(b, 16),
            default_sample_duration: get32(b, 20),
            default_sample_size: get32(b, 24),
            default_sample_flags: get32(b, 28),
        })
    }
}

impl TrackExtendsBox {
    /// Parse a `trex` box.
    pub fn parse(bytes: &[u8]) -> (r: Result<Self, Error>)
        ensures
            r == spec_parse_trex(bytes@),
    {
        if bytes.len() < 32 {
            return Err(Error::BufferTooShort { need: 32, have: bytes.len(), what: "trex" });
        }
        Ok(TrackExtendsBox {
            version: bytes[8],
            flags: read24(bytes, 9),
            track_id: read32(bytes, 12),
            default_sample_description_index: read32(bytes, 16),
            default_sample_duration: read32(bytes, 20),
            default_sample_size: read32(bytes, 24),
            default_sample_flags: read32(bytes, 28),
        })
    }

    /// Encoded size (32 bytes).
    pub fn serialized_len(&self) -> (r: usize)
        ensures
            r == trex_bytes(*self).len(),
    {
        32
    }

    /// Append the encoded box to `out`.
    pub fn write_to(&self, out: &mut Vec<u8>)
        ensures
            final(out)@ == old(out)@ + trex_bytes(*self),
    {
        let ghost start = out@;
        push_full_head(out, 32, &TREX, self.version, self.flags);
        push32(out, self.track_id);
        push32(out, self.default_sample_description_index);
        push32(out, self.default_sample_duration);
        push32(out, self.default_sample_size);
        push32(out, self.default_sample_flags);
        assert(out@ =~= start + trex_bytes(*self));
    }

    /// The encoded box.
    pub fn to_bytes(&self) -> (r: Vec<u8>)
        ensures
            r@ == trex_bytes(*self),
    {
        let mut out: Vec<u8> = Vec::new();
        self.write_to(&mut out);
        assert(out@ =~= trex_bytes(*self));
        out
    }

    /// Write the encoded box to the front of `buf`.
    pub fn serialize_into(&self, buf: &mut Vec<u8>) -> (r: Result<usize, Error>)
        ensures
            prefix_written(old(buf)@, final(buf)@, trex_bytes(*self), r),
    {
        let b = self.to_bytes();
        write_prefix(buf, b.as_slice())
    }
}

/// A `trex` whose flags fit 24 bits reads back as written.
#[verifier::spinoff_prover]
pub proof fn lemma_trex_round_trip(v: TrackExtendsBox)
    requires
        v.flags < 0x100_0000,
    ensures
        spec_parse_trex(trex_bytes(v)) == Ok::<TrackExtendsBox, Error>(v),
{
    let b = trex_bytes(v);
    assert(b.len() == 32);
    assert(b[8] == v.version);
    assert(b.subrange(9, 12) =~= be24(v.flags));
    crate::bytes::lemma_be24_get24(v.flags, b, 9);
    assert(b.subrange(12, 16) =~= be32(v.track_id));
    crate::bytes::lemma_be32_get32(v.track_id, b, 12);
    assert(b.subrange(16, 20) =~= be32(v.default_sample_description_index));
    crate::bytes::lemma_be32_get32(v.default_sample_description_index, b, 16);
    assert(b.subrange(20, 24) =~= be32(v.default_sample_duration));
    crate::bytes::lemma_be32_get32(v.default_sample_duration, b, 20);
    assert(b.subrange(24, 28) =~= be32(v.default_sample_size));
    crate::bytes::lemma_be32_get32(v.default_sample_size, b, 24);
    assert(b.subrange(28, 32) =~= be32(v.default_sample_flags));
    crate::bytes::lemma_be32_get32(v.default_sample_flags, b, 28);
}

// ---------------------------------------------------------------------------
// Child walks
// ---------------------------------------------------------------------------

/// The child boxes of a container body from `off`, as `(start, end)`
/// spans: the walk stops at fewer than 8 bytes left or a 32-bit size below
/// 8; a child whose size runs past the input is clamped to the input and
/// ends the walk.
pub open spec fn child_spans(s: Seq<u8>, off: nat) -> Seq<(int, int)>
    decreases s.len() - off,
{
    if off + 8 > s.len() {
        Seq::empty()
    } else {
        let sz = get32(s, off as int) as nat;
        if sz < 8 {
            Seq::empty()
        } else if off + sz <= s.len() {
            seq![(off as int, (off + sz) as int)] + child_spans(s, off + sz)
        } else {
            seq![(off as int, s.len() as int)]
        }
    }
}

/// Every span lies inside `s`, at least 8 bytes long.
pub proof fn lemma_child_spans_bounds(s: Seq<u8>, off: nat)
    ensures
        forall|i: int| 0 <= i < child_spans(s, off).len() ==> {
            let p = #[trigger] child_spans(s, off)[i];
            off <= p.0 && p.0 + 8 <= p.1 <= s.len()
        },
    decreases s.len() - off,
{
    if off + 8 <= s.len() {
        let sz = get32(s, off as int) as nat;
        if sz >= 8 && off + sz <= s.len() {
            lemma_child_spans_bounds(s, off + sz);
            let r = child_spans(s, off + sz);
            assert forall|i: int| 0 <= i < child_spans(s, off).len() implies {
                let p = #[trigger] child_spans(s, off)[i];
                off <= p.0 && p.0 + 8 <= p.1 <= s.len()
            } by {
                if i > 0 {
                    assert(child_spans(s, off)[i] == r[i - 1]);
                }
            }
        }
    }
}

/// The child spans of `s` from `off`.
pub fn walk_children(s: &[u8], off: usize) -> (r: Vec<(usize, usize)>)
    ensures
        r@.len() == child_spans(s@, off as nat).len(),
        forall|i: int| 0 <= i < r@.len() ==> (#[trigger] r@[i]).0 as int == child_spans(s@, off as nat)[i].0
            && r@[i].1 as int == child_spans(s@, off as nat)[i].1,
{
    let n = s.len();
    let mut out: Vec<(usize, usize)> = Vec::new();
    let mut c = off;
    let ghost mut done: Seq<(int, int)> = Seq::empty();
    loop
        invariant_except_break
            n == s@.len(),
            off <= c,
            c <= n || done.len() == 0 && c == off,
            child_spans(s@, off as nat) == done + child_spans(s@, c as nat),
            out@.len() == done.len(),
            forall|i: int| 0 <= i < out@.len() ==> (#[trigger] out@[i]).0 as int == done[i].0 && out@[i].1 as int == done[i].1,
        ensures
            out@.len() == child_spans(s@, off as nat).len(),
            forall|i: int| 0 <= i < out@.len() ==> (#[trigger] out@[i]).0 as int == child_spans(s@, off as nat)[i].0
                && out@[i].1 as int == child_spans(s@, off as nat)[i].1,
        decreases n + 1 - c,
    {
        if c > n || n - c < 8 {
            assert(child_spans(s@, c as nat) =~= Seq::<(int, int)>::empty());
            assert(done + child_spans(s@, c as nat) =~= done);
            break;
        }
        let sz = read32(s, c) as usize;
        if sz < 8 {
            assert(done + child_spans(s@, c as nat) =~= done);
            break;
        }
        if sz > n - c {
            out.push((c, n));
            proof {
                assert(child_spans(s@, c as nat) == seq![(c as int, n as int)]);
                assert(done + child_spans(s@, c as nat) =~= done.push((c as int, n as int)));
                done = done.push((c as int, n as int));
            }
            break;
        }
        out.push((c, c + sz));
        proof {
            let tail = child_spans(s@, (c + sz) as nat);
            assert(child_spans(s@, c as nat) == seq![(c as int, (c + sz) as int)] + tail);
            assert(done + child_spans(s@, c as nat) =~= done.push((c as int, (c + sz) as int)) + tail);
            done = done.push((c as int, (c + sz) as int));
        }
        c = c + sz;
    }
    out
}

// ---------------------------------------------------------------------------
// Lists of boxes
// ---------------------------------------------------------------------------

/// Opaque boxes, each encoded, in order.
pub open spec fn opaques_bytes(s: Seq<(Seq<u8>, Seq<u8>)>) -> Seq<u8>
    decreases s.len(),
{
    if s.len() == 0 {
        Seq::empty()
    } else {
        opaques_bytes(s.drop_last()) + opaque_bytes(s.last())
    }
}

/// The views of a list of opaque boxes.
pub open spec fn opaque_views(v: Seq<OpaqueBox>) -> Seq<(Seq<u8>, Seq<u8>)> {
    v.map_values(|o: OpaqueBox| o@)
}

/// Append every opaque box of `v`.
fn push_opaques(out: &mut Vec<u8>, v: &Vec<OpaqueBox>)
    ensures
        final(out)@ == old(out)@ + opaques_bytes(opaque_views(v@)),
{
    let ghost s = opaque_views(v@);
    let ghost start = out@;
    let mut i: usize = 0;
    while i < v.len()
        invariant
            i <= v@.len(),
            s == opaque_views(v@),
            out@ == start + opaques_bytes(s.take(i as int)),
        decreases v@.len() - i,
    {
        v[i].write_to(out);
        assert(s.take(i + 1int).drop_last() =~= s.take(i as int));
        i += 1;
        assert(out@ =~= start + opaques_bytes(s.take(i as int)));
    }
    assert(s.take(i as int) =~= s);
}

/// The box at `p` of `s`, kept verbatim: its type and its body.
pub open spec fn opaque_at(s: Seq<u8>, p: (int, int)) -> (Seq<u8>, Seq<u8>) {
    (s.subrange(p.0 + 4, p.0 + 8), s.subrange(p.0 + 8, p.1))
}

/// Keep the box at `[a, e)` of `s` verbatim.
fn opaque_from(s: &[u8], a: usize, e: usize) -> (r: OpaqueBox)
    requires
        a + 8 <= e <= s@.len(),
    ensures
        r@ == opaque_at(s@, (a as int, e as int)),
{
    let n = s.len();
    let t: [u8; 4] = [s[a + 4], s[a + 5], s[a + 6], s[a + 7]];
    assert(t@ =~= s@.subrange(a + 4, a + 8));
    OpaqueBox { box_type: t, data: copy_range(s, a + 8, e) }
}

/// The four-character type of the box at `a` of `s`.
pub open spec fn type_at(s: Seq<u8>, a: int) -> Seq<u8> {
    s.subrange(a + 4, a + 8)
}

/// Read the box type at `a`.
fn read_type(s: &[u8], a: usize) -> (r: [u8; 4])
    requires
        a + 8 <= s@.len(),
    ensures
        r@ == type_at(s@, a as int),
{
    let n = s.len();
    let t: [u8; 4] = [s[a + 4], s[a + 5], s[a + 6], s[a + 7]];
    assert(t@ =~= s@.subrange(a + 4, a + 8));
    t
}

// ---------------------------------------------------------------------------
// mp4a sample entry
// ---------------------------------------------------------------------------

/// Box type `mp4a`.
pub const MP4A: [u8; 4] = [0x6D, 0x70, 0x34, 0x61];
/// Box type `enca` (an encrypted audio entry with the `mp4a` layout).
pub const ENCA: [u8; 4] = [0x65, 0x6E, 0x63, 0x61];

/// An audio sample entry with the `mp4a` layout (§12.2.3): the 28 bytes of
/// AudioSampleEntry fields, then its configuration boxes, kept verbatim.
#[derive(Debug, Clone, PartialEq, Eq)]
pub struct Mp4aSampleEntry {
    pub data_reference_index: u16,
    pub channelcount: u16,
    pub samplesize: u16,
    pub samplerate: u32,
    pub config_boxes: Vec<OpaqueBox>,
}

/// `(data_reference_index, channelcount, samplesize, samplerate, configs)`.
pub type Mp4aView = (u16, u16, u16, u32, Seq<(Seq<u8>, Seq<u8>)>);

impl View for Mp4aSampleEntry {
    type V = Mp4aView;

    open spec fn view(&self) -> Mp4aView {
        (self.data_reference_index, self.channelcount, self.samplesize, self.samplerate, opaque_views(self.config_boxes@))
    }
}

/// An audio sample entry of type `typ` with the `mp4a` layout, as written.
pub open spec fn audio_entry_bytes(typ: Seq<u8>, v: Mp4aView) -> Seq<u8> {
    box_head(36 + opaques_bytes(v.4).len(), typ) + zeros(6) + be16(v.0) + zeros(8) + be16(v.1) + be16(v.2) + zeros(4)
        + be32(v.3) + opaques_bytes(v.4)
}

/// The `mp4a` sample entry as written.
pub open spec fn mp4a_bytes(v: Mp4aView) -> Seq<u8> {
    audio_entry_bytes(MP4A@, v)
}

/// Outcome of parsing an `mp4a` sample entry (header included): the
/// configuration boxes are the child boxes after the fixed fields.
pub open spec fn spec_parse_mp4a(b: Seq<u8>) -> Result<Mp4aView, Error> {
    if b.len() < 36 {
        Err(Error::BufferTooShort { need: 36, have: b.len() as usize, what: "mp4a" })
    } else {
        let body = b.skip(8);
        Ok((get16(b, 14), get16(b, 24), get16(b, 26), get32(b, 32), child_spans(body, 28).map_values(|p: (int, int)| opaque_at(body, p))))
    }
}

/// Append an audio sample entry of type `typ` with the `mp4a` layout.
fn write_audio_entry(out: &mut Vec<u8>, typ: &[u8; 4], e: &Mp4aSampleEntry)
    ensures
        final(out)@ == old(out)@ + audio_entry_bytes(typ@, e@),
{
    let ghost start = out@;
    let mut cfg: Vec<u8> = Vec::new();
    push_opaques(&mut cfg, &e.config_boxes);
    push32(out, size_field(cfg.len(), 36));
    push_all(out, typ);
    push_zeros(out, 6);
    push16(out, e.data_reference_index);
    push_zeros(out, 8);
    push16(out, e.channelcount);
    push16(out, e.samplesize);
    push_zeros(out, 4);
    push32(out, e.samplerate);
    push_all(out, cfg.as_slice());
    assert(out@ =~= start + audio_entry_bytes(typ@, e@));
}

impl Mp4aSampleEntry {
    /// Parse an `mp4a` sample entry.
    pub fn parse(bytes: &[u8]) -> (r: Result<Self, Error>)
        ensures
            match spec_parse_mp4a(bytes@) {
                Ok(v) => r matches Ok(x) && x@ == v,
                Err(e) => r == Err::<Self, Error>(e),
            },
    {
        if bytes.len() < 36 {
            return Err(Error::BufferTooShort { need: 36, have: bytes.len(), what: "mp4a" });
        }
        let body = &bytes[8..bytes.len()];
        assert(body@ =~= bytes@.skip(8));
        let spans = walk_children(body, 28);
        proof {
            lemma_child_spans_bounds(body@, 28);
        }
        let ghost sp = child_spans(body@, 28);
        let mut config_boxes: Vec<OpaqueBox> = Vec::new();
        let mut i: usize = 0;
        while i < spans.len()
            invariant
                i <= spans@.len(),
                spans@.len() == sp.len(),
                sp == child_spans(body@, 28),
                forall|j: int| 0 <= j < spans@.len() ==> (#[trigger] spans@[j]).0 as int == sp[j].0 && spans@[j].1 as int == sp[j].1,
                forall|j: int| 0 <= j < sp.len() ==> {
                    let p = #[trigger] sp[j];
                    28 <= p.0 && p.0 + 8 <= p.1 <= body@.len()
                },
                opaque_views(config_boxes@) == sp.take(i as int).map_values(|p: (int, int)| opaque_at(body@, p)),
            decreases spans@.len() - i,
        {
            let (a, e) = spans[i];
            assert(sp[i as int].0 + 8 <= sp[i as int].1);
            let o = opaque_from(body, a, e);
            let ghost prev = config_boxes@;
            config_boxes.push(o);
            proof {
                assert((a as int, e as int) == sp[i as int]);
                assert(opaque_views(config_boxes@) =~= opaque_views(prev).push(o@));
                assert(sp.take(i + 1int).map_values(|p: (int, int)| opaque_at(body@, p)) =~= sp.take(i as int).map_values(
                    |p: (int, int)| opaque_at(body@, p),
                ).push(opaque_at(body@, sp[i as int])));
            }
            i += 1;
        }
        assert(sp.take(i as int) =~= sp);
        Ok(Mp4aSampleEntry {
            data_reference_index: read16(bytes, 14),
            channelcount: read16(bytes, 24),
            samplesize: read16(bytes, 26),
            samplerate: read32(bytes, 32),
            config_boxes,
        })
    }

    /// Append the encoded entry to `out`.
    pub fn write_to(&self, out: &mut Vec<u8>)
        ensures
            final(out)@ == old(out)@ + mp4a_bytes(self@),
    {
        write_audio_entry(out, &MP4A, self);
    }

    /// The encoded entry.
    pub fn to_bytes(&self) -> (r: Vec<u8>)
        ensures
            r@ == mp4a_bytes(self@),
    {
        let mut out: Vec<u8> = Vec::new();
        self.write_to(&mut out);
        assert(out@ =~= mp4a_bytes(self@));
        out
    }

    /// Encoded size.
    pub fn serialized_len(&self) -> (r: usize)
        ensures
            r == mp4a_bytes(self@).len(),
    {
        self.to_bytes().len()
    }

    /// Write the encoded entry to the front of `buf`.
    pub fn serialize_into(&self, buf: &mut Vec<u8>) -> (r: Result<usize, Error>)
        ensures
            prefix_written(old(buf)@, final(buf)@, mp4a_bytes(self@), r),
    {
        let b = self.to_bytes();
        write_prefix(buf, b.as_slice())
    }
}

// ---------------------------------------------------------------------------
// stsd
// ---------------------------------------------------------------------------

/// Box type `stsd`.
pub const STSD: [u8; 4] = [0x73, 0x74, 0x73, 0x64];

/// One sample entry of an `stsd`: an `mp4a`-layout audio entry, or any
/// other entry kept verbatim.
#[derive(Debug, Clone, PartialEq, Eq)]
pub enum SampleEntryVariant {
    Mp4a(Box<Mp4aSampleEntry>),
    Unknown(OpaqueBox),
}

/// The model of a sample entry.
pub enum EntryView {
    Mp4a(Mp4aView),
    Unknown((Seq<u8>, Seq<u8>)),
}

impl View for SampleEntryVariant {
    type V = EntryView;

    open spec fn view(&self) -> EntryView {
        match self {
            SampleEntryVariant::Mp4a(m) => EntryView::Mp4a(m@),
            SampleEntryVariant::Unknown(o) => EntryView::Unknown(o@),
        }
    }
}

/// A sample entry as written.
pub open spec fn entry_bytes(e: EntryView) -> Seq<u8> {
    match e {
        EntryView::Mp4a(m) => mp4a_bytes(m),
        EntryView::Unknown(o) => opaque_bytes(o),
    }
}

/// Sample entries, each encoded, in order.
pub open spec fn entries_bytes(s: Seq<EntryView>) -> Seq<u8>
    decreases s.len(),
{
    if s.len() == 0 {
        Seq::empty()
    } else {
        entries_bytes(s.drop_last()) + entry_bytes(s.last())
    }
}

/// Outcome of reading one sample entry (`bb` is the whole entry box): `mp4a`
/// and `enca` entries are parsed, others kept verbatim.
pub open spec fn spec_parse_entry(bb: Seq<u8>) -> Result<EntryView, Error> {
    if bb.subrange(4, 8) == MP4A@ || bb.subrange(4, 8) == ENCA@ {
        match spec_parse_mp4a(bb) {
            Ok(m) => Ok(EntryView::Mp4a(m)),
            Err(e) => Err(e),
        }
    } else {
        Ok(EntryView::Unknown((bb.subrange(4, 8), bb.skip(8))))
    }
}

/// Sample Description Box (`stsd`, §8.5.2).
#[derive(Debug, Clone, PartialEq, Eq)]
pub struct SampleDescriptionBox {
    pub version: u8,
    pub flags: u32,
    pub entries: Vec<SampleEntryVariant>,
}

/// `(version, flags, entries)`.
pub type StsdView = (u8, u32, Seq<EntryView>);

impl View for SampleDescriptionBox {
    type V = StsdView;

    open spec fn view(&self) -> StsdView {
        (self.version, self.flags, self.entries@.map_values(|e: SampleEntryVariant| e@))
    }
}

/// The `stsd` bytes as written.
pub open spec fn stsd_bytes(v: StsdView) -> Seq<u8> {
    full_head(16 + entries_bytes(v.2).len(), STSD@, v.0, v.1) + be32(v.2.len() as u32) + entries_bytes(v.2)
}

/// Walking the counted entries of an `stsd` from `off`, entry `k` of
/// `count` (the same walk as a `dref`'s).
pub open spec fn stsd_walk(b: Seq<u8>, off: nat, k: nat, count: nat, acc: Seq<EntryView>) -> Result<Seq<EntryView>, Error>
    decreases count - k,
{
    if k >= count || off + 8 > b.len() {
        Ok(acc)
    } else {
        let sz = get32(b, off as int) as nat;
        if sz < 8 {
            Ok(acc)
        } else {
            let end = if off + sz <= b.len() { off + sz } else { b.len() };
            match spec_parse_entry(b.subrange(off as int, end as int)) {
                Err(e) => Err(e),
                Ok(x) => stsd_walk(b, off + sz, k + 1, count, acc.push(x)),
            }
        }
    }
}

/// Outcome of parsing an `stsd` box (header included).
pub open spec fn spec_parse_stsd(b: Seq<u8>) -> Result<StsdView, Error> {
    if b.len() < 16 {
        Err(Error::BufferTooShort { need: 16, have: b.len() as usize, what: "stsd" })
    } else {
        match stsd_walk(b, 16, 0, get32(b, 12) as nat, Seq::empty()) {
            Err(e) => Err(e),
            Ok(es) => Ok((b[8], get24(b, 9), es)),
        }
    }
}

impl SampleEntryVariant {
    /// Append the encoded entry to `out`.
    pub fn write_to(&self, out: &mut Vec<u8>)
        ensures
            final(out)@ == old(out)@ + entry_bytes(self@),
    {
        match self {
            SampleEntryVariant::Mp4a(m) => m.write_to(out),
            SampleEntryVariant::Unknown(o) => o.write_to(out),
        }
    }

    /// Read one sample entry from its whole box bytes (at least 8).
    fn parse_entry(bb: &[u8]) -> (r: Result<Self, Error>)
        requires
            bb@.len() >= 8,
        ensures
            match spec_parse_entry(bb@) {
                Ok(v) => r matches Ok(x) && x@ == v,
                Err(e) => r == Err::<Self, Error>(e),
            },
    {
        let t = read_type(bb, 0);
        assert(type_at(bb@, 0) =~= bb@.subrange(4, 8));
        if crate::box_types::fourcc_eq(&t, &MP4A) || crate::box_types::fourcc_eq(&t, &ENCA) {
            match Mp4aSampleEntry::parse(bb) {
                Ok(m) => Ok(SampleEntryVariant::Mp4a(Box::new(m))),
                Err(e) => Err(e),
            }
        } else {
            let data = copy_range(bb, 8, bb.len());
            assert(bb@.subrange(8, bb@.len() as int) =~= bb@.skip(8));
            Ok(SampleEntryVariant::Unknown(OpaqueBox { box_type: t, data }))
        }
    }
}

impl SampleDescriptionBox {
    /// Parse an `stsd` box.
    pub fn parse(bytes: &[u8]) -> (r: Result<Self, Error>)
        ensures
            match spec_parse_stsd(bytes@) {
                Ok(v) => r matches Ok(x) && x@ == v,
                Err(e) => r == Err::<Self, Error>(e),
            },
    {
        if bytes.len() < 16 {
            return Err(Error::BufferTooShort { need: 16, have: bytes.len(), what: "stsd" });
        }
        let count = read32(bytes, 12);
        let n = bytes.len();
        let mut entries: Vec<SampleEntryVariant> = Vec::new();
        let mut off: usize = 16;
        let mut k: u32 = 0;
        assert(entries@.map_values(|e: SampleEntryVariant| e@) =~= Seq::<EntryView>::empty());
        while k < count
            invariant_except_break
                k <= count,
                16 <= off <= n,
                n == bytes@.len(),
                count == get32(bytes@, 12),
                stsd_walk(bytes@, 16, 0, count as nat, Seq::empty()) == stsd_walk(
                    bytes@,
                    off as nat,
                    k as nat,
                    count as nat,
                    entries@.map_values(|e: SampleEntryVariant| e@),
                ),
            ensures
                stsd_walk(bytes@, 16, 0, count as nat, Seq::empty()) == Ok::<Seq<EntryView>, Error>(
                    entries@.map_values(|e: SampleEntryVariant| e@),
                ),
            decreases count - k,
        {
            if n - off < 8 {
                break;
            }
            let sz = read32(bytes, off) as usize;
            if sz < 8 {
                break;
            }
            let last = sz > n - off;
            let end = if last { n } else { off + sz };
            let ghost acc = entries@.map_values(|e: SampleEntryVariant| e@);
            let e = match SampleEntryVariant::parse_entry(&bytes[off..end]) {
                Ok(e) => e,
                Err(err) => {
                    return Err(err);
                },
            };
            entries.push(e);
            assert(entries@.map_values(|e: SampleEntryVariant| e@) =~= acc.push(e@));
            if last {
                assert(stsd_walk(bytes@, (off + sz) as nat, (k + 1) as nat, count as nat, acc.push(e@))
                    == Ok::<Seq<EntryView>, Error>(acc.push(e@)));
                break;
            }
            off = off + sz;
            k = k + 1;
        }
        Ok(SampleDescriptionBox { version: bytes[8], flags: read24(bytes, 9), entries })
    }

    /// Append the encoded box to `out`.
    pub fn write_to(&self, out: &mut Vec<u8>)
        ensures
            final(out)@ == old(out)@ + stsd_bytes(self@),
    {
        let ghost s = self@.2;
        let mut body: Vec<u8> = Vec::new();
        let mut i: usize = 0;
        while i < self.entries.len()
            invariant
                i <= self.entries@.len(),
                s == self.entries@.map_values(|e: SampleEntryVariant| e@),
                body@ == entries_bytes(s.take(i as int)),
            decreases self.entries@.len() - i,
        {
            self.entries[i].write_to(&mut body);
            assert(s.take(i + 1int).drop_last() =~= s.take(i as int));
            i += 1;
        }
        assert(s.take(i as int) =~= s);
        let ghost start = out@;
        push_full_head(out, size_field(body.len(), 16), &STSD, self.version, self.flags);
        push32(out, self.entries.len() as u32);
        push_all(out, body.as_slice());
        assert(out@ =~= start + stsd_bytes(self@));
    }

    /// The encoded box.
    pub fn to_bytes(&self) -> (r: Vec<u8>)
        ensures
            r@ == stsd_bytes(self@),
    {
        let mut out: Vec<u8> = Vec::new();
        self.write_to(&mut out);
        assert(out@ =~= stsd_bytes(self@));
        out
    }

    /// Encoded size.
    pub fn serialized_len(&self) -> (r: usize)
        ensures
            r == stsd_bytes(self@).len(),
    {
        self.to_bytes().len()
    }

    /// Write the encoded box to the front of `buf`.
    pub fn serialize_into(&self, buf: &mut Vec<u8>) -> (r: Result<usize, Error>)
        ensures
            prefix_written(old(buf)@, final(buf)@, stsd_bytes(self@), r),
    {
        let b = self.to_bytes();
        write_prefix(buf, b.as_slice())
    }
}

// ---------------------------------------------------------------------------
// stbl
// ---------------------------------------------------------------------------

/// Box types of the typed `stbl` children.
pub const STBL: [u8; 4] = [0x73, 0x74, 0x62, 0x6C];

/// An `stbl` child kept as its whole box bytes (header included).
#[derive(Debug, Clone, PartialEq, Eq)]
pub struct StblOpaque {
    /// The full box bytes, 8-byte header included.
    pub data: Vec<u8>,
}

/// One child of a Sample Table Box. Children of other types (`stts`,
/// `ctts`, `stss`, `sgpd`, `sbgp`, ...) are kept as their whole box bytes.
#[derive(Debug, Clone, PartialEq, Eq)]
pub enum StblChild {
    Stsd(SampleDescriptionBox),
    Stsc(SampleToChunkBox),
    Stsz(SampleSizeBox),
    Stco(ChunkOffsetBox),
    Opaque(Vec<u8>),
}

/// The model of an `stbl` child.
pub enum StblChildView {
    Stsd(StsdView),
    Stsc(StscView),
    Stsz(StszView),
    Stco(StcoView),
    Opaque(Seq<u8>),
}

impl View for StblChild {
    type V = StblChildView;

    open spec fn view(&self) -> StblChildView {
        match self {
            StblChild::Stsd(b) => StblChildView::Stsd(b@),
            StblChild::Stsc(b) => StblChildView::Stsc(b@),
            StblChild::Stsz(b) => StblChildView::Stsz(b@),
            StblChild::Stco(b) => StblChildView::Stco(b@),
            StblChild::Opaque(d) => StblChildView::Opaque(d@),
        }
    }
}

/// An `stbl` child as written.
pub open spec fn stbl_child_bytes(c: StblChildView) -> Seq<u8> {
    match c {
        StblChildView::Stsd(v) => stsd_bytes(v),
        StblChildView::Stsc(v) => stsc_bytes(v),
        StblChildView::Stsz(v) => stsz_bytes(v),
        StblChildView::Stco(v) => stco_bytes(v),
        StblChildView::Opaque(d) => d,
    }
}

/// `stbl` children, each encoded, in order.
pub open spec fn stbl_children_bytes(s: Seq<StblChildView>) -> Seq<u8>
    decreases s.len(),
{
    if s.len() == 0 {
        Seq::empty()
    } else {
        stbl_children_bytes(s.drop_last()) + stbl_child_bytes(s.last())
    }
}

/// Reading one `stbl` child from its whole box bytes: a typed child that
/// fails to parse is replaced by an empty one of its type.
pub open spec fn spec_stbl_child(bb: Seq<u8>) -> StblChildView {
    let t = bb.subrange(4, 8);
    if t == STSD@ {
        StblChildView::Stsd(match spec_parse_stsd(bb) { Ok(v) => v, Err(_) => (0u8, 0u32, Seq::empty()) })
    } else if t == STSC@ {
        StblChildView::Stsc(match spec_parse_stsc(bb) { Ok(v) => v, Err(_) => (0u8, 0u32, Seq::empty()) })
    } else if t == STSZ@ {
        StblChildView::Stsz(match spec_parse_stsz(bb) { Ok(v) => v, Err(_) => (0u8, 0u32, 0u32, Seq::empty()) })
    } else if t == STCO@ {
        StblChildView::Stco(match spec_parse_stco(bb) { Ok(v) => v, Err(_) => (0u8, 0u32, Seq::empty()) })
    } else {
        StblChildView::Opaque(bb)
    }
}

impl StblChild {
    /// Append the encoded child to `out`.
    pub fn write_to(&self, out: &mut Vec<u8>)
        ensures
            final(out)@ == old(out)@ + stbl_child_bytes(self@),
    {
        match self {
            StblChild::Stsd(b) => b.write_to(out),
            StblChild::Stsc(b) => b.write_to(out),
            StblChild::Stsz(b) => b.write_to(out),
            StblChild::Stco(b) => b.write_to(out),
            StblChild::Opaque(d) => push_all(out, d.as_slice()),
        }
    }

    /// Read one child from its whole box bytes (at least 8).
    fn parse_child(bb: &[u8]) -> (r: Self)
        requires
            bb@.len() >= 8,
        ensures
            r@ == spec_stbl_child(bb@),
    {
        let t = read_type(bb, 0);
        assert(type_at(bb@, 0) =~= bb@.subrange(4, 8));
        if crate::box_types::fourcc_eq(&t, &STSD) {
            StblChild::Stsd(match SampleDescriptionBox::parse(bb) {
                Ok(v) => v,
                Err(_) => {
                    let e = SampleDescriptionBox { version: 0, flags: 0, entries: Vec::new() };
                    assert(e@.2 =~= Seq::<EntryView>::empty());
                    e
                },
            })
        } else if crate::box_types::fourcc_eq(&t, &STSC) {
            StblChild::Stsc(match SampleToChunkBox::parse(bb) {
                Ok(v) => v,
                Err(_) => SampleToChunkBox { version: 0, flags: 0, entries: Vec::new() },
            })
        } else if crate::box_types::fourcc_eq(&t, &STSZ) {
            StblChild::Stsz(match SampleSizeBox::parse(bb) {
                Ok(v) => v,
                Err(_) => SampleSizeBox { version: 0, flags: 0, sample_size: 0, entries: Vec::new() },
            })
        } else if crate::box_types::fourcc_eq(&t, &STCO) {
            StblChild::Stco(match ChunkOffsetBox::parse(bb) {
                Ok(v) => v,
                Err(_) => ChunkOffsetBox { version: 0, flags: 0, entries: Vec::new() },
            })
        } else {
            let d = copy_range(bb, 0, bb.len());
            assert(d@ =~= bb@);
            StblChild::Opaque(d)
        }
    }
}

/// Sample Table Box (`stbl`, §8.5.1).
#[derive(Debug, Clone, PartialEq, Eq)]
pub struct SampleTableBox {
    pub children: Vec<StblChild>,
}

impl View for SampleTableBox {
    type V = Seq<StblChildView>;

    open spec fn view(&self) -> Seq<StblChildView> {
        self.children@.map_values(|c: StblChild| c@)
    }
}

/// The `stbl` bytes as written.
pub open spec fn stbl_bytes(v: Seq<StblChildView>) -> Seq<u8> {
    box_head(8 + stbl_children_bytes(v).len(), STBL@) + stbl_children_bytes(v)
}

/// Outcome of parsing an `stbl` box (header included).
pub open spec fn spec_parse_stbl(b: Seq<u8>) -> Result<Seq<StblChildView>, Error> {
    if b.len() < 8 {
        Err(Error::BufferTooShort { need: 8, have: b.len() as usize, what: "stbl" })
    } else {
        let body = b.skip(8);
        Ok(child_spans(body, 0).map_values(|p: (int, int)| spec_stbl_child(body.subrange(p.0, p.1))))
    }
}

impl SampleTableBox {
    /// Parse an `stbl` box.
    pub fn parse(bytes: &[u8]) -> (r: Result<Self, Error>)
        ensures
            match spec_parse_stbl(bytes@) {
                Ok(v) => r matches Ok(x) && x@ == v,
                Err(e) => r == Err::<Self, Error>(e),
            },
    {
        if bytes.len() < 8 {
            return Err(Error::BufferTooShort { need: 8, have: bytes.len(), what: "stbl" });
        }
        let body = &bytes[8..bytes.len()];
        assert(body@ =~= bytes@.skip(8));
        let spans = walk_children(body, 0);
        proof {
            lemma_child_spans_bounds(body@, 0);
        }
        let ghost sp = child_spans(body@, 0);
        let mut children: Vec<StblChild> = Vec::new();
        let mut i: usize = 0;
        while i < spans.len()
            invariant
                i <= spans@.len(),
                spans@.len() == sp.len(),
                sp == child_spans(body@, 0),
                forall|j: int| 0 <= j < spans@.len() ==> (#[trigger] spans@[j]).0 as int == sp[j].0 && spans@[j].1 as int == sp[j].1,
                forall|j: int| 0 <= j < sp.len() ==> {
                    let p = #[trigger] sp[j];
                    0 <= p.0 && p.0 + 8 <= p.1 <= body@.len()
                },
                children@.map_values(|c: StblChild| c@) == sp.take(i as int).map_values(|p: (int, int)| spec_stbl_child(body@.subrange(p.0, p.1))),
            decreases spans@.len() - i,
        {
            let (a, e) = spans[i];
            assert(sp[i as int].0 + 8 <= sp[i as int].1);
            let c = StblChild::parse_child(&body[a..e]);
            let ghost prev = children@;
            children.push(c);
            proof {
                assert((a as int, e as int) == sp[i as int]);
                assert(children@.map_values(|c: StblChild| c@) =~= prev.map_values(|c: StblChild| c@).push(c@));
                assert(sp.take(i + 1int).map_values(|p: (int, int)| spec_stbl_child(body@.subrange(p.0, p.1))) =~= sp.take(
                    i as int,
                ).map_values(|p: (int, int)| spec_stbl_child(body@.subrange(p.0, p.1))).push(
                    spec_stbl_child(body@.subrange(sp[i as int].0, sp[i as int].1)),
                ));
            }
            i += 1;
        }
        assert(sp.take(i as int) =~= sp);
        Ok(SampleTableBox { children })
    }

    /// Append the encoded box to `out`.
    pub fn write_to(&self, out: &mut Vec<u8>)
        ensures
            final(out)@ == old(out)@ + stbl_bytes(self@),
    {
        let ghost s = self@;
        let mut body: Vec<u8> = Vec::new();
        let mut i: usize = 0;
        while i < self.children.len()
            invariant
                i <= self.children@.len(),
                s == self@,
                body@ == stbl_children_bytes(s.take(i as int)),
            decreases self.children@.len() - i,
        {
            self.children[i].write_to(&mut body);
            assert(s.take(i + 1int).drop_last() =~= s.take(i as int));
            i += 1;
        }
        assert(s.take(i as int) =~= s);
        let ghost start = out@;
        push32(out, size_field(body.len(), 8));
        push_all(out, &STBL);
        push_all(out, body.as_slice());
        assert(out@ =~= start + stbl_bytes(self@));
    }

    /// The encoded box.
    pub fn to_bytes(&self) -> (r: Vec<u8>)
        ensures
            r@ == stbl_bytes(self@),
    {
        let mut out: Vec<u8> = Vec::new();
        self.write_to(&mut out);
        assert(out@ =~= stbl_bytes(self@));
        out
    }

    /// Encoded size.
    pub fn serialized_len(&self) -> (r: usize)
        ensures
            r == stbl_bytes(self@).len(),
    {
        self.to_bytes().len()
    }

    /// Write the encoded box to the front of `buf`.
    pub fn serialize_into(&self, buf: &mut Vec<u8>) -> (r: Result<usize, Error>)
        ensures
            prefix_written(old(buf)@, final(buf)@, stbl_bytes(self@), r),
    {
        let b = self.to_bytes();
        write_prefix(buf, b.as_slice())
    }
}

// ---------------------------------------------------------------------------
// Containers
// ---------------------------------------------------------------------------

/// Box type `elst`.
pub const ELST: [u8; 4] = [0x65, 0x6C, 0x73, 0x74];

/// Box type `dinf`.
pub const DINF: [u8; 4] = [0x64, 0x69, 0x6E, 0x66];

/// Data Information Box (`dinf`, §8.7.1).
#[derive(Debug, Clone, PartialEq, Eq)]
pub struct DataInformationBox {
    pub dref: Option<DataReferenceBox>,
    pub opaque: Vec<OpaqueBox>,
}

/// The model of a `dinf` box: its typed children, then the others.
pub type DinfView = (Option<DrefView>, Seq<(Seq<u8>, Seq<u8>)>);

/// A `dinf` walk's state: the typed children seen so far (the last of
/// each kind wins), then the others in order.
pub type DinfViewAcc = (Option<DrefView>, Seq<(Seq<u8>, Seq<u8>)>);

impl View for DataInformationBox {
    type V = DinfView;

    open spec fn view(&self) -> DinfView {
        (
            match self.dref {
                Some(x) => Some(x@),
                None => None,
            },
            opaque_views(self.opaque@),
        )
    }
}

/// The children of a `dinf` as written, in field order.
pub open spec fn dinf_body_bytes(v: DinfView) -> Seq<u8> {
    (match v.0 { Some(x) => dref_bytes(x), None => Seq::empty() }) + (opaques_bytes(v.1))
}

/// The `dinf` bytes as written.
pub open spec fn dinf_bytes(v: DinfView) -> Seq<u8> {
    box_head(8 + dinf_body_bytes(v).len(), DINF@) + dinf_body_bytes(v)
}

/// Walking the child spans `sp` of a `dinf` body from child `k`.
#[verifier::opaque]
pub open spec fn dinf_fold(body: Seq<u8>, sp: Seq<(int, int)>, k: nat, acc: DinfViewAcc) -> Result<DinfViewAcc, Error>
    decreases sp.len() - k,
{
    if k >= sp.len() {
        Ok(acc)
    } else {
        let p = sp[k as int];
        let bb = body.subrange(p.0, p.1);
        let t = body.subrange(p.0 + 4, p.0 + 8);
        if t == DREF@ {
            match spec_parse_dref(bb) {
                Err(e) => Err(e),
                Ok(x) => dinf_fold(body, sp, k + 1, (Some(x), acc.1)),
            }
        } else {
            dinf_fold(body, sp, k + 1, (acc.0, acc.1.push(opaque_at(body, p))))
        }
    }
}

/// Outcome of parsing a `dinf` box (header included): a typed child
/// that fails to parse fails the whole box.
#[verifier::opaque]
pub open spec fn spec_parse_dinf(b: Seq<u8>) -> Result<DinfView, Error> {
    if b.len() < 8 {
        Err(Error::BufferTooShort { need: 8, have: b.len() as usize, what: "dinf" })
    } else {
        let body = b.skip(8);
        match dinf_fold(body, child_spans(body, 0), 0, (None, Seq::empty())) {
            Err(e) => Err(e),
            Ok(a) => Ok((a.0, a.1)),
        }
    }
}

impl DataInformationBox {
    /// Parse a `dinf` box.
    pub fn parse(bytes: &[u8]) -> (r: Result<Self, Error>)
        ensures
            match spec_parse_dinf(bytes@) {
                Ok(v) => r matches Ok(x) && x@ == v,
                Err(e) => r == Err::<Self, Error>(e),
            },
    {
        reveal(spec_parse_dinf);
        if bytes.len() < 8 {
            return Err(Error::BufferTooShort { need: 8, have: bytes.len(), what: "dinf" });
        }
        let body = &bytes[8..bytes.len()];
        assert(body@ =~= bytes@.skip(8));
        let spans = walk_children(body, 0);
        proof {
            lemma_child_spans_bounds(body@, 0);
        }
        let ghost sp = child_spans(body@, 0);
        let mut dref: Option<DataReferenceBox> = None;
        let mut opaque: Vec<OpaqueBox> = Vec::new();
        assert(opaque_views(opaque@) =~= Seq::<(Seq<u8>, Seq<u8>)>::empty());
        let mut i: usize = 0;
        while i < spans.len()
            invariant
                i <= spans@.len(),
                spans@.len() == sp.len(),
                sp == child_spans(body@, 0),
                body@ == bytes@.skip(8),
                bytes@.len() >= 8,
                forall|j: int| 0 <= j < spans@.len() ==> (#[trigger] spans@[j]).0 as int == sp[j].0 && spans@[j].1 as int == sp[j].1,
                forall|j: int| 0 <= j < sp.len() ==> {
                    let p = #[trigger] sp[j];
                    0 <= p.0 && p.0 + 8 <= p.1 <= body@.len()
                },
                dinf_fold(body@, sp, 0, (None, Seq::empty())) == dinf_fold(body@, sp, i as nat, (match dref {
                    Some(x) => Some(x@),
                    None => None,
                }, opaque_views(opaque@))),
            decreases spans@.len() - i,
        {
            reveal_with_fuel(dinf_fold, 2);
            reveal(spec_parse_dinf);
            let (a, e) = spans[i];
            assert(sp[i as int].0 + 8 <= sp[i as int].1);
            assert((a as int, e as int) == sp[i as int]);
            let t = read_type(body, a);
            if crate::box_types::fourcc_eq(&t, &DREF) {
                match DataReferenceBox::parse(&body[a..e]) {
                    Ok(x) => {
                        dref = Some(x);
                    },
                    Err(err) => {
                        return Err(err);
                    },
                }
            } else {
                let ghost prev = opaque@;
                let o = opaque_from(body, a, e);
                opaque.push(o);
                assert(opaque_views(opaque@) =~= opaque_views(prev).push(o@));
            }
            i += 1;
        }
        reveal_with_fuel(dinf_fold, 2);
        Ok(DataInformationBox { dref, opaque })
    }

    /// Append the encoded box to `out`.
    pub fn write_to(&self, out: &mut Vec<u8>)
        ensures
            final(out)@ == old(out)@ + dinf_bytes(self@),
    {
        let mut body: Vec<u8> = Vec::new();
        if let Some(x) = &self.dref {
            x.write_to(&mut body);
        }
        push_opaques(&mut body, &self.opaque);
        assert(body@ =~= dinf_body_bytes(self@));
        let ghost start = out@;
        push32(out, size_field(body.len(), 8));
        push_all(out, &DINF);
        push_all(out, body.as_slice());
        assert(out@ =~= start + dinf_bytes(self@));
    }

    /// The encoded box.
    pub fn to_bytes(&self) -> (r: Vec<u8>)
        ensures
            r@ == dinf_bytes(self@),
    {
        let mut out: Vec<u8> = Vec::new();
        self.write_to(&mut out);
        assert(out@ =~= dinf_bytes(self@));
        out
    }

    /// Encoded size.
    pub fn serialized_len(&self) -> (r: usize)
        ensures
            r == dinf_bytes(self@).len(),
    {
        self.to_bytes().len()
    }

    /// Write the encoded box to the front of `buf`.
    pub fn serialize_into(&self, buf: &mut Vec<u8>) -> (r: Result<usize, Error>)
        ensures
            prefix_written(old(buf)@, final(buf)@, dinf_bytes(self@), r),
    {
        let b = self.to_bytes();
        write_prefix(buf, b.as_slice())
    }
}

/// Box type `minf`.
pub const MINF: [u8; 4] = [0x6D, 0x69, 0x6E, 0x66];

/// Media Information Box (`minf`, §8.4.4).
#[derive(Debug, Clone, PartialEq, Eq)]
pub struct MediaInformationBox {
    pub vmhd: Option<VideoMediaHeaderBox>,
    pub smhd: Option<SoundMediaHeaderBox>,
    pub dinf: Option<DataInformationBox>,
    pub stbl: Option<SampleTableBox>,
    pub opaque: Vec<OpaqueBox>,
}

/// The model of a `minf` box: its typed children, then the others.
pub type MinfView = (Option<VmhdView>, Option<SoundMediaHeaderBox>, Option<DinfView>, Option<Seq<StblChildView>>, Seq<(Seq<u8>, Seq<u8>)>);

/// A `minf` walk's state: the typed children seen so far (the last of
/// each kind wins), then the others in order.
pub type MinfViewAcc = (Option<VmhdView>, Option<SoundMediaHeaderBox>, Option<DinfView>, Option<Seq<StblChildView>>, Seq<(Seq<u8>, Seq<u8>)>);

impl View for MediaInformationBox {
    type V = MinfView;

    open spec fn view(&self) -> MinfView {
        (
            match self.vmhd {
                Some(x) => Some(x@),
                None => None,
            },
            match self.smhd {
                Some(x) => Some(x),
                None => None,
            },
            match self.dinf {
                Some(x) => Some(x@),
                None => None,
            },
            match self.stbl {
                Some(x) => Some(x@),
                None => None,
            },
            opaque_views(self.opaque@),
        )
    }
}

/// The children of a `minf` as written, in field order.
pub open spec fn minf_body_bytes(v: MinfView) -> Seq<u8> {
    (match v.0 { Some(x) => vmhd_bytes(x), None => Seq::empty() }) + (match v.1 { Some(x) => smhd_bytes(x), None => Seq::empty() }) + (match v.2 { Some(x) => dinf_bytes(x), None => Seq::empty() }) + (match v.3 { Some(x) => stbl_bytes(x), None => Seq::empty() }) + (opaques_bytes(v.4))
}

/// The `minf` bytes as written.
pub open spec fn minf_bytes(v: MinfView) -> Seq<u8> {
    box_head(8 + minf_body_bytes(v).len(), MINF@) + minf_body_bytes(v)
}

/// Walking the child spans `sp` of a `minf` body from child `k`.
#[verifier::opaque]
pub open spec fn minf_fold(body: Seq<u8>, sp: Seq<(int, int)>, k: nat, acc: MinfViewAcc) -> Result<MinfViewAcc, Error>
    decreases sp.len() - k,
{
    if k >= sp.len() {
        Ok(acc)
    } else {
        let p = sp[k as int];
        let bb = body.subrange(p.0, p.1);
        let t = body.subrange(p.0 + 4, p.0 + 8);
        if t == VMHD@ {
            match spec_parse_vmhd(bb) {
                Err(e) => Err(e),
                Ok(x) => minf_fold(body, sp, k + 1, (Some(x), acc.1, acc.2, acc.3, acc.4)),
            }
        } else if t == SMHD@ {
            match spec_parse_smhd(bb) {
                Err(e) => Err(e),
                Ok(x) => minf_fold(body, sp, k + 1, (acc.0, Some(x), acc.2, acc.3, acc.4)),
            }
        } else if t == DINF@ {
            match spec_parse_dinf(bb) {
                Err(e) => Err(e),
                Ok(x) => minf_fold(body, sp, k + 1, (acc.0, acc.1, Some(x), acc.3, acc.4)),
            }
        } else if t == STBL@ {
            match spec_parse_stbl(bb) {
                Err(e) => Err(e),
                Ok(x) => minf_fold(body, sp, k + 1, (acc.0, acc.1, acc.2, Some(x), acc.4)),
            }
        } else {
            minf_fold(body, sp, k + 1, (acc.0, acc.1, acc.2, acc.3, acc.4.push(opaque_at(body, p))))
        }
    }
}

/// Outcome of parsing a `minf` box (header included): a typed child
/// that fails to parse fails the whole box.
#[verifier::opaque]
pub open spec fn spec_parse_minf(b: Seq<u8>) -> Result<MinfView, Error> {
    if b.len() < 8 {
        Err(Error::BufferTooShort { need: 8, have: b.len() as usize, what: "minf" })
    } else {
        let body = b.skip(8);
        match minf_fold(body, child_spans(body, 0), 0, (None, None, None, None, Seq::empty())) {
            Err(e) => Err(e),
            Ok(a) => Ok((a.0, a.1, a.2, a.3, a.4)),
        }
    }
}

impl MediaInformationBox {
    /// Parse a `minf` box.
    pub fn parse(bytes: &[u8]) -> (r: Result<Self, Error>)
        ensures
            match spec_parse_minf(bytes@) {
                Ok(v) => r matches Ok(x) && x@ == v,
                Err(e) => r == Err::<Self, Error>(e),
            },
    {
        reveal(spec_parse_minf);
        if bytes.len() < 8 {
            return Err(Error::BufferTooShort { need: 8, have: bytes.len(), what: "minf" });
        }
        let body = &bytes[8..bytes.len()];
        assert(body@ =~= bytes@.skip(8));
        let spans = walk_children(body, 0);
        proof {
            lemma_child_spans_bounds(body@, 0);
        }
        let ghost sp = child_spans(body@, 0);
        let mut vmhd: Option<VideoMediaHeaderBox> = None;
        let mut smhd: Option<SoundMediaHeaderBox> = None;
        let mut dinf: Option<DataInformationBox> = None;
        let mut stbl: Option<SampleTableBox> = None;
        let mut opaque: Vec<OpaqueBox> = Vec::new();
        assert(opaque_views(opaque@) =~= Seq::<(Seq<u8>, Seq<u8>)>::empty());
        let mut i: usize = 0;
        while i < spans.len()
            invariant
                i <= spans@.len(),
                spans@.len() == sp.len(),
                sp == child_spans(body@, 0),
                body@ == bytes@.skip(8),
                bytes@.len() >= 8,
                forall|j: int| 0 <= j < spans@.len() ==> (#[trigger] spans@[j]).0 as int == sp[j].0 && spans@[j].1 as int == sp[j].1,
                forall|j: int| 0 <= j < sp.len() ==> {
                    let p = #[trigger] sp[j];
                    0 <= p.0 && p.0 + 8 <= p.1 <= body@.len()
                },
                minf_fold(body@, sp, 0, (None, None, None, None, Seq::empty())) == minf_fold(body@, sp, i as nat, (match vmhd {
                    Some(x) => Some(x@),
                    None => None,
                }, match smhd {
                    Some(x) => Some(x),
                    None => None,
                }, match dinf {
                    Some(x) => Some(x@),
                    None => None,
                }, match stbl {
                    Some(x) => Some(x@),
                    None => None,
                }, opaque_views(opaque@))),
            decreases spans@.len() - i,
        {
            reveal_with_fuel(minf_fold, 2);
            reveal(spec_parse_minf);
            let (a, e) = spans[i];
            assert(sp[i as int].0 + 8 <= sp[i as int].1);
            assert((a as int, e as int) == sp[i as int]);
            let t = read_type(body, a);
            if crate::box_types::fourcc_eq(&t, &VMHD) {
                match VideoMediaHeaderBox::parse(&body[a..e]) {
                    Ok(x) => {
                        vmhd = Some(x);
                    },
                    Err(err) => {
                        return Err(err);
                    },
                }
            } else if crate::box_types::fourcc_eq(&t, &SMHD) {
                match SoundMediaHeaderBox::parse(&body[a..e]) {
                    Ok(x) => {
                        smhd = Some(x);
                    },
                    Err(err) => {
                        return Err(err);
                    },
                }
            } else if crate::box_types::fourcc_eq(&t, &DINF) {
                match DataInformationBox::parse(&body[a..e]) {
                    Ok(x) => {
                        dinf = Some(x);
                    },
                    Err(err) => {
                        return Err(err);
                    },
                }
            } else if crate::box_types::fourcc_eq(&t, &STBL) {
                match SampleTableBox::parse(&body[a..e]) {
                    Ok(x) => {
                        stbl = Some(x);
                    },
                    Err(err) => {
                        return Err(err);
                    },
                }
            } else {
                let ghost prev = opaque@;
                let o = opaque_from(body, a, e);
                opaque.push(o);
                assert(opaque_views(opaque@) =~= opaque_views(prev).push(o@));
            }
            i += 1;
        }
        reveal_with_fuel(minf_fold, 2);
        Ok(MediaInformationBox { vmhd, smhd, dinf, stbl, opaque })
    }

    /// Append the encoded box to `out`.
    pub fn write_to(&self, out: &mut Vec<u8>)
        ensures
            final(out)@ == old(out)@ + minf_bytes(self@),
    {
        let mut body: Vec<u8> = Vec::new();
        if let Some(x) = &self.vmhd {
            x.write_to(&mut body);
        }
        if let Some(x) = &self.smhd {
            x.write_to(&mut body);
        }
        if let Some(x) = &self.dinf {
            x.write_to(&mut body);
        }
        if let Some(x) = &self.stbl {
            x.write_to(&mut body);
        }
        push_opaques(&mut body, &self.opaque);
        assert(body@ =~= minf_body_bytes(self@));
        let ghost start = out@;
        push32(out, size_field(body.len(), 8));
        push_all(out, &MINF);
        push_all(out, body.as_slice());
        assert(out@ =~= start + minf_bytes(self@));
    }

    /// The encoded box.
    pub fn to_bytes(&self) -> (r: Vec<u8>)
        ensures
            r@ == minf_bytes(self@),
    {
        let mut out: Vec<u8> = Vec::new();
        self.write_to(&mut out);
        assert(out@ =~= minf_bytes(self@));
        out
    }

    /// Encoded size.
    pub fn serialized_len(&self) -> (r: usize)
        ensures
            r == minf_bytes(self@).len(),
    {
        self.to_bytes().len()
    }

    /// Write the encoded box to the front of `buf`.
    pub fn serialize_into(&self, buf: &mut Vec<u8>) -> (r: Result<usize, Error>)
        ensures
            prefix_written(old(buf)@, final(buf)@, minf_bytes(self@), r),
    {
        let b = self.to_bytes();
        write_prefix(buf, b.as_slice())
    }
}

/// Box type `mdia`.
pub const MDIA: [u8; 4] = [0x6D, 0x64, 0x69, 0x61];

/// Media Box (`mdia`, §8.4.1).
#[derive(Debug, Clone, PartialEq, Eq)]
pub struct MediaBox {
    pub mdhd: Option<MediaHeaderBox>,
    pub hdlr: Option<HandlerBox>,
    pub minf: Option<MediaInformationBox>,
    pub opaque: Vec<OpaqueBox>,
}

/// The model of a `mdia` box: its typed children, then the others.
pub type MdiaView = (Option<MediaHeaderBox>, Option<HdlrView>, Option<MinfView>, Seq<(Seq<u8>, Seq<u8>)>);

/// A `mdia` walk's state: the typed children seen so far (the last of
/// each kind wins), then the others in order.
pub type MdiaViewAcc = (Option<MediaHeaderBox>, Option<HdlrView>, Option<MinfView>, Seq<(Seq<u8>, Seq<u8>)>);

impl View for MediaBox {
    type V = MdiaView;

    open spec fn view(&self) -> MdiaView {
        (
            match self.mdhd {
                Some(x) => Some(x),
                None => None,
            },
            match self.hdlr {
                Some(x) => Some(x@),
                None => None,
            },
            match self.minf {
                Some(x) => Some(x@),
                None => None,
            },
            opaque_views(self.opaque@),
        )
    }
}

/// The children of a `mdia` as written, in field order.
pub open spec fn mdia_body_bytes(v: MdiaView) -> Seq<u8> {
    (match v.0 { Some(x) => mdhd_bytes(x), None => Seq::empty() }) + (match v.1 { Some(x) => hdlr_bytes(x), None => Seq::empty() }) + (match v.2 { Some(x) => minf_bytes(x), None => Seq::empty() }) + (opaques_bytes(v.3))
}

/// The `mdia` bytes as written.
pub open spec fn mdia_bytes(v: MdiaView) -> Seq<u8> {
    box_head(8 + mdia_body_bytes(v).len(), MDIA@) + mdia_body_bytes(v)
}

/// Walking the child spans `sp` of a `mdia` body from child `k`.
#[verifier::opaque]
pub open spec fn mdia_fold(body: Seq<u8>, sp: Seq<(int, int)>, k: nat, acc: MdiaViewAcc) -> Result<MdiaViewAcc, Error>
    decreases sp.len() - k,
{
    if k >= sp.len() {
        Ok(acc)
    } else {
        let p = sp[k as int];
        let bb = body.subrange(p.0, p.1);
        let t = body.subrange(p.0 + 4, p.0 + 8);
        if t == MDHD@ {
            match spec_parse_mdhd(bb) {
                Err(e) => Err(e),
                Ok(x) => mdia_fold(body, sp, k + 1, (Some(x), acc.1, acc.2, acc.3)),
            }
        } else if t == HDLR@ {
            match spec_parse_hdlr(bb) {
                Err(e) => Err(e),
                Ok(x) => mdia_fold(body, sp, k + 1, (acc.0, Some(x), acc.2, acc.3)),
            }
        } else if t == MINF@ {
            match spec_parse_minf(bb) {
                Err(e) => Err(e),
                Ok(x) => mdia_fold(body, sp, k + 1, (acc.0, acc.1, Some(x), acc.3)),
            }
        } else {
            mdia_fold(body, sp, k + 1, (acc.0, acc.1, acc.2, acc.3.push(opaque_at(body, p))))
        }
    }
}

/// Outcome of parsing a `mdia` box (header included): a typed child
/// that fails to parse fails the whole box.
#[verifier::opaque]
pub open spec fn spec_parse_mdia(b: Seq<u8>) -> Result<MdiaView, Error> {
    if b.len() < 8 {
        Err(Error::BufferTooShort { need: 8, have: b.len() as usize, what: "mdia" })
    } else {
        let body = b.skip(8);
        match mdia_fold(body, child_spans(body, 0), 0, (None, None, None, Seq::empty())) {
            Err(e) => Err(e),
            Ok(a) => Ok((a.0, a.1, a.2, a.3)),
        }
    }
}

impl MediaBox {
    /// Parse a `mdia` box.
    pub fn parse(bytes: &[u8]) -> (r: Result<Self, Error>)
        ensures
            match spec_parse_mdia(bytes@) {
                Ok(v) => r matches Ok(x) && x@ == v,
                Err(e) => r == Err::<Self, Error>(e),
            },
    {
        reveal(spec_parse_mdia);
        if bytes.len() < 8 {
            return Err(Error::BufferTooShort { need: 8, have: bytes.len(), what: "mdia" });
        }
        let body = &bytes[8..bytes.len()];
        assert(body@ =~= bytes@.skip(8));
        let spans = walk_children(body, 0);
        proof {
            lemma_child_spans_bounds(body@, 0);
        }
        let ghost sp = child_spans(body@, 0);
        let mut mdhd: Option<MediaHeaderBox> = None;
        let mut hdlr: Option<HandlerBox> = None;
        let mut minf: Option<MediaInformationBox> = None;
        let mut opaque: Vec<OpaqueBox> = Vec::new();
        assert(opaque_views(opaque@) =~= Seq::<(Seq<u8>, Seq<u8>)>::empty());
        let mut i: usize = 0;
        while i < spans.len()
            invariant
                i <= spans@.len(),
                spans@.len() == sp.len(),
                sp == child_spans(body@, 0),
                body@ == bytes@.skip(8),
                bytes@.len() >= 8,
                forall|j: int| 0 <= j < spans@.len() ==> (#[trigger] spans@[j]).0 as int == sp[j].0 && spans@[j].1 as int == sp[j].1,
                forall|j: int| 0 <= j < sp.len() ==> {
                    let p = #[trigger] sp[j];
                    0 <= p.0 && p.0 + 8 <= p.1 <= body@.len()
                },
                mdia_fold(body@, sp, 0, (None, None, None, Seq::empty())) == mdia_fold(body@, sp, i as nat, (match mdhd {
                    Some(x) => Some(x),
                    None => None,
                }, match hdlr {
                    Some(x) => Some(x@),
                    None => None,
                }, match minf {
                    Some(x) => Some(x@),
                    None => None,
                }, opaque_views(opaque@))),
            decreases spans@.len() - i,
        {
            reveal_with_fuel(mdia_fold, 2);
            reveal(spec_parse_mdia);
            let (a, e) = spans[i];
            assert(sp[i as int].0 + 8 <= sp[i as int].1);
            assert((a as int, e as int) == sp[i as int]);
            let t = read_type(body, a);
            if crate::box_types::fourcc_eq(&t, &MDHD) {
                match MediaHeaderBox::parse(&body[a..e]) {
                    Ok(x) => {
                        mdhd = Some(x);
                    },
                    Err(err) => {
                        return Err(err);
                    },
                }
            } else if crate::box_types::fourcc_eq(&t, &HDLR) {
                match HandlerBox::parse(&body[a..e]) {
                    Ok(x) => {
                        hdlr = Some(x);
                    },
                    Err(err) => {
                        return Err(err);
                    },
                }
            } else if crate::box_types::fourcc_eq(&t, &MINF) {
                match MediaInformationBox::parse(&body[a..e]) {
                    Ok(x) => {
                        minf = Some(x);
                    },
                    Err(err) => {
                        return Err(err);
                    },
                }
            } else {
                let ghost prev = opaque@;
                let o = opaque_from(body, a, e);
                opaque.push(o);
                assert(opaque_views(opaque@) =~= opaque_views(prev).push(o@));
            }
            i += 1;
        }
        reveal_with_fuel(mdia_fold, 2);
        Ok(MediaBox { mdhd, hdlr, minf, opaque })
    }

    /// Append the encoded box to `out`.
    pub fn write_to(&self, out: &mut Vec<u8>)
        ensures
            final(out)@ == old(out)@ + mdia_bytes(self@),
    {
        let mut body: Vec<u8> = Vec::new();
        if let Some(x) = &self.mdhd {
            x.write_to(&mut body);
        }
        if let Some(x) = &self.hdlr {
            x.write_to(&mut body);
        }
        if let Some(x) = &self.minf {
            x.write_to(&mut body);
        }
        push_opaques(&mut body, &self.opaque);
        assert(body@ =~= mdia_body_bytes(self@));
        let ghost start = out@;
        push32(out, size_field(body.len(), 8));
        push_all(out, &MDIA);
        push_all(out, body.as_slice());
        assert(out@ =~= start + mdia_bytes(self@));
    }

    /// The encoded box.
    pub fn to_bytes(&self) -> (r: Vec<u8>)
        ensures
            r@ == mdia_bytes(self@),
    {
        let mut out: Vec<u8> = Vec::new();
        self.write_to(&mut out);
        assert(out@ =~= mdia_bytes(self@));
        out
    }

    /// Encoded size.
    pub fn serialized_len(&self) -> (r: usize)
        ensures
            r == mdia_bytes(self@).len(),
    {
        self.to_bytes().len()
    }

    /// Write the encoded box to the front of `buf`.
    pub fn serialize_into(&self, buf: &mut Vec<u8>) -> (r: Result<usize, Error>)
        ensures
            prefix_written(old(buf)@, final(buf)@, mdia_bytes(self@), r),
    {
        let b = self.to_bytes();
        write_prefix(buf, b.as_slice())
    }
}

/// Box type `edts`.
pub const EDTS: [u8; 4] = [0x65, 0x64, 0x74, 0x73];

/// Edit Box (`edts`, §8.6.5); its edit list (`elst`) is kept verbatim.
#[derive(Debug, Clone, PartialEq, Eq)]
pub struct EditBox {
    pub elst: Option<OpaqueBox>,
    pub opaque: Vec<OpaqueBox>,
}

/// The model of a `edts` box: its typed children, then the others.
pub type EdtsView = (Option<(Seq<u8>, Seq<u8>)>, Seq<(Seq<u8>, Seq<u8>)>);

/// A `edts` walk's state: the typed children seen so far (the last of
/// each kind wins), then the others in order.
pub type EdtsViewAcc = (Option<(Seq<u8>, Seq<u8>)>, Seq<(Seq<u8>, Seq<u8>)>);

impl View for EditBox {
    type V = EdtsView;

    open spec fn view(&self) -> EdtsView {
        (
            match self.elst {
                Some(x) => Some(x@),
                None => None,
            },
            opaque_views(self.opaque@),
        )
    }
}

/// The children of a `edts` as written, in field order.
pub open spec fn edts_body_bytes(v: EdtsView) -> Seq<u8> {
    (match v.0 { Some(x) => opaque_bytes(x), None => Seq::empty() }) + (opaques_bytes(v.1))
}

/// The `edts` bytes as written.
pub open spec fn edts_bytes(v: EdtsView) -> Seq<u8> {
    box_head(8 + edts_body_bytes(v).len(), EDTS@) + edts_body_bytes(v)
}

/// Walking the child spans `sp` of a `edts` body from child `k`.
#[verifier::opaque]
pub open spec fn edts_fold(body: Seq<u8>, sp: Seq<(int, int)>, k: nat, acc: EdtsViewAcc) -> Result<EdtsViewAcc, Error>
    decreases sp.len() - k,
{
    if k >= sp.len() {
        Ok(acc)
    } else {
        let p = sp[k as int];
        let bb = body.subrange(p.0, p.1);
        let t = body.subrange(p.0 + 4, p.0 + 8);
        if t == ELST@ {
            edts_fold(body, sp, k + 1, (Some(opaque_at(body, p)), acc.1))
        } else {
            edts_fold(body, sp, k + 1, (acc.0, acc.1.push(opaque_at(body, p))))
        }
    }
}

/// Outcome of parsing a `edts` box (header included): a typed child
/// that fails to parse fails the whole box.
#[verifier::opaque]
pub open spec fn spec_parse_edts(b: Seq<u8>) -> Result<EdtsView, Error> {
    if b.len() < 8 {
        Err(Error::BufferTooShort { need: 8, have: b.len() as usize, what: "edts" })
    } else {
        let body = b.skip(8);
        match edts_fold(body, child_spans(body, 0), 0, (None, Seq::empty())) {
            Err(e) => Err(e),
            Ok(a) => Ok((a.0, a.1)),
        }
    }
}

impl EditBox {
    /// Parse a `edts` box.
    pub fn parse(bytes: &[u8]) -> (r: Result<Self, Error>)
        ensures
            match spec_parse_edts(bytes@) {
                Ok(v) => r matches Ok(x) && x@ == v,
                Err(e) => r == Err::<Self, Error>(e),
            },
    {
        reveal(spec_parse_edts);
        if bytes.len() < 8 {
            return Err(Error::BufferTooShort { need: 8, have: bytes.len(), what: "edts" });
        }
        let body = &bytes[8..bytes.len()];
        assert(body@ =~= bytes@.skip(8));
        let spans = walk_children(body, 0);
        proof {
            lemma_child_spans_bounds(body@, 0);
        }
        let ghost sp = child_spans(body@, 0);
        let mut elst: Option<OpaqueBox> = None;
        let mut opaque: Vec<OpaqueBox> = Vec::new();
        assert(opaque_views(opaque@) =~= Seq::<(Seq<u8>, Seq<u8>)>::empty());
        let mut i: usize = 0;
        while i < spans.len()
            invariant
                i <= spans@.len(),
                spans@.len() == sp.len(),
                sp == child_spans(body@, 0),
                body@ == bytes@.skip(8),
                bytes@.len() >= 8,
                forall|j: int| 0 <= j < spans@.len() ==> (#[trigger] spans@[j]).0 as int == sp[j].0 && spans@[j].1 as int == sp[j].1,
                forall|j: int| 0 <= j < sp.len() ==> {
                    let p = #[trigger] sp[j];
                    0 <= p.0 && p.0 + 8 <= p.1 <= body@.len()
                },
                edts_fold(body@, sp, 0, (None, Seq::empty())) == edts_fold(body@, sp, i as nat, (match elst {
                    Some(x) => Some(x@),
                    None => None,
                }, opaque_views(opaque@))),
            decreases spans@.len() - i,
        {
            reveal_with_fuel(edts_fold, 2);
            reveal(spec_parse_edts);
            let (a, e) = spans[i];
            assert(sp[i as int].0 + 8 <= sp[i as int].1);
            assert((a as int, e as int) == sp[i as int]);
            let t = read_type(body, a);
            if crate::box_types::fourcc_eq(&t, &ELST) {
                elst = Some(opaque_from(body, a, e));
            } else {
                let ghost prev = opaque@;
                let o = opaque_from(body, a, e);
                opaque.push(o);
                assert(opaque_views(opaque@) =~= opaque_views(prev).push(o@));
            }
            i += 1;
        }
        reveal_with_fuel(edts_fold, 2);
        Ok(EditBox { elst, opaque })
    }

    /// Append the encoded box to `out`.
    pub fn write_to(&self, out: &mut Vec<u8>)
        ensures
            final(out)@ == old(out)@ + edts_bytes(self@),
    {
        let mut body: Vec<u8> = Vec::new();
        if let Some(x) = &self.elst {
            x.write_to(&mut body);
        }
        push_opaques(&mut body, &self.opaque);
        assert(body@ =~= edts_body_bytes(self@));
        let ghost start = out@;
        push32(out, size_field(body.len(), 8));
        push_all(out, &EDTS);
        push_all(out, body.as_slice());
        assert(out@ =~= start + edts_bytes(self@));
    }

    /// The encoded box.
    pub fn to_bytes(&self) -> (r: Vec<u8>)
        ensures
            r@ == edts_bytes(self@),
    {
        let mut out: Vec<u8> = Vec::new();
        self.write_to(&mut out);
        assert(out@ =~= edts_bytes(self@));
        out
    }

    /// Encoded size.
    pub fn serialized_len(&self) -> (r: usize)
        ensures
            r == edts_bytes(self@).len(),
    {
        self.to_bytes().len()
    }

    /// Write the encoded box to the front of `buf`.
    pub fn serialize_into(&self, buf: &mut Vec<u8>) -> (r: Result<usize, Error>)
        ensures
            prefix_written(old(buf)@, final(buf)@, edts_bytes(self@), r),
    {
        let b = self.to_bytes();
        write_prefix(buf, b.as_slice())
    }
}

/// Box type `trak`.
pub const TRAK: [u8; 4] = [0x74, 0x72, 0x61, 0x6B];

/// Track Box (`trak`, §8.3.1); a track header is required.
#[derive(Debug, Clone, PartialEq, Eq)]
pub struct TrackBox {
    pub tkhd: TrackHeaderBox,
    pub edts: Option<EditBox>,
    pub mdia: Option<MediaBox>,
    pub opaque: Vec<OpaqueBox>,
}

/// The model of a `trak` box: its typed children, then the others.
pub type TrakView = (TkhdView, Option<EdtsView>, Option<MdiaView>, Seq<(Seq<u8>, Seq<u8>)>);

/// A `trak` walk's state: the typed children seen so far (the last of
/// each kind wins), then the others in order.
pub type TrakViewAcc = (Option<TkhdView>, Option<EdtsView>, Option<MdiaView>, Seq<(Seq<u8>, Seq<u8>)>);

impl View for TrackBox {
    type V = TrakView;

    open spec fn view(&self) -> TrakView {
        (
            self.tkhd@,
            match self.edts {
                Some(x) => Some(x@),
                None => None,
            },
            match self.mdia {
                Some(x) => Some(x@),
                None => None,
            },
            opaque_views(self.opaque@),
        )
    }
}

/// The children of a `trak` as written, in field order.
pub open spec fn trak_body_bytes(v: TrakView) -> Seq<u8> {
    (tkhd_bytes(v.0)) + (match v.1 { Some(x) => edts_bytes(x), None => Seq::empty() }) + (match v.2 { Some(x) => mdia_bytes(x), None => Seq::empty() }) + (opaques_bytes(v.3))
}

/// The `trak` bytes as written.
pub open spec fn trak_bytes(v: TrakView) -> Seq<u8> {
    box_head(8 + trak_body_bytes(v).len(), TRAK@) + trak_body_bytes(v)
}

/// Walking the child spans `sp` of a `trak` body from child `k`.
#[verifier::opaque]
pub open spec fn trak_fold(body: Seq<u8>, sp: Seq<(int, int)>, k: nat, acc: TrakViewAcc) -> Result<TrakViewAcc, Error>
    decreases sp.len() - k,
{
    if k >= sp.len() {
        Ok(acc)
    } else {
        let p = sp[k as int];
        let bb = body.subrange(p.0, p.1);
        let t = body.subrange(p.0 + 4, p.0 + 8);
        if t == TKHD@ {
            match spec_parse_tkhd(bb) {
                Err(e) => Err(e),
                Ok(x) => trak_fold(body, sp, k + 1, (Some(x), acc.1, acc.2, acc.3)),
            }
        } else if t == EDTS@ {
            match spec_parse_edts(bb) {
                Err(e) => Err(e),
                Ok(x) => trak_fold(body, sp, k + 1, (acc.0, Some(x), acc.2, acc.3)),
            }
        } else if t == MDIA@ {
            match spec_parse_mdia(bb) {
                Err(e) => Err(e),
                Ok(x) => trak_fold(body, sp, k + 1, (acc.0, acc.1, Some(x), acc.3)),
            }
        } else {
            trak_fold(body, sp, k + 1, (acc.0, acc.1, acc.2, acc.3.push(opaque_at(body, p))))
        }
    }
}

/// Outcome of parsing a `trak` box (header included): a typed child
/// that fails to parse fails the whole box.
#[verifier::opaque]
pub open spec fn spec_parse_trak(b: Seq<u8>) -> Result<TrakView, Error> {
    if b.len() < 8 {
        Err(Error::BufferTooShort { need: 8, have: b.len() as usize, what: "trak" })
    } else {
        let body = b.skip(8);
        match trak_fold(body, child_spans(body, 0), 0, (None, None, None, Seq::empty())) {
            Err(e) => Err(e),
            Ok(a) => if a.0 is None {
                Err(Error::BufferTooShort { need: 0, have: 0, what: "trak missing tkhd" })
            } else {
                Ok((a.0->0, a.1, a.2, a.3))
            },
        }
    }
}

impl TrackBox {
    /// Parse a `trak` box.
    pub fn parse(bytes: &[u8]) -> (r: Result<Self, Error>)
        ensures
            match spec_parse_trak(bytes@) {
                Ok(v) => r matches Ok(x) && x@ == v,
                Err(e) => r == Err::<Self, Error>(e),
            },
    {
        reveal(spec_parse_trak);
        if bytes.len() < 8 {
            return Err(Error::BufferTooShort { need: 8, have: bytes.len(), what: "trak" });
        }
        let body = &bytes[8..bytes.len()];
        assert(body@ =~= bytes@.skip(8));
        let spans = walk_children(body, 0);
        proof {
            lemma_child_spans_bounds(body@, 0);
        }
        let ghost sp = child_spans(body@, 0);
        let mut tkhd: Option<TrackHeaderBox> = None;
        let mut edts: Option<EditBox> = None;
        let mut mdia: Option<MediaBox> = None;
        let mut opaque: Vec<OpaqueBox> = Vec::new();
        assert(opaque_views(opaque@) =~= Seq::<(Seq<u8>, Seq<u8>)>::empty());
        let mut i: usize = 0;
        while i < spans.len()
            invariant
                i <= spans@.len(),
                spans@.len() == sp.len(),
                sp == child_spans(body@, 0),
                body@ == bytes@.skip(8),
                bytes@.len() >= 8,
                forall|j: int| 0 <= j < spans@.len() ==> (#[trigger] spans@[j]).0 as int == sp[j].0 && spans@[j].1 as int == sp[j].1,
                forall|j: int| 0 <= j < sp.len() ==> {
                    let p = #[trigger] sp[j];
                    0 <= p.0 && p.0 + 8 <= p.1 <= body@.len()
                },
                trak_fold(body@, sp, 0, (None, None, None, Seq::empty())) == trak_fold(body@, sp, i as nat, (match tkhd {
                    Some(x) => Some(x@),
                    None => None,
                }, match edts {
                    Some(x) => Some(x@),
                    None => None,
                }, match mdia {
                    Some(x) => Some(x@),
                    None => None,
                }, opaque_views(opaque@))),
            decreases spans@.len() - i,
        {
            reveal_with_fuel(trak_fold, 2);
            reveal(spec_parse_trak);
            let (a, e) = spans[i];
            assert(sp[i as int].0 + 8 <= sp[i as int].1);
            assert((a as int, e as int) == sp[i as int]);
            let t = read_type(body, a);
            if crate::box_types::fourcc_eq(&t, &TKHD) {
                match TrackHeaderBox::parse(&body[a..e]) {
                    Ok(x) => {
                        tkhd = Some(x);
                    },
                    Err(err) => {
                        return Err(err);
                    },
                }
            } else if crate::box_types::fourcc_eq(&t, &EDTS) {
                match EditBox::parse(&body[a..e]) {
                    Ok(x) => {
                        edts = Some(x);
                    },
                    Err(err) => {
                        return Err(err);
                    },
                }
            } else if crate::box_types::fourcc_eq(&t, &MDIA) {
                match MediaBox::parse(&body[a..e]) {
                    Ok(x) => {
                        mdia = Some(x);
                    },
                    Err(err) => {
                        return Err(err);
                    },
                }
            } else {
                let ghost prev = opaque@;
                let o = opaque_from(body, a, e);
                opaque.push(o);
                assert(opaque_views(opaque@) =~= opaque_views(prev).push(o@));
            }
            i += 1;
        }
        reveal_with_fuel(trak_fold, 2);
        let tkhd = match tkhd {
            Some(x) => x,
            None => {
                return Err(Error::BufferTooShort { need: 0, have: 0, what: "trak missing tkhd" });
            },
        };
        Ok(TrackBox { tkhd, edts, mdia, opaque })
    }

    /// Append the encoded box to `out`.
    pub fn write_to(&self, out: &mut Vec<u8>)
        ensures
            final(out)@ == old(out)@ + trak_bytes(self@),
    {
        let mut body: Vec<u8> = Vec::new();
        self.tkhd.write_to(&mut body);
        if let Some(x) = &self.edts {
            x.write_to(&mut body);
        }
        if let Some(x) = &self.mdia {
            x.write_to(&mut body);
        }
        push_opaques(&mut body, &self.opaque);
        assert(body@ =~= trak_body_bytes(self@));
        let ghost start = out@;
        push32(out, size_field(body.len(), 8));
        push_all(out, &TRAK);
        push_all(out, body.as_slice());
        assert(out@ =~= start + trak_bytes(self@));
    }

    /// The encoded box.
    pub fn to_bytes(&self) -> (r: Vec<u8>)
        ensures
            r@ == trak_bytes(self@),
    {
        let mut out: Vec<u8> = Vec::new();
        self.write_to(&mut out);
        assert(out@ =~= trak_bytes(self@));
        out
    }

    /// Encoded size.
    pub fn serialized_len(&self) -> (r: usize)
        ensures
            r == trak_bytes(self@).len(),
    {
        self.to_bytes().len()
    }

    /// Write the encoded box to the front of `buf`.
    pub fn serialize_into(&self, buf: &mut Vec<u8>) -> (r: Result<usize, Error>)
        ensures
            prefix_written(old(buf)@, final(buf)@, trak_bytes(self@), r),
    {
        let b = self.to_bytes();
        write_prefix(buf, b.as_slice())
    }
}

/// Box type `mvex`.
pub const MVEX: [u8; 4] = [0x6D, 0x76, 0x65, 0x78];

/// `trex` entries, each encoded, in order.
pub open spec fn trex_list_bytes(s: Seq<TrackExtendsBox>) -> Seq<u8>
    decreases s.len(),
{
    if s.len() == 0 {
        Seq::empty()
    } else {
        trex_list_bytes(s.drop_last()) + trex_bytes(s.last())
    }
}

/// Movie Extends Box (`mvex`, §8.8.1): one `trex` per track; other children (such as `mehd`) are kept verbatim and written after the `trex` list.
#[derive(Debug, Clone, PartialEq, Eq)]
pub struct MovieExtendsBox {
    pub trex: Vec<TrackExtendsBox>,
    pub opaque: Vec<OpaqueBox>,
}

/// The model of a `mvex` box: its typed children, then the others.
pub type MvexView = (Seq<TrackExtendsBox>, Seq<(Seq<u8>, Seq<u8>)>);

/// A `mvex` walk's state: the typed children seen so far (the last of
/// each kind wins), then the others in order.
pub type MvexViewAcc = (Seq<TrackExtendsBox>, Seq<(Seq<u8>, Seq<u8>)>);

impl View for MovieExtendsBox {
    type V = MvexView;

    open spec fn view(&self) -> MvexView {
        (
            self.trex@.map_values(|x: TrackExtendsBox| x),
            opaque_views(self.opaque@),
        )
    }
}

/// The children of a `mvex` as written, in field order.
pub open spec fn mvex_body_bytes(v: MvexView) -> Seq<u8> {
    (trex_list_bytes(v.0)) + (opaques_bytes(v.1))
}

/// The `mvex` bytes as written.
pub open spec fn mvex_bytes(v: MvexView) -> Seq<u8> {
    box_head(8 + mvex_body_bytes(v).len(), MVEX@) + mvex_body_bytes(v)
}

/// Walking the child spans `sp` of a `mvex` body from child `k`.
#[verifier::opaque]
pub open spec fn mvex_fold(body: Seq<u8>, sp: Seq<(int, int)>, k: nat, acc: MvexViewAcc) -> Result<MvexViewAcc, Error>
    decreases sp.len() - k,
{
    if k >= sp.len() {
        Ok(acc)
    } else {
        let p = sp[k as int];
        let bb = body.subrange(p.0, p.1);
        let t = body.subrange(p.0 + 4, p.0 + 8);
        if t == TREX@ {
            match spec_parse_trex(bb) {
                Err(e) => Err(e),
                Ok(x) => mvex_fold(body, sp, k + 1, (acc.0.push(x), acc.1)),
            }
        } else {
            mvex_fold(body, sp, k + 1, (acc.0, acc.1.push(opaque_at(body, p))))
        }
    }
}

/// Outcome of parsing a `mvex` box (header included): a typed child
/// that fails to parse fails the whole box.
#[verifier::opaque]
pub open spec fn spec_parse_mvex(b: Seq<u8>) -> Result<MvexView, Error> {
    if b.len() < 8 {
        Err(Error::BufferTooShort { need: 8, have: b.len() as usize, what: "mvex" })
    } else {
        let body = b.skip(8);
        match mvex_fold(body, child_spans(body, 0), 0, (Seq::empty(), Seq::empty())) {
            Err(e) => Err(e),
            Ok(a) => Ok((a.0, a.1)),
        }
    }
}

impl MovieExtendsBox {
    /// Parse a `mvex` box.
    pub fn parse(bytes: &[u8]) -> (r: Result<Self, Error>)
        ensures
            match spec_parse_mvex(bytes@) {
                Ok(v) => r matches Ok(x) && x@ == v,
                Err(e) => r == Err::<Self, Error>(e),
            },
    {
        reveal(spec_parse_mvex);
        if bytes.len() < 8 {
            return Err(Error::BufferTooShort { need: 8, have: bytes.len(), what: "mvex" });
        }
        let body = &bytes[8..bytes.len()];
        assert(body@ =~= bytes@.skip(8));
        let spans = walk_children(body, 0);
        proof {
            lemma_child_spans_bounds(body@, 0);
        }
        let ghost sp = child_spans(body@, 0);
        let mut trex: Vec<TrackExtendsBox> = Vec::new();
        let mut opaque: Vec<OpaqueBox> = Vec::new();
        assert(opaque_views(opaque@) =~= Seq::<(Seq<u8>, Seq<u8>)>::empty());
        assert(trex@.map_values(|x: TrackExtendsBox| x) =~= Seq::<TrackExtendsBox>::empty());
        let mut i: usize = 0;
        while i < spans.len()
            invariant
                i <= spans@.len(),
                spans@.len() == sp.len(),
                sp == child_spans(body@, 0),
                body@ == bytes@.skip(8),
                bytes@.len() >= 8,
                forall|j: int| 0 <= j < spans@.len() ==> (#[trigger] spans@[j]).0 as int == sp[j].0 && spans@[j].1 as int == sp[j].1,
                forall|j: int| 0 <= j < sp.len() ==> {
                    let p = #[trigger] sp[j];
                    0 <= p.0 && p.0 + 8 <= p.1 <= body@.len()
                },
                mvex_fold(body@, sp, 0, (Seq::empty(), Seq::empty())) == mvex_fold(body@, sp, i as nat, (trex@.map_values(|x: TrackExtendsBox| x), opaque_views(opaque@))),
            decreases spans@.len() - i,
        {
            reveal_with_fuel(mvex_fold, 2);
            reveal(spec_parse_mvex);
            let (a, e) = spans[i];
            assert(sp[i as int].0 + 8 <= sp[i as int].1);
            assert((a as int, e as int) == sp[i as int]);
            let t = read_type(body, a);
            if crate::box_types::fourcc_eq(&t, &TREX) {
                match TrackExtendsBox::parse(&body[a..e]) {
                    Ok(x) => {
                        let ghost prev = trex@;
                        let ghost xv = x;
                        trex.push(x);
                        assert(trex@.map_values(|y: TrackExtendsBox| y) =~= prev.map_values(|y: TrackExtendsBox| y).push(xv));
                    },
                    Err(err) => {
                        return Err(err);
                    },
                }
            } else {
                let ghost prev = opaque@;
                let o = opaque_from(body, a, e);
                opaque.push(o);
                assert(opaque_views(opaque@) =~= opaque_views(prev).push(o@));
            }
            i += 1;
        }
        reveal_with_fuel(mvex_fold, 2);
        Ok(MovieExtendsBox { trex, opaque })
    }

    /// Append the encoded box to `out`.
    pub fn write_to(&self, out: &mut Vec<u8>)
        ensures
            final(out)@ == old(out)@ + mvex_bytes(self@),
    {
        let mut body: Vec<u8> = Vec::new();
        let ghost s0 = self@.0;
        let ghost before0 = body@;
        let mut i0: usize = 0;
        while i0 < self.trex.len()
            invariant
                i0 <= self.trex@.len(),
                s0 == self@.0,
                body@ == before0 + trex_list_bytes(s0.take(i0 as int)),
            decreases self.trex@.len() - i0,
        {
            self.trex[i0].write_to(&mut body);
            assert(s0.take(i0 + 1int).drop_last() =~= s0.take(i0 as int));
            i0 += 1;
            assert(body@ =~= before0 + trex_list_bytes(s0.take(i0 as int)));
        }
        assert(s0.take(i0 as int) =~= s0);
        push_opaques(&mut body, &self.opaque);
        assert(body@ =~= mvex_body_bytes(self@));
        let ghost start = out@;
        push32(out, size_field(body.len(), 8));
        push_all(out, &MVEX);
        push_all(out, body.as_slice());
        assert(out@ =~= start + mvex_bytes(self@));
    }

    /// The encoded box.
    pub fn to_bytes(&self) -> (r: Vec<u8>)
        ensures
            r@ == mvex_bytes(self@),
    {
        let mut out: Vec<u8> = Vec::new();
        self.write_to(&mut out);
        assert(out@ =~= mvex_bytes(self@));
        out
    }

    /// Encoded size.
    pub fn serialized_len(&self) -> (r: usize)
        ensures
            r == mvex_bytes(self@).len(),
    {
        self.to_bytes().len()
    }

    /// Write the encoded box to the front of `buf`.
    pub fn serialize_into(&self, buf: &mut Vec<u8>) -> (r: Result<usize, Error>)
        ensures
            prefix_written(old(buf)@, final(buf)@, mvex_bytes(self@), r),
    {
        let b = self.to_bytes();
        write_prefix(buf, b.as_slice())
    }
}

/// Box type `moov`.
pub const MOOV: [u8; 4] = [0x6D, 0x6F, 0x6F, 0x76];

/// `tracks` entries, each encoded, in order.
pub open spec fn tracks_list_bytes(s: Seq<TrakView>) -> Seq<u8>
    decreases s.len(),
{
    if s.len() == 0 {
        Seq::empty()
    } else {
        tracks_list_bytes(s.drop_last()) + trak_bytes(s.last())
    }
}

/// Movie Box (`moov`, §8.2.1), the top of the initialisation segment; a movie header is required.
#[derive(Debug, Clone, PartialEq, Eq)]
pub struct MovieBox {
    pub mvhd: MovieHeaderBox,
    pub tracks: Vec<TrackBox>,
    pub mvex: Option<MovieExtendsBox>,
    pub opaque: Vec<OpaqueBox>,
}

/// The model of a `moov` box: its typed children, then the others.
pub type MoovView = (MvhdView, Seq<TrakView>, Option<MvexView>, Seq<(Seq<u8>, Seq<u8>)>);

/// A `moov` walk's state: the typed children seen so far (the last of
/// each kind wins), then the others in order.
pub type MoovViewAcc = (Option<MvhdView>, Seq<TrakView>, Option<MvexView>, Seq<(Seq<u8>, Seq<u8>)>);

impl View for MovieBox {
    type V = MoovView;

    open spec fn view(&self) -> MoovView {
        (
            self.mvhd@,
            self.tracks@.map_values(|x: TrackBox| x@),
            match self.mvex {
                Some(x) => Some(x@),
                None => None,
            },
            opaque_views(self.opaque@),
        )
    }
}

/// The children of a `moov` as written, in field order.
pub open spec fn moov_body_bytes(v: MoovView) -> Seq<u8> {
    (mvhd_bytes(v.0)) + (tracks_list_bytes(v.1)) + (match v.2 { Some(x) => mvex_bytes(x), None => Seq::empty() }) + (opaques_bytes(v.3))
}

/// The `moov` bytes as written.
pub open spec fn moov_bytes(v: MoovView) -> Seq<u8> {
    box_head(8 + moov_body_bytes(v).len(), MOOV@) + moov_body_bytes(v)
}

/// Walking the child spans `sp` of a `moov` body from child `k`.
#[verifier::opaque]
pub open spec fn moov_fold(body: Seq<u8>, sp: Seq<(int, int)>, k: nat, acc: MoovViewAcc) -> Result<MoovViewAcc, Error>
    decreases sp.len() - k,
{
    if k >= sp.len() {
        Ok(acc)
    } else {
        let p = sp[k as int];
        let bb = body.subrange(p.0, p.1);
        let t = body.subrange(p.0 + 4, p.0 + 8);
        if t == MVHD@ {
            match spec_parse_mvhd(bb) {
                Err(e) => Err(e),
                Ok(x) => moov_fold(body, sp, k + 1, (Some(x), acc.1, acc.2, acc.3)),
            }
        } else if t == TRAK@ {
            match spec_parse_trak(bb) {
                Err(e) => Err(e),
                Ok(x) => moov_fold(body, sp, k + 1, (acc.0, acc.1.push(x), acc.2, acc.3)),
            }
        } else if t == MVEX@ {
            match spec_parse_mvex(bb) {
                Err(e) => Err(e),
                Ok(x) => moov_fold(body, sp, k + 1, (acc.0, acc.1, Some(x), acc.3)),
            }
        } else {
            moov_fold(body, sp, k + 1, (acc.0, acc.1, acc.2, acc.3.push(opaque_at(body, p))))
        }
    }
}

/// Outcome of parsing a `moov` box (header included): a typed child
/// that fails to parse fails the whole box.
#[verifier::opaque]
pub open spec fn spec_parse_moov(b: Seq<u8>) -> Result<MoovView, Error> {
    if b.len() < 8 {
        Err(Error::BufferTooShort { need: 8, have: b.len() as usize, what: "moov" })
    } else {
        let body = b.skip(8);
        match moov_fold(body, child_spans(body, 0), 0, (None, Seq::empty(), None, Seq::empty())) {
            Err(e) => Err(e),
            Ok(a) => if a.0 is None {
                Err(Error::BufferTooShort { need: 0, have: 0, what: "moov missing mvhd" })
            } else {
                Ok((a.0->0, a.1, a.2, a.3))
            },
        }
    }
}

impl MovieBox {
    /// Parse a `moov` box.
    pub fn parse(bytes: &[u8]) -> (r: Result<Self, Error>)
        ensures
            match spec_parse_moov(bytes@) {
                Ok(v) => r matches Ok(x) && x@ == v,
                Err(e) => r == Err::<Self, Error>(e),
            },
    {
        reveal(spec_parse_moov);
        if bytes.len() < 8 {
            return Err(Error::BufferTooShort { need: 8, have: bytes.len(), what: "moov" });
        }
        let body = &bytes[8..bytes.len()];
        assert(body@ =~= bytes@.skip(8));
        let spans = walk_children(body, 0);
        proof {
            lemma_child_spans_bounds(body@, 0);
        }
        let ghost sp = child_spans(body@, 0);
        let mut mvhd: Option<MovieHeaderBox> = None;
        let mut tracks: Vec<TrackBox> = Vec::new();
        let mut mvex: Option<MovieExtendsBox> = None;
        let mut opaque: Vec<OpaqueBox> = Vec::new();
        assert(opaque_views(opaque@) =~= Seq::<(Seq<u8>, Seq<u8>)>::empty());
        assert(tracks@.map_values(|x: TrackBox| x@) =~= Seq::<TrakView>::empty());
        let mut i: usize = 0;
        while i < spans.len()
            invariant
                i <= spans@.len(),
                spans@.len() == sp.len(),
                sp == child_spans(body@, 0),
                body@ == bytes@.skip(8),
                bytes@.len() >= 8,
                forall|j: int| 0 <= j < spans@.len() ==> (#[trigger] spans@[j]).0 as int == sp[j].0 && spans@[j].1 as int == sp[j].1,
                forall|j: int| 0 <= j < sp.len() ==> {
                    let p = #[trigger] sp[j];
                    0 <= p.0 && p.0 + 8 <= p.1 <= body@.len()
                },
                moov_fold(body@, sp, 0, (None, Seq::empty(), None, Seq::empty())) == moov_fold(body@, sp, i as nat, (match mvhd {
                    Some(x) => Some(x@),
                    None => None,
                }, tracks@.map_values(|x: TrackBox| x@), match mvex {
                    Some(x) => Some(x@),
                    None => None,
                }, opaque_views(opaque@))),
            decreases spans@.len() - i,
        {
            reveal_with_fuel(moov_fold, 2);
            reveal(spec_parse_moov);
            let (a, e) = spans[i];
            assert(sp[i as int].0 + 8 <= sp[i as int].1);
            assert((a as int, e as int) == sp[i as int]);
            let t = read_type(body, a);
            if crate::box_types::fourcc_eq(&t, &MVHD) {
                match MovieHeaderBox::parse(&body[a..e]) {
                    Ok(x) => {
                        mvhd = Some(x);
                    },
                    Err(err) => {
                        return Err(err);
                    },
                }
            } else if crate::box_types::fourcc_eq(&t, &TRAK) {
                match TrackBox::parse(&body[a..e]) {
                    Ok(x) => {
                        let ghost prev = tracks@;
                        let ghost xv = x@;
                        tracks.push(x);
                        assert(tracks@.map_values(|y: TrackBox| y@) =~= prev.map_values(|y: TrackBox| y@).push(xv));
                    },
                    Err(err) => {
                        return Err(err);
                    },
                }
            } else if crate::box_types::fourcc_eq(&t, &MVEX) {
                match MovieExtendsBox::parse(&body[a..e]) {
                    Ok(x) => {
                        mvex = Some(x);
                    },
                    Err(err) => {
                        return Err(err);
                    },
                }
            } else {
                let ghost prev = opaque@;
                let o = opaque_from(body, a, e);
                opaque.push(o);
                assert(opaque_views(opaque@) =~= opaque_views(prev).push(o@));
            }
            i += 1;
        }
        reveal_with_fuel(moov_fold, 2);
        let mvhd = match mvhd {
            Some(x) => x,
            None => {
                return Err(Error::BufferTooShort { need: 0, have: 0, what: "moov missing mvhd" });
            },
        };
        Ok(MovieBox { mvhd, tracks, mvex, opaque })
    }

    /// Append the encoded box to `out`.
    pub fn write_to(&self, out: &mut Vec<u8>)
        ensures
            final(out)@ == old(out)@ + moov_bytes(self@),
    {
        let mut body: Vec<u8> = Vec::new();
        self.mvhd.write_to(&mut body);
        let ghost s1 = self@.1;
        let ghost before1 = body@;
        let mut i1: usize = 0;
        while i1 < self.tracks.len()
            invariant
                i1 <= self.tracks@.len(),
                s1 == self@.1,
                body@ == before1 + tracks_list_bytes(s1.take(i1 as int)),
            decreases self.tracks@.len() - i1,
        {
            self.tracks[i1].write_to(&mut body);
            assert(s1.take(i1 + 1int).drop_last() =~= s1.take(i1 as int));
            i1 += 1;
            assert(body@ =~= before1 + tracks_list_bytes(s1.take(i1 as int)));
        }
        assert(s1.take(i1 as int) =~= s1);
        if let Some(x) = &self.mvex {
            x.write_to(&mut body);
        }
        push_opaques(&mut body, &self.opaque);
        assert(body@ =~= moov_body_bytes(self@));
        let ghost start = out@;
        push32(out, size_field(body.len(), 8));
        push_all(out, &MOOV);
        push_all(out, body.as_slice());
        assert(out@ =~= start + moov_bytes(self@));
    }

    /// The encoded box.
    pub fn to_bytes(&self) -> (r: Vec<u8>)
        ensures
            r@ == moov_bytes(self@),
    {
        let mut out: Vec<u8> = Vec::new();
        self.write_to(&mut out);
        assert(out@ =~= moov_bytes(self@));
        out
    }

    /// Encoded size.
    pub fn serialized_len(&self) -> (r: usize)
        ensures
            r == moov_bytes(self@).len(),
    {
        self.to_bytes().len()
    }

    /// Write the encoded box to the front of `buf`.
    pub fn serialize_into(&self, buf: &mut Vec<u8>) -> (r: Result<usize, Error>)
        ensures
            prefix_written(old(buf)@, final(buf)@, moov_bytes(self@), r),
    {
        let b = self.to_bytes();
        write_prefix(buf, b.as_slice())
    }
}


/// Append every opaque box of `v`, in order.
pub fn push_opaques_pub(out: &mut Vec<u8>, v: &Vec<OpaqueBox>)
    ensures
        final(out)@ == old(out)@ + opaques_bytes(opaque_views(v@)),
{
    push_opaques(out, v);
}

} // verus!
