//! ISOBMFF box framing (ISO/IEC 14496-12:2015 §4.2): the `size` + `type`
//! header with its optional 64-bit `largesize` and `uuid` user type, the
//! "extends to end of input" size 0, and the FullBox version/flags word.
use vstd::prelude::*;
use crate::bytes::{be32, get24, get32, get64, read24, read32, read64, sat};
use crate::error::Error;

verus! {

/// Size of the compact box header (`size` + `type`).
pub const BOX_HEADER_SIZE: usize = 8;

/// Size of the FullBox `version` + `flags` word.
pub const FULLBOX_EXTRA_SIZE: usize = 4;

/// The `uuid` box type, whose header carries a 16-byte user type.
pub const UUID_TYPE: [u8; 4] = [0x75, 0x75, 0x69, 0x64];

/// A parsed box header.
#[derive(Debug, Clone, Copy, PartialEq, Eq)]
pub struct BoxHeader {
    /// The four-character box type.
    pub box_type: [u8; 4],
    /// Bytes of header (8, 16 with `largesize`, plus 16 for a `uuid` type).
    pub header_len: usize,
    /// Total box size in bytes, header included.
    pub size: usize,
}

/// A box located at the front of a buffer: its header and its body bytes.
pub struct BoxRef<'a> {
    /// The parsed header.
    pub header: BoxHeader,
    /// The bytes after the header, up to the end of the box.
    pub body: &'a [u8],
}

/// Outcome of reading a box header at the front of `s`:
/// `(type, header length, total size)`.
pub open spec fn spec_box_header(s: Seq<u8>) -> Result<(Seq<u8>, nat, nat), Error> {
    if s.len() < 8 {
        Err(Error::BufferTooShort { need: 8, have: s.len() as usize, what: "box header" })
    } else if get32(s, 0) == 1 && s.len() < 16 {
        Err(Error::BufferTooShort { need: 16, have: s.len() as usize, what: "box largesize" })
    } else {
        let typ = s.subrange(4, 8);
        let base: nat = if get32(s, 0) == 1 {
            16
        } else {
            8
        };
        let size: nat = if get32(s, 0) == 1 {
            get64(s, 8) as nat
        } else if get32(s, 0) == 0 {
            s.len()
        } else {
            get32(s, 0) as nat
        };
        let hl: nat = if typ == UUID_TYPE@ {
            base + 16
        } else {
            base
        };
        if s.len() < hl {
            Err(Error::BufferTooShort { need: hl as usize, have: s.len() as usize, what: "box uuid usertype" })
        } else if size < hl {
            Err(Error::InvalidValue { field: "box size", value: size as u64, reason: "smaller than the box header" })
        } else if size > s.len() {
            Err(Error::BufferTooShort { need: sat(size as int), have: s.len() as usize, what: "box body" })
        } else {
            Ok((typ, hl, size))
        }
    }
}

/// Two four-character codes are equal.
pub fn fourcc_eq(a: &[u8; 4], b: &[u8; 4]) -> (r: bool)
    ensures
        r == (a@ == b@),
{
    let r = a[0] == b[0] && a[1] == b[1] && a[2] == b[2] && a[3] == b[3];
    if r {
        assert(a@ =~= b@);
    }
    r
}

/// Parse the box header at the front of `bytes`.
pub fn parse_box_header(bytes: &[u8]) -> (r: Result<BoxHeader, Error>)
    ensures
        match spec_box_header(bytes@) {
            Ok((t, hl, size)) => r matches Ok(h) && h.box_type@ == t && h.header_len == hl && h.size
                == size,
            Err(e) => r == Err::<BoxHeader, Error>(e),
        },
{
    if bytes.len() < 8 {
        return Err(Error::BufferTooShort { need: 8, have: bytes.len(), what: "box header" });
    }
    let size32 = read32(bytes, 0);
    if size32 == 1 && bytes.len() < 16 {
        return Err(Error::BufferTooShort { need: 16, have: bytes.len(), what: "box largesize" });
    }
    let box_type: [u8; 4] = [bytes[4], bytes[5], bytes[6], bytes[7]];
    assert(box_type@ =~= bytes@.subrange(4, 8));
    let base: usize = if size32 == 1 {
        16
    } else {
        8
    };
    let size64: u64 = if size32 == 1 {
        read64(bytes, 8)
    } else if size32 == 0 {
        bytes.len() as u64
    } else {
        size32 as u64
    };
    let hl = if fourcc_eq(&box_type, &UUID_TYPE) {
        base + 16
    } else {
        base
    };
    if bytes.len() < hl {
        return Err(Error::BufferTooShort { need: hl, have: bytes.len(), what: "box uuid usertype" });
    }
    if size64 < hl as u64 {
        return Err(
            Error::InvalidValue { field: "box size", value: size64, reason: "smaller than the box header" },
        );
    }
    if size64 > bytes.len() as u64 {
        return Err(
            Error::BufferTooShort {
                need: if size64 <= usize::MAX as u64 {
                    size64 as usize
                } else {
                    usize::MAX
                },
                have: bytes.len(),
                what: "box body",
            },
        );
    }
    Ok(BoxHeader { box_type, header_len: hl, size: size64 as usize })
}

/// Locate the box at the front of `bytes`: its header, its body, and the
/// number of bytes it occupies.
pub fn parse_box<'a>(bytes: &'a [u8]) -> (r: Result<(BoxRef<'a>, usize), Error>)
    ensures
        match spec_box_header(bytes@) {
            Ok((t, hl, size)) => r matches Ok((b, n)) && b.header.box_type@ == t
                && b.header.header_len == hl && b.header.size == size && n == size && b.body@
                == bytes@.subrange(hl as int, size as int),
            Err(e) => r is Err && r->Err_0 == e,
        },
{
    match parse_box_header(bytes) {
        Ok(h) => Ok((BoxRef { header: h, body: &bytes[h.header_len..h.size] }, h.size)),
        Err(e) => Err(e),
    }
}

/// Outcome of reading a FullBox `version` and 24-bit `flags`.
pub open spec fn spec_ver_flags(body: Seq<u8>) -> Result<(u8, u32), Error> {
    if body.len() < 4 {
        Err(Error::BufferTooShort { need: 4, have: body.len() as usize, what: "FullBox version/flags" })
    } else {
        Ok((body[0], get24(body, 1)))
    }
}

/// Read the FullBox `version` byte and 24-bit `flags`.
pub fn read_ver_flags(body: &[u8]) -> (r: Result<(u8, u32), Error>)
    ensures
        r == spec_ver_flags(body@),
{
    if body.len() < 4 {
        return Err(Error::BufferTooShort { need: 4, have: body.len(), what: "FullBox version/flags" });
    }
    Ok((body[0], read24(body, 1)))
}

/// A compact box header for a box of `len` bytes: the low 32 bits of the
/// length, then the type.
pub open spec fn box_head(len: nat, typ: Seq<u8>) -> Seq<u8> {
    be32(len as u32) + typ
}

/// A box of `len` bytes (8 to `u32::MAX`, not of type `uuid`) written with a
/// compact header reads back as `(type, 8, len)`, whatever follows it.
pub proof fn lemma_box_header_compact(typ: Seq<u8>, payload: Seq<u8>, rest: Seq<u8>)
    requires
        typ.len() == 4,
        typ != UUID_TYPE@,
        8 + payload.len() <= u32::MAX,
    ensures
        ({
            let n = 8 + payload.len();
            let b = box_head(n, typ) + payload;
            spec_box_header(b + rest) == Ok::<(Seq<u8>, nat, nat), Error>((typ, 8, n))
                && (b + rest).subrange(8, n as int) == payload && (b + rest).skip(n as int) == rest
        }),
{
    let n = 8 + payload.len();
    let b = box_head(n, typ) + payload;
    let s = b + rest;
    assert(s.subrange(0, 4) =~= be32(n as u32));
    crate::bytes::lemma_be32_get32(n as u32, s, 0);
    assert(s.subrange(4, 8) =~= typ);
    assert(s.subrange(8, n as int) =~= payload);
    assert(s.skip(n as int) =~= rest);
}

pub proof fn lemma_box_header_bounds(s: Seq<u8>)
    ensures
        match spec_box_header(s) {
            Ok((t, hl, size)) => 8 <= hl <= size <= s.len() && t.len() == 4,
            Err(_) => true,
        },
{
}

/// An encoded box of 8 to `u32::MAX` bytes, whose 32-bit size field holds
/// its length and whose type is not `uuid`, reads back as `(type, 8, len)`,
/// whatever follows it.
pub proof fn lemma_box_walk_step(bytes: Seq<u8>, typ: Seq<u8>, rest: Seq<u8>)
    requires
        8 <= bytes.len() <= u32::MAX,
        bytes.subrange(0, 4) == be32(bytes.len() as u32),
        bytes.subrange(4, 8) == typ,
        typ != UUID_TYPE@,
    ensures
        spec_box_header(bytes + rest) == Ok::<(Seq<u8>, nat, nat), Error>((typ, 8, bytes.len())),
        (bytes + rest).subrange(8, bytes.len() as int) == bytes.skip(8),
        (bytes + rest).skip(bytes.len() as int) == rest,
{
    let payload = bytes.skip(8);
    assert(bytes =~= box_head(bytes.len(), typ) + payload);
    lemma_box_header_compact(typ, payload, rest);
}

} // verus!
