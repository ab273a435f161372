//! RTP payload helpers (RFC 3550, RFC 6184, RFC 3640, RFC 6597) and the
//! text codecs SDP needs: base64 (RFC 4648) for `sprop-parameter-sets` and
//! lowercase hex for the AAC `config`.
use vstd::prelude::*;
use vstd::string::*;
use crate::error::Error;
use crate::init_segment::OpaqueBox;
use crate::ir::codec::CodecConfig;
use crate::mp4esds::EsdsBox;
use crate::ir::media::Media;
use crate::ir::sample::Sample;
use crate::ir::track::{Track, TrackSpec};
use crate::avcc::vv;
use crate::bytes::{sat, be16, be32, get16, get32, push16, push32, push_all, copy_range, read16, read32, lemma_be16_get16, lemma_be32_get32};

verus! {

// ---------------------------------------------------------------------------
// base64 (RFC 4648 §4, with padding)
// ---------------------------------------------------------------------------

/// The base64 alphabet: `A-Z`, `a-z`, `0-9`, `+`, `/`.
pub open spec fn b64_char(v: int) -> char {
    if v < 26 {
        (65 + v) as char
    } else if v < 52 {
        (71 + v) as char
    } else if v < 62 {
        (v - 4) as char
    } else if v == 62 {
        '+'
    } else {
        '/'
    }
}

/// The base64 digit of a 6-bit value, as a one-character string.
fn b64_str(v: u32) -> (r: &'static str)
    requires
        v < 64,
    ensures
        r@ == seq![b64_char(v as int)],
{
    if v == 0 {
        proof { reveal_strlit("A"); }
        "A"
    } else if v == 1 {
        proof { reveal_strlit("B"); }
        "B"
    } else if v == 2 {
        proof { reveal_strlit("C"); }
        "C"
    } else if v == 3 {
        proof { reveal_strlit("D"); }
        "D"
    } else if v == 4 {
        proof { reveal_strlit("E"); }
        "E"
    } else if v == 5 {
        proof { reveal_strlit("F"); }
        "F"
    } else if v == 6 {
        proof { reveal_strlit("G"); }
        "G"
    } else if v == 7 {
        proof { reveal_strlit("H"); }
        "H"
    } else if v == 8 {
        proof { reveal_strlit("I"); }
        "I"
    } else if v == 9 {
        proof { reveal_strlit("J"); }
        "J"
    } else if v == 10 {
        proof { reveal_strlit("K"); }
        "K"
    } else if v == 11 {
        proof { reveal_strlit("L"); }
        "L"
    } else if v == 12 {
        proof { reveal_strlit("M"); }
        "M"
    } else if v == 13 {
        proof { reveal_strlit("N"); }
        "N"
    } else if v == 14 {
        proof { reveal_strlit("O"); }
        "O"
    } else if v == 15 {
        proof { reveal_strlit("P"); }
        "P"
    } else if v == 16 {
        proof { reveal_strlit("Q"); }
        "Q"
    } else if v == 17 {
        proof { reveal_strlit("R"); }
        "R"
    } else if v == 18 {
        proof { reveal_strlit("S"); }
        "S"
    } else if v == 19 {
        proof { reveal_strlit("T"); }
        "T"
    } else if v == 20 {
        proof { reveal_strlit("U"); }
        "U"
    } else if v == 21 {
        proof { reveal_strlit("V"); }
        "V"
    } else if v == 22 {
        proof { reveal_strlit("W"); }
        "W"
    } else if v == 23 {
        proof { reveal_strlit("X"); }
        "X"
    } else if v == 24 {
        proof { reveal_strlit("Y"); }
        "Y"
    } else if v == 25 {
        proof { reveal_strlit("Z"); }
        "Z"
    } else if v == 26 {
        proof { reveal_strlit("a"); }
        "a"
    } else if v == 27 {
        proof { reveal_strlit("b"); }
        "b"
    } else if v == 28 {
        proof { reveal_strlit("c"); }
        "c"
    } else if v == 29 {
        proof { reveal_strlit("d"); }
        "d"
    } else if v == 30 {
        proof { reveal_strlit("e"); }
        "e"
    } else if v == 31 {
        proof { reveal_strlit("f"); }
        "f"
    } else if v == 32 {
        proof { reveal_strlit("g"); }
        "g"
    } else if v == 33 {
        proof { reveal_strlit("h"); }
        "h"
    } else if v == 34 {
        proof { reveal_strlit("i"); }
        "i"
    } else if v == 35 {
        proof { reveal_strlit("j"); }
        "j"
    } else if v == 36 {
        proof { reveal_strlit("k"); }
        "k"
    } else if v == 37 {
        proof { reveal_strlit("l"); }
        "l"
    } else if v == 38 {
        proof { reveal_strlit("m"); }
        "m"
    } else if v == 39 {
        proof { reveal_strlit("n"); }
        "n"
    } else if v == 40 {
        proof { reveal_strlit("o"); }
        "o"
    } else if v == 41 {
        proof { reveal_strlit("p"); }
        "p"
    } else if v == 42 {
        proof { reveal_strlit("q"); }
        "q"
    } else if v == 43 {
        proof { reveal_strlit("r"); }
        "r"
    } else if v == 44 {
        proof { reveal_strlit("s"); }
        "s"
    } else if v == 45 {
        proof { reveal_strlit("t"); }
        "t"
    } else if v == 46 {
        proof { reveal_strlit("u"); }
        "u"
    } else if v == 47 {
        proof { reveal_strlit("v"); }
        "v"
    } else if v == 48 {
        proof { reveal_strlit("w"); }
        "w"
    } else if v == 49 {
        proof { reveal_strlit("x"); }
        "x"
    } else if v == 50 {
        proof { reveal_strlit("y"); }
        "y"
    } else if v == 51 {
        proof { reveal_strlit("z"); }
        "z"
    } else if v == 52 {
        proof { reveal_strlit("0"); }
        "0"
    } else if v == 53 {
        proof { reveal_strlit("1"); }
        "1"
    } else if v == 54 {
        proof { reveal_strlit("2"); }
        "2"
    } else if v == 55 {
        proof { reveal_strlit("3"); }
        "3"
    } else if v == 56 {
        proof { reveal_strlit("4"); }
        "4"
    } else if v == 57 {
        proof { reveal_strlit("5"); }
        "5"
    } else if v == 58 {
        proof { reveal_strlit("6"); }
        "6"
    } else if v == 59 {
        proof { reveal_strlit("7"); }
        "7"
    } else if v == 60 {
        proof { reveal_strlit("8"); }
        "8"
    } else if v == 61 {
        proof { reveal_strlit("9"); }
        "9"
    } else if v == 62 {
        proof { reveal_strlit("+"); }
        "+"
    } else {
        proof { reveal_strlit("/"); }
        "/"
    }
}

/// The four characters encoding `b0 b1 b2`, the last `pad` of them `=`.
pub open spec fn b64_quad(b0: u8, b1: u8, b2: u8, pad: nat) -> Seq<char> {
    seq![
        b64_char((b0 / 4) as int),
        b64_char((b0 % 4) * 16 + b1 / 16),
        if pad >= 2 { '=' } else { b64_char((b1 % 16) * 4 + b2 / 64) },
        if pad >= 1 { '=' } else { b64_char((b2 % 64) as int) },
    ]
}

/// The padded base64 encoding of `d`, three bytes to four characters.
pub open spec fn b64_encode(d: Seq<u8>) -> Seq<char>
    decreases d.len(),
{
    if d.len() == 0 {
        Seq::empty()
    } else if d.len() == 1 {
        b64_quad(d[0], 0, 0, 2)
    } else if d.len() == 2 {
        b64_quad(d[0], d[1], 0, 1)
    } else {
        b64_quad(d[0], d[1], d[2], 0) + b64_encode(d.skip(3))
    }
}

/// Append the four characters of one group.
fn push_quad(s: &mut String, b0: u8, b1: u8, b2: u8, pad: usize)
    requires
        pad <= 2,
    ensures
        final(s)@ == old(s)@ + b64_quad(b0, b1, b2, pad as nat),
{
    let ghost start = s@;
    s.append(b64_str((b0 / 4) as u32));
    s.append(b64_str(((b0 % 4) * 16 + b1 / 16) as u32));
    if pad >= 2 {
        proof { reveal_strlit("="); }
        s.append("=");
    } else {
        s.append(b64_str(((b1 % 16) * 4 + b2 / 64) as u32));
    }
    if pad >= 1 {
        proof { reveal_strlit("="); }
        s.append("=");
    } else {
        s.append(b64_str((b2 % 64) as u32));
    }
    assert(s@ =~= start + b64_quad(b0, b1, b2, pad as nat));
}

/// Base64-encode bytes (RFC 4648, with `=` padding).
pub fn base64_encode(data: &[u8]) -> (r: String)
    ensures
        r@ == b64_encode(data@),
{
    let mut out = String::new();
    let n = data.len();
    let mut i: usize = 0;
    assert(data@.skip(0) =~= data@);
    assert(out@ + b64_encode(data@) =~= b64_encode(data@));
    while i < n
        invariant
            i <= n,
            n == data@.len(),
            out@ + b64_encode(data@.skip(i as int)) == b64_encode(data@),
        decreases n - i,
    {
        let ghost rest = data@.skip(i as int);
        if n - i >= 3 {
            push_quad(&mut out, data[i], data[i + 1], data[i + 2], 0);
            assert(rest.skip(3) =~= data@.skip(i + 3));
            assert(rest[0] == data@[i as int] && rest[1] == data@[i + 1] && rest[2] == data@[i + 2]);
            proof {
                vstd::seq_lib::lemma_seq_skip_of_skip(data@, i as int, 3);
            }
            assert(out@ + b64_encode(data@.skip(i + 3)) =~= b64_encode(data@));
            i += 3;
        } else if n - i == 2 {
            push_quad(&mut out, data[i], data[i + 1], 0, 1);
            assert(data@.skip(n as int) =~= Seq::<u8>::empty());
            i = n;
        } else {
            push_quad(&mut out, data[i], 0, 0, 2);
            assert(data@.skip(n as int) =~= Seq::<u8>::empty());
            i = n;
        }
    }
    assert(data@.skip(n as int) =~= Seq::<u8>::empty());
    assert(out@ + Seq::<char>::empty() =~= out@);
    out
}

/// The 6-bit value of a base64 character byte.
pub open spec fn b64_val(c: u8) -> Option<u32> {
    if 65 <= c <= 90 {
        Some((c - 65) as u32)
    } else if 97 <= c <= 122 {
        Some((c - 71) as u32)
    } else if 48 <= c <= 57 {
        Some((c + 4) as u32)
    } else if c == 43 {
        Some(62u32)
    } else if c == 47 {
        Some(63u32)
    } else {
        None
    }
}

/// `bs` with every `=` (byte 61) removed.
pub open spec fn strip_pad(bs: Seq<u8>) -> Seq<u8>
    decreases bs.len(),
{
    if bs.len() == 0 {
        Seq::empty()
    } else {
        (if bs[0] == 61 { Seq::empty() } else { seq![bs[0]] }) + strip_pad(bs.skip(1))
    }
}

/// Decoding the digits `f` from `i`: each digit shifts six bits into the
/// 32-bit accumulator; whenever eight bits are pending, the top eight are
/// emitted. A non-base64 byte is refused.
pub open spec fn b64_dec(f: Seq<u8>, i: nat, acc: u32, nbits: u32, out: Seq<u8>) -> Result<Seq<u8>, Error>
    decreases f.len() - i,
{
    if i >= f.len() {
        Ok(out)
    } else {
        match b64_val(f[i as int]) {
            None => Err(Error::InvalidValue { field: "base64", value: f[i as int] as u64, reason: "not a base64 character" }),
            Some(v) => {
                let a = (acc << 6u32) | v;
                if nbits + 6 >= 8 {
                    let n = (nbits + 6 - 8) as u32;
                    b64_dec(f, i + 1, a, n, out.push((a >> n) as u8))
                } else {
                    b64_dec(f, i + 1, a, (nbits + 6) as u32, out)
                }
            },
        }
    }
}

/// Outcome of decoding the base64 text whose bytes are `bs`: padding is
/// ignored wherever it stands.
pub open spec fn spec_base64_decode(bs: Seq<u8>) -> Result<Seq<u8>, Error> {
    b64_dec(strip_pad(bs), 0, 0, 0, Seq::empty())
}

fn b64_digit(c: u8) -> (r: Option<u32>)
    ensures
        r == b64_val(c),
{
    if 65 <= c && c <= 90 {
        Some((c - 65) as u32)
    } else if 97 <= c && c <= 122 {
        Some((c - 71) as u32)
    } else if 48 <= c && c <= 57 {
        Some((c + 4) as u32)
    } else if c == 43 {
        Some(62)
    } else if c == 47 {
        Some(63)
    } else {
        None
    }
}

/// Base64-decode a string (RFC 4648): `=` is skipped wherever it stands; any
/// other character outside the alphabet is refused.
pub fn base64_decode(s: &str) -> (r: Result<Vec<u8>, Error>)
    ensures
        match spec_base64_decode(vstd::utf8::encode_utf8(s@)) {
            Ok(v) => r matches Ok(x) && x@ == v,
            Err(e) => r == Err::<Vec<u8>, Error>(e),
        },
{
    let bytes = s.as_bytes();
    let n = bytes.len();
    let mut f: Vec<u8> = Vec::new();
    let mut i: usize = 0;
    assert(bytes@.skip(0) =~= bytes@);
    assert(f@ + strip_pad(bytes@) =~= strip_pad(bytes@));
    while i < n
        invariant
            i <= n,
            n == bytes@.len(),
            f@ + strip_pad(bytes@.skip(i as int)) == strip_pad(bytes@),
        decreases n - i,
    {
        let ghost rest = bytes@.skip(i as int);
        assert(rest.skip(1) =~= bytes@.skip(i + 1));
        assert(rest[0] == bytes@[i as int]);
        if bytes[i] != 61 {
            f.push(bytes[i]);
        }
        i += 1;
        assert(f@ + strip_pad(bytes@.skip(i as int)) =~= strip_pad(bytes@));
    }
    assert(bytes@.skip(n as int) =~= Seq::<u8>::empty());
    assert(f@ + Seq::<u8>::empty() =~= f@);
    let mut out: Vec<u8> = Vec::new();
    let mut acc: u32 = 0;
    let mut nbits: u32 = 0;
    let mut k: usize = 0;
    while k < f.len()
        invariant
            k <= f@.len(),
            nbits < 8,
            f@ == strip_pad(bytes@),
            bytes@ == vstd::utf8::encode_utf8(s@),
            b64_dec(f@, 0, 0, 0, Seq::empty()) == b64_dec(f@, k as nat, acc, nbits, out@),
        decreases f@.len() - k,
    {
        let c = f[k];
        let v = match b64_digit(c) {
            Some(v) => v,
            None => {
                return Err(Error::InvalidValue { field: "base64", value: c as u64, reason: "not a base64 character" });
            },
        };
        acc = (acc << 6u32) | v;
        if nbits + 6 >= 8 {
            nbits = nbits + 6 - 8;
            out.push((acc >> nbits) as u8);
        } else {
            nbits = nbits + 6;
        }
        k += 1;
    }
    Ok(out)
}

// ---------------------------------------------------------------------------
// base64 round trip
// ---------------------------------------------------------------------------

/// The digit bytes (padding left out) of the encoding of `d`.
pub open spec fn b64_digits(d: Seq<u8>) -> Seq<u8>
    decreases d.len(),
{
    if d.len() == 0 {
        Seq::empty()
    } else if d.len() == 1 {
        b64_quad(d[0], 0, 0, 2).take(2).map_values(|c: char| c as u8)
    } else if d.len() == 2 {
        b64_quad(d[0], d[1], 0, 1).take(3).map_values(|c: char| c as u8)
    } else {
        b64_quad(d[0], d[1], d[2], 0).map_values(|c: char| c as u8) + b64_digits(d.skip(3))
    }
}

proof fn lemma_b64_char_val(v: int)
    requires
        0 <= v < 64,
    ensures
        (b64_char(v) as u8) != 61,
        (b64_char(v) as u32) < 128,
        b64_val(b64_char(v) as u8) == Some(v as u32),
{
}

proof fn lemma_quad_ascii(b0: u8, b1: u8, b2: u8, pad: nat)
    requires
        pad <= 2,
    ensures
        vstd::utf8::is_ascii_chars(b64_quad(b0, b1, b2, pad)),
{
    lemma_b64_char_val((b0 / 4) as int);
    lemma_b64_char_val(((b0 % 4) * 16 + b1 / 16) as int);
    lemma_b64_char_val(((b1 % 16) * 4 + b2 / 64) as int);
    lemma_b64_char_val((b2 % 64) as int);
}

proof fn lemma_encode_ascii(d: Seq<u8>)
    ensures
        vstd::utf8::is_ascii_chars(b64_encode(d)),
    decreases d.len(),
{
    if d.len() == 1 {
        lemma_quad_ascii(d[0], 0, 0, 2);
    } else if d.len() == 2 {
        lemma_quad_ascii(d[0], d[1], 0, 1);
    } else if d.len() >= 3 {
        lemma_quad_ascii(d[0], d[1], d[2], 0);
        lemma_encode_ascii(d.skip(3));
        let q = b64_quad(d[0], d[1], d[2], 0);
        let r = b64_encode(d.skip(3));
        assert forall|i: int| 0 <= i < (q + r).len() implies '\0' <= #[trigger] (q + r)[i] <= '\u{7f}' by {
            if i < 4 {
                assert((q + r)[i] == q[i]);
            } else {
                assert((q + r)[i] == r[i - 4]);
            }
        }
    }
}

/// The UTF-8 bytes of ASCII text are its character codes.
proof fn lemma_ascii_bytes(c: Seq<char>)
    requires
        vstd::utf8::is_ascii_chars(c),
    ensures
        vstd::utf8::encode_utf8(c) == c.map_values(|x: char| x as u8),
{
    vstd::utf8::is_ascii_chars_encode_utf8(c);
    assert(vstd::utf8::encode_utf8(c) =~= c.map_values(|x: char| x as u8));
}

proof fn lemma_strip_pad_add(x: Seq<u8>, y: Seq<u8>)
    ensures
        strip_pad(x + y) == strip_pad(x) + strip_pad(y),
    decreases x.len(),
{
    if x.len() == 0 {
        assert(x + y =~= y);
        assert(strip_pad(x) + strip_pad(y) =~= strip_pad(y));
    } else {
        assert((x + y).skip(1) =~= x.skip(1) + y);
        lemma_strip_pad_add(x.skip(1), y);
        assert(strip_pad(x + y) =~= strip_pad(x) + strip_pad(y));
    }
}

/// Without padding the text is all digits: the encoding, stripped of `=`,
/// is the digit sequence.
#[verifier::spinoff_prover]
proof fn lemma_encode_digits(d: Seq<u8>)
    ensures
        strip_pad(b64_encode(d).map_values(|x: char| x as u8)) == b64_digits(d),
    decreases d.len(),
{
    reveal_with_fuel(strip_pad, 5);
    if d.len() == 0 {
        assert(b64_encode(d).map_values(|x: char| x as u8) =~= Seq::<u8>::empty());
    } else if d.len() == 1 {
        let q = b64_quad(d[0], 0, 0, 2);
        lemma_quad_ascii(d[0], 0, 0, 2);
        lemma_b64_char_val((d[0] / 4) as int);
        lemma_b64_char_val(((d[0] % 4) * 16) as int);
        let m = q.map_values(|x: char| x as u8);
        assert(m[2] == 61 && m[3] == 61);
        assert(m.skip(1).skip(1).skip(1).skip(1) =~= Seq::<u8>::empty());
        assert(strip_pad(m) =~= q.take(2).map_values(|c: char| c as u8));
    } else if d.len() == 2 {
        let q = b64_quad(d[0], d[1], 0, 1);
        lemma_b64_char_val((d[0] / 4) as int);
        lemma_b64_char_val(((d[0] % 4) * 16 + d[1] / 16) as int);
        lemma_b64_char_val(((d[1] % 16) * 4) as int);
        let m = q.map_values(|x: char| x as u8);
        assert(m[3] == 61);
        assert(m.skip(1).skip(1).skip(1).skip(1) =~= Seq::<u8>::empty());
        assert(strip_pad(m) =~= q.take(3).map_values(|c: char| c as u8));
    } else {
        let q = b64_quad(d[0], d[1], d[2], 0);
        lemma_b64_char_val((d[0] / 4) as int);
        lemma_b64_char_val(((d[0] % 4) * 16 + d[1] / 16) as int);
        lemma_b64_char_val(((d[1] % 16) * 4 + d[2] / 64) as int);
        lemma_b64_char_val((d[2] % 64) as int);
        let m = q.map_values(|x: char| x as u8);
        let r = b64_encode(d.skip(3));
        assert((q + r).map_values(|x: char| x as u8) =~= m + r.map_values(|x: char| x as u8));
        lemma_strip_pad_add(m, r.map_values(|x: char| x as u8));
        lemma_encode_digits(d.skip(3));
        assert(m.skip(1).skip(1).skip(1).skip(1) =~= Seq::<u8>::empty());
        assert(strip_pad(m) =~= m);
    }
}

proof fn lemma_dec_shift(g: Seq<u8>, h: Seq<u8>, i: nat, acc: u32, nb: u32, out: Seq<u8>)
    ensures
        b64_dec(g + h, g.len() + i, acc, nb, out) == b64_dec(h, i, acc, nb, out),
    decreases h.len() - i,
{
    if i < h.len() {
        assert((g + h)[(g.len() + i) as int] == h[i as int]);
        let v = b64_val(h[i as int]);
        if v is Some {
            let a = (acc << 6u32) | v->0;
            if nb + 6 >= 8 {
                let n = (nb + 6 - 8) as u32;
                lemma_dec_shift(g, h, i + 1, a, n, out.push((a >> n) as u8));
            } else {
                lemma_dec_shift(g, h, i + 1, a, (nb + 6) as u32, out);
            }
        }
    }
}

proof fn lemma_b64_bits(acc: u32, b0: u8, b1: u8, b2: u8)
    ensures
        ({
            let s0 = (b0 / 4) as u32;
            let s1 = ((b0 % 4) * 16 + b1 / 16) as u32;
            let s2 = ((b1 % 16) * 4 + b2 / 64) as u32;
            let s3 = (b2 % 64) as u32;
            let a1 = (acc << 6u32) | s0;
            let a2 = (a1 << 6u32) | s1;
            let a3 = (a2 << 6u32) | s2;
            let a4 = (a3 << 6u32) | s3;
            (a2 >> 4u32) as u8 == b0 && (a3 >> 2u32) as u8 == b1 && (a4 >> 0u32) as u8 == b2
        }),
{
    assert({
        let s0 = (b0 / 4) as u32;
        let s1 = ((b0 % 4) * 16 + b1 / 16) as u32;
        let s2 = ((b1 % 16) * 4 + b2 / 64) as u32;
        let s3 = (b2 % 64) as u32;
        let a1 = (acc << 6u32) | s0;
        let a2 = (a1 << 6u32) | s1;
        let a3 = (a2 << 6u32) | s2;
        let a4 = (a3 << 6u32) | s3;
        (a2 >> 4u32) as u8 == b0 && (a3 >> 2u32) as u8 == b1 && (a4 >> 0u32) as u8 == b2
    }) by (bit_vector);
}

/// Decoding the digits of `d` after any accumulator state with no pending
/// bits appends `d`.
#[verifier::spinoff_prover]
#[verifier::rlimit(80)]
proof fn lemma_dec_digits(d: Seq<u8>, acc: u32, out: Seq<u8>)
    ensures
        b64_dec(b64_digits(d), 0, acc, 0, out) == Ok::<Seq<u8>, Error>(out + d),
    decreases d.len(),
{
    reveal_with_fuel(b64_dec, 5);
    if d.len() == 0 {
        assert(out + d =~= out);
    } else {
        let b0 = d[0];
        let b1: u8 = if d.len() >= 2 { d[1] } else { 0 };
        let b2: u8 = if d.len() >= 3 { d[2] } else { 0 };
        lemma_b64_bits(acc, b0, b1, b2);
        lemma_b64_char_val((b0 / 4) as int);
        lemma_b64_char_val(((b0 % 4) * 16 + b1 / 16) as int);
        lemma_b64_char_val(((b1 % 16) * 4 + b2 / 64) as int);
        lemma_b64_char_val((b2 % 64) as int);
        if d.len() == 1 {
            assert(out.push(b0) =~= out + d);
        } else if d.len() == 2 {
            assert(out.push(b0).push(b1) =~= out + d);
        } else {
            let q = b64_quad(b0, b1, b2, 0).map_values(|c: char| c as u8);
            let h = b64_digits(d.skip(3));
            let s0 = (b0 / 4) as u32;
            let s1 = ((b0 % 4) * 16 + b1 / 16) as u32;
            let s2 = ((b1 % 16) * 4 + b2 / 64) as u32;
            let s3 = (b2 % 64) as u32;
            let a4 = (((((acc << 6u32) | s0) << 6u32 | s1) << 6u32 | s2) << 6u32) | s3;
            let o3 = out.push(b0).push(b1).push(b2);
            assert(b64_dec(q + h, 0, acc, 0, out) == b64_dec(q + h, 4, a4, 0, o3));
            lemma_dec_shift(q, h, 0, a4, 0, o3);
            lemma_dec_digits(d.skip(3), a4, o3);
            assert(o3 + d.skip(3) =~= out + d);
        }
    }
}

/// Decoding an encoding gives the bytes back: `base64_decode` of the text
/// that `base64_encode(data)` returns is `Ok(data)`, for every byte string.
pub proof fn lemma_base64_round_trip(d: Seq<u8>)
    ensures
        spec_base64_decode(vstd::utf8::encode_utf8(b64_encode(d))) == Ok::<Seq<u8>, Error>(d),
{
    lemma_encode_ascii(d);
    lemma_ascii_bytes(b64_encode(d));
    lemma_encode_digits(d);
    lemma_dec_digits(d, 0, Seq::empty());
    assert(Seq::<u8>::empty() + d =~= d);
}

// ---------------------------------------------------------------------------
// hex
// ---------------------------------------------------------------------------

/// The lowercase hex digit of a nibble.
pub open spec fn hex_char(v: int) -> char {
    if v < 10 {
        (48 + v) as char
    } else {
        (87 + v) as char
    }
}

/// The lowercase hex digit of a nibble, as a one-character string.
fn hex_str(v: u8) -> (r: &'static str)
    requires
        v < 16,
    ensures
        r@ == seq![hex_char(v as int)],
{
    if v == 0 {
        proof { reveal_strlit("0"); }
        "0"
    } else if v == 1 {
        proof { reveal_strlit("1"); }
        "1"
    } else if v == 2 {
        proof { reveal_strlit("2"); }
        "2"
    } else if v == 3 {
        proof { reveal_strlit("3"); }
        "3"
    } else if v == 4 {
        proof { reveal_strlit("4"); }
        "4"
    } else if v == 5 {
        proof { reveal_strlit("5"); }
        "5"
    } else if v == 6 {
        proof { reveal_strlit("6"); }
        "6"
    } else if v == 7 {
        proof { reveal_strlit("7"); }
        "7"
    } else if v == 8 {
        proof { reveal_strlit("8"); }
        "8"
    } else if v == 9 {
        proof { reveal_strlit("9"); }
        "9"
    } else if v == 10 {
        proof { reveal_strlit("a"); }
        "a"
    } else if v == 11 {
        proof { reveal_strlit("b"); }
        "b"
    } else if v == 12 {
        proof { reveal_strlit("c"); }
        "c"
    } else if v == 13 {
        proof { reveal_strlit("d"); }
        "d"
    } else if v == 14 {
        proof { reveal_strlit("e"); }
        "e"
    } else {
        proof { reveal_strlit("f"); }
        "f"
    }
}

/// The lowercase hex encoding of `d`, two digits per byte.
pub open spec fn hex_enc(d: Seq<u8>) -> Seq<char>
    decreases d.len(),
{
    if d.len() == 0 {
        Seq::empty()
    } else {
        seq![hex_char((d[0] / 16) as int), hex_char((d[0] % 16) as int)] + hex_enc(d.skip(1))
    }
}

/// Hex-encode bytes (lowercase).
pub fn hex_encode(data: &[u8]) -> (r: String)
    ensures
        r@ == hex_enc(data@),
{
    let mut out = String::new();
    let n = data.len();
    let mut i: usize = 0;
    assert(data@.skip(0) =~= data@);
    assert(out@ + hex_enc(data@) =~= hex_enc(data@));
    while i < n
        invariant
            i <= n,
            n == data@.len(),
            out@ + hex_enc(data@.skip(i as int)) == hex_enc(data@),
        decreases n - i,
    {
        let ghost rest = data@.skip(i as int);
        assert(rest.skip(1) =~= data@.skip(i + 1));
        assert(rest[0] == data@[i as int]);
        let ghost before = out@;
        out.append(hex_str(data[i] / 16));
        out.append(hex_str(data[i] % 16));
        i += 1;
        assert(out@ + hex_enc(data@.skip(i as int)) =~= hex_enc(data@));
    }
    assert(data@.skip(n as int) =~= Seq::<u8>::empty());
    assert(out@ + Seq::<char>::empty() =~= out@);
    out
}

/// The value of a hex digit byte (either case).
pub open spec fn hex_val(c: u8) -> Option<u8> {
    if 48 <= c <= 57 {
        Some((c - 48) as u8)
    } else if 97 <= c <= 102 {
        Some((c - 87) as u8)
    } else if 65 <= c <= 70 {
        Some((c - 55) as u8)
    } else {
        None
    }
}

/// Decoding hex digit pairs from `i`.
pub open spec fn hex_dec(bs: Seq<u8>, i: nat, out: Seq<u8>) -> Result<Seq<u8>, Error>
    decreases bs.len() - i,
{
    if i + 2 > bs.len() {
        Ok(out)
    } else {
        match hex_val(bs[i as int]) {
            None => Err(Error::InvalidValue { field: "hex", value: bs[i as int] as u64, reason: "not a hex digit" }),
            Some(hi) => match hex_val(bs[(i + 1) as int]) {
                None => Err(Error::InvalidValue { field: "hex", value: bs[(i + 1) as int] as u64, reason: "not a hex digit" }),
                Some(lo) => hex_dec(bs, (i + 2) as nat, out.push((hi * 16 + lo) as u8)),
            },
        }
    }
}

/// Outcome of decoding the hex text whose bytes are `bs`.
pub open spec fn spec_hex_decode(bs: Seq<u8>) -> Result<Seq<u8>, Error> {
    if bs.len() % 2 != 0 {
        Err(Error::InvalidValue { field: "hex", value: bs.len() as u64, reason: "odd-length hex string" })
    } else {
        hex_dec(bs, 0, Seq::empty())
    }
}

fn hex_nibble(c: u8) -> (r: Option<u8>)
    ensures
        r == hex_val(c),
{
    if 48 <= c && c <= 57 {
        Some(c - 48)
    } else if 97 <= c && c <= 102 {
        Some(c - 87)
    } else if 65 <= c && c <= 70 {
        Some(c - 55)
    } else {
        None
    }
}

/// Hex-decode a string: an odd length or a non-hex character is refused.
pub fn hex_decode(s: &str) -> (r: Result<Vec<u8>, Error>)
    ensures
        match spec_hex_decode(vstd::utf8::encode_utf8(s@)) {
            Ok(v) => r matches Ok(x) && x@ == v,
            Err(e) => r == Err::<Vec<u8>, Error>(e),
        },
{
    let bytes = s.as_bytes();
    let n = bytes.len();
    if n % 2 != 0 {
        return Err(Error::InvalidValue { field: "hex", value: n as u64, reason: "odd-length hex string" });
    }
    let mut out: Vec<u8> = Vec::new();
    let mut i: usize = 0;
    while i < n
        invariant
            i <= n,
            n == bytes@.len(),
            n % 2 == 0,
            i % 2 == 0,
            bytes@ == vstd::utf8::encode_utf8(s@),
            hex_dec(bytes@, 0, Seq::empty()) == hex_dec(bytes@, i as nat, out@),
        decreases n - i,
    {
        let hi = match hex_nibble(bytes[i]) {
            Some(v) => v,
            None => {
                return Err(Error::InvalidValue { field: "hex", value: bytes[i] as u64, reason: "not a hex digit" });
            },
        };
        let lo = match hex_nibble(bytes[i + 1]) {
            Some(v) => v,
            None => {
                return Err(Error::InvalidValue { field: "hex", value: bytes[i + 1] as u64, reason: "not a hex digit" });
            },
        };
        out.push(hi * 16 + lo);
        i += 2;
    }
    Ok(out)
}

proof fn lemma_hex_char_val(v: int)
    requires
        0 <= v < 16,
    ensures
        (hex_char(v) as u32) < 128,
        hex_val(hex_char(v) as u8) == Some(v as u8),
{
}

proof fn lemma_hex_ascii(d: Seq<u8>)
    ensures
        vstd::utf8::is_ascii_chars(hex_enc(d)),
        hex_enc(d).len() == 2 * d.len(),
        forall|k: int| 0 <= k < d.len() ==> hex_enc(d)[2 * k] == hex_char((d[k] / 16) as int) && hex_enc(d)[2 * k + 1] == hex_char((d[k] % 16) as int),
    decreases d.len(),
{
    if d.len() > 0 {
        lemma_hex_ascii(d.skip(1));
        lemma_hex_char_val((d[0] / 16) as int);
        lemma_hex_char_val((d[0] % 16) as int);
        let h = seq![hex_char((d[0] / 16) as int), hex_char((d[0] % 16) as int)];
        let r = hex_enc(d.skip(1));
        assert forall|i: int| 0 <= i < (h + r).len() implies '\0' <= #[trigger] (h + r)[i] <= '\u{7f}' by {
            if i >= 2 {
                assert((h + r)[i] == r[i - 2]);
            }
        }
        assert forall|k: int| 0 <= k < d.len() implies hex_enc(d)[2 * k] == hex_char((d[k] / 16) as int) && hex_enc(d)[2 * k + 1] == hex_char((d[k] % 16) as int) by {
            if k > 0 {
                assert(d.skip(1)[k - 1] == d[k]);
                assert((h + r)[2 * k] == r[2 * (k - 1)]);
                assert((h + r)[2 * k + 1] == r[2 * (k - 1) + 1]);
            }
        }
    }
}

proof fn lemma_hex_dec_ok(bs: Seq<u8>, d: Seq<u8>, k: nat, out: Seq<u8>)
    requires
        bs.len() == 2 * d.len(),
        k <= d.len(),
        forall|j: int| 0 <= j < d.len() ==> hex_val(#[trigger] bs[2 * j]) == Some(d[j] / 16) && hex_val(bs[2 * j + 1]) == Some(d[j] % 16),
        out == d.take(k as int),
    ensures
        hex_dec(bs, (2 * k) as nat, out) == Ok::<Seq<u8>, Error>(d),
    decreases d.len() - k,
{
    if k < d.len() {
        let ki = k as int;
        assert(hex_val(bs[2 * ki]) == Some(d[ki] / 16));
        assert(((d[ki] / 16) * 16 + d[ki] % 16) as u8 == d[ki]);
        assert(d.take(ki + 1) =~= out.push(d[ki]));
        lemma_hex_dec_ok(bs, d, (k + 1) as nat, d.take(ki + 1));
        assert(2 * k + 2 == 2 * (k + 1));
    } else {
        assert(d.take(k as int) =~= d);
    }
}

/// Decoding a hex encoding gives the bytes back.
pub proof fn lemma_hex_round_trip(d: Seq<u8>)
    ensures
        spec_hex_decode(vstd::utf8::encode_utf8(hex_enc(d))) == Ok::<Seq<u8>, Error>(d),
{
    lemma_hex_ascii(d);
    lemma_ascii_bytes(hex_enc(d));
    let bs = vstd::utf8::encode_utf8(hex_enc(d));
    assert forall|j: int| 0 <= j < d.len() implies hex_val(#[trigger] bs[2 * j]) == Some(d[j] / 16) && hex_val(bs[2 * j + 1]) == Some(d[j] % 16) by {
        lemma_hex_char_val((d[j] / 16) as int);
        lemma_hex_char_val((d[j] % 16) as int);
    }
    assert(bs.len() % 2 == 0);
    assert(d.take(0) =~= Seq::<u8>::empty());
    lemma_hex_dec_ok(bs, d, 0, Seq::empty());
}


// ---------------------------------------------------------------------------
// Constants
// ---------------------------------------------------------------------------

/// RTP fixed-header length (RFC 3550 §5.1): no CSRC, no extension.
pub const RTP_HEADER_LEN: usize = 12;
/// Default dynamic payload type for the H.264 video stream.
pub const DEFAULT_VIDEO_PT: u8 = 96;
/// Default dynamic payload type for the AAC audio stream.
pub const DEFAULT_AUDIO_PT: u8 = 97;
/// Default network MTU (payload budget) forcing FU-A on larger NALs.
pub const DEFAULT_MTU: usize = 1400;
/// Video RTP clock rate (RFC 6184: H.264 is carried at 90 kHz).
pub const VIDEO_CLOCK_RATE: u32 = 90000;
/// Default dynamic payload type for a KLV metadata stream (RFC 6597).
pub const DEFAULT_KLV_PT: u8 = 98;
/// RFC 6597 SDP encoding name for SMPTE ST 336 KLV.
pub const KLV_ENCODING_NAME: &'static str = "smpte336m";
/// H.264 NAL type of a coded slice of an IDR picture.
pub const NAL_TYPE_IDR: u8 = 5;
/// STAP-A aggregation NAL type (RFC 6184 §5.7.1).
pub const NAL_TYPE_STAP_A: u8 = 24;
/// FU-A fragmentation NAL type (RFC 6184 §5.8).
pub const NAL_TYPE_FU_A: u8 = 28;

// ---------------------------------------------------------------------------
// The RTP fixed header (RFC 3550 §5.1)
// ---------------------------------------------------------------------------

/// Second header octet: the marker bit over the 7-bit payload type.
pub open spec fn rtp_b1(pt: u8, marker: bool) -> u8 {
    if marker { (128 + pt % 128) as u8 } else { pt % 128 }
}

/// The 12 header bytes written for `V=2 P=0 X=0 CC=0`.
pub open spec fn rtp_hdr(pt: u8, marker: bool, seq: u16, ts: u32, ssrc: u32) -> Seq<u8> {
    seq![128u8, rtp_b1(pt, marker)] + be16(seq) + be32(ts) + be32(ssrc)
}

/// Writes an RTP fixed header (`V=2 P=0 X=0 CC=0`) into a new buffer; the
/// payload type is masked to its low 7 bits.
pub fn rtp_header(pt: u8, marker: bool, seq: u16, timestamp: u32, ssrc: u32) -> (r: Vec<u8>)
    ensures
        r@ == rtp_hdr(pt, marker, seq, timestamp, ssrc),
{
    let mut out: Vec<u8> = Vec::new();
    out.push(128u8);
    let low = pt % 128;
    if marker {
        out.push(128u8 + low);
    } else {
        out.push(low);
    }
    push16(&mut out, seq);
    push32(&mut out, timestamp);
    push32(&mut out, ssrc);
    assert(out@ =~= rtp_hdr(pt, marker, seq, timestamp, ssrc));
    out
}

/// Where the payload of packet `s` lies, after the fixed header, the CSRC
/// list and any header extension, and before any padding; or why the packet
/// is refused.
pub open spec fn rtp_span(s: Seq<u8>) -> Result<(int, int), Error> {
    let n = s.len() as int;
    if n < 12 {
        Err(Error::BufferTooShort { need: 12, have: n as usize, what: "RTP fixed header" })
    } else if s[0] / 64 != 2 {
        Err(Error::InvalidValue { field: "rtp_version", value: (s[0] / 64) as u64, reason: "must be 2" })
    } else {
        let csrc_end = 12 + 4 * (s[0] % 16);
        let has_ext = (s[0] / 16) % 2 == 1;
        if csrc_end > n {
            Err(Error::BufferTooShort { need: csrc_end as usize, have: n as usize, what: "RTP CSRC list" })
        } else if has_ext && csrc_end + 4 > n {
            Err(Error::BufferTooShort { need: (csrc_end + 4) as usize, have: n as usize, what: "RTP header extension" })
        } else {
            let start = if has_ext { csrc_end + 4 + 4 * get16(s, csrc_end + 2) } else { csrc_end };
            if start > n {
                Err(Error::BufferTooShort { need: start as usize, have: n as usize, what: "RTP header extension" })
            } else if (s[0] / 32) % 2 == 1 {
                let pad = s[n - 1];
                if pad == 0 || pad > n - start {
                    Err(Error::InvalidValue {
                        field: "rtp_padding",
                        value: pad as u64,
                        reason: "padding count is zero or exceeds the payload",
                    })
                } else {
                    Ok((start, n - pad))
                }
            } else {
                Ok((start, n))
            }
        }
    }
}

/// A parsed RTP fixed header and the payload it frames.
#[derive(Debug, Clone, Copy)]
pub struct RtpHeader<'a> {
    /// The marker bit.
    pub marker: bool,
    /// The 7-bit payload type.
    pub payload_type: u8,
    /// The 16-bit sequence number.
    pub sequence: u16,
    /// The 32-bit media-clock timestamp.
    pub timestamp: u32,
    /// The synchronisation source.
    pub ssrc: u32,
    /// The payload, without CSRC list, header extension or padding.
    pub payload: &'a [u8],
}

/// What a parsed header of packet `s` holds, when [`rtp_span`] accepts it.
pub open spec fn rtp_header_ok(s: Seq<u8>, h: RtpHeader) -> bool {
    &&& rtp_span(s) is Ok
    &&& h.marker == (s[1] >= 128)
    &&& h.payload_type == s[1] % 128
    &&& h.sequence == get16(s, 2)
    &&& h.timestamp == get32(s, 4)
    &&& h.ssrc == get32(s, 8)
    &&& h.payload@ == s.subrange(rtp_span_start(s), rtp_span_end(s))
}

/// First payload byte of an accepted packet.
pub open spec fn rtp_span_start(s: Seq<u8>) -> int {
    match rtp_span(s) {
        Ok((a, _)) => a,
        Err(_) => 0,
    }
}

/// End of the payload of an accepted packet.
pub open spec fn rtp_span_end(s: Seq<u8>) -> int {
    match rtp_span(s) {
        Ok((_, b)) => b,
        Err(_) => 0,
    }
}

/// Parses and validates an RTP fixed header (version 2), skipping the CSRC
/// list and a header extension and dropping padding.
pub fn parse_rtp_header(pkt: &[u8]) -> (r: Result<RtpHeader<'_>, Error>)
    ensures
        match r {
            Ok(h) => rtp_header_ok(pkt@, h),
            Err(e) => rtp_span(pkt@) == Err::<(int, int), Error>(e),
        },
{
    let n = pkt.len();
    if n < 12 {
        return Err(Error::BufferTooShort { need: 12, have: n, what: "RTP fixed header" });
    }
    let b0 = pkt[0];
    if b0 / 64 != 2 {
        return Err(Error::InvalidValue { field: "rtp_version", value: (b0 / 64) as u64, reason: "must be 2" });
    }
    let csrc_end: usize = 12 + 4 * ((b0 % 16) as usize);
    let has_ext = (b0 / 16) % 2 == 1;
    if csrc_end > n {
        return Err(Error::BufferTooShort { need: csrc_end, have: n, what: "RTP CSRC list" });
    }
    let mut start = csrc_end;
    if has_ext {
        if csrc_end + 4 > n {
            return Err(Error::BufferTooShort { need: csrc_end + 4, have: n, what: "RTP header extension" });
        }
        let words = read16(pkt, csrc_end + 2) as usize;
        start = csrc_end + 4 + 4 * words;
        if start > n {
            return Err(Error::BufferTooShort { need: start, have: n, what: "RTP header extension" });
        }
    }
    let mut end = n;
    if (b0 / 32) % 2 == 1 {
        let pad = pkt[n - 1];
        if pad == 0 || (pad as usize) > n - start {
            return Err(Error::InvalidValue {
                field: "rtp_padding",
                value: pad as u64,
                reason: "padding count is zero or exceeds the payload",
            });
        }
        end = n - pad as usize;
    }
    let b1 = pkt[1];
    Ok(RtpHeader {
        marker: b1 >= 128,
        payload_type: b1 % 128,
        sequence: read16(pkt, 2),
        timestamp: read32(pkt, 4),
        ssrc: read32(pkt, 8),
        payload: &pkt[start..end],
    })
}


// ---------------------------------------------------------------------------
// KLV-over-RTP (RFC 6597)
// ---------------------------------------------------------------------------

/// The sequence number `k` steps after `start`, wrapping at 16 bits.
pub open spec fn seq_after(start: u16, k: int) -> u16 {
    ((start + k) % 65536) as u16
}

/// The fragments of `rest`, at most `per` bytes each, in order; the last
/// one holds what is left (at least one fragment, even for empty `rest`).
pub open spec fn frags(rest: Seq<u8>, per: nat) -> Seq<Seq<u8>>
    decreases rest.len(),
{
    if rest.len() <= per || per == 0 {
        seq![rest]
    } else {
        seq![rest.take(per as int)] + frags(rest.skip(per as int), per)
    }
}

/// The packets that carry one KLV unit: `frags` of the unit after a fixed
/// header each, one shared timestamp, the marker on the last packet only.
pub open spec fn klv_packets(unit: Seq<u8>, pt: u8, seq_start: u16, ts: u32, ssrc: u32, per: nat) -> Seq<Seq<u8>> {
    let fs = frags(unit, per);
    Seq::new(fs.len(), |f: int| rtp_hdr(pt, f == fs.len() - 1, seq_after(seq_start, f), ts, ssrc) + fs[f])
}

/// The views of a list of byte vectors.
pub open spec fn views(v: Seq<Vec<u8>>) -> Seq<Seq<u8>> {
    v.map_values(|p: Vec<u8>| p@)
}

proof fn lemma_frags_len(rest: Seq<u8>, per: nat)
    ensures
        frags(rest, per).len() >= 1,
        frags(rest, per).len() <= rest.len() + 1,
        (frags(rest, per).len() == 1) == (rest.len() <= per || per == 0),
        frags(rest, per)[0] == (if rest.len() <= per || per == 0 { rest } else { rest.take(per as int) }),
    decreases rest.len(),
{
    if !(rest.len() <= per || per == 0) {
        lemma_frags_len(rest.skip(per as int), per);
    }
}

/// Packetises one KLV unit into RTP packets (RFC 6597): the unit bytes
/// follow the fixed header directly, split in order across packets of at
/// most `mtu` bytes that share `timestamp`, the marker set on the last.
pub fn packetise_klv(klv_unit: &[u8], pt: u8, seq_start: u16, timestamp: u32, ssrc: u32, mtu: usize) -> (r: Result<Vec<Vec<u8>>, Error>)
    ensures
        klv_unit@.len() == 0 ==> r == Err::<Vec<Vec<u8>>, Error>(Error::InvalidInput("cannot packetise an empty KLV unit")),
        klv_unit@.len() > 0 && mtu <= 12 ==> r == Err::<Vec<Vec<u8>>, Error>(Error::InvalidInput("MTU too small for KLV-over-RTP")),
        klv_unit@.len() > 0 && mtu > 12 ==> (r matches Ok(ps) && views(ps@) == klv_packets(klv_unit@, pt, seq_start, timestamp, ssrc, (mtu - 12) as nat)),
{
    if klv_unit.len() == 0 {
        return Err(Error::InvalidInput("cannot packetise an empty KLV unit"));
    }
    if mtu <= RTP_HEADER_LEN {
        return Err(Error::InvalidInput("MTU too small for KLV-over-RTP"));
    }
    let per = mtu - RTP_HEADER_LEN;
    let total = klv_unit.len();
    let ghost fs = frags(klv_unit@, per as nat);
    let mut packets: Vec<Vec<u8>> = Vec::new();
    let mut seq = seq_start;
    let mut start: usize = 0;
    let mut done = false;
    assert(klv_unit@.skip(0) =~= klv_unit@);
    while !done
        invariant
            per == mtu - 12,
            per > 0,
            total == klv_unit@.len(),
            fs == frags(klv_unit@, per as nat),
            !done ==> start < total,
            start <= total,
            !done ==> fs == fs.take(packets@.len() as int) + frags(klv_unit@.skip(start as int), per as nat),
            done ==> packets@.len() == fs.len(),
            packets@.len() <= fs.len(),
            seq == seq_after(seq_start, packets@.len() as int),
            forall|f: int| 0 <= f < packets@.len() ==> #[trigger] packets@[f]@ == rtp_hdr(pt, f == fs.len() - 1, seq_after(seq_start, f), timestamp, ssrc) + fs[f],
        decreases total - start + (if done { 0int } else { 1int }),
    {
        let ghost k = packets@.len() as int;
        let ghost rest = klv_unit@.skip(start as int);
        proof {
            lemma_frags_len(rest, per as nat);
        }
        let left = total - start;
        let last = left <= per;
        let end = if last { total } else { start + per };
        let mut pkt = rtp_header(pt, last, seq, timestamp, ssrc);
        push_all(&mut pkt, &klv_unit[start..end]);
        proof {
            let tail = frags(rest, per as nat);
            assert(fs.len() == k + tail.len());
            assert(fs[k] == tail[0]) by {
                assert(fs[k] == (fs.take(k) + tail)[k]);
            }
            if last {
                assert(rest =~= klv_unit@.subrange(start as int, end as int));
            } else {
                assert(rest.take(per as int) =~= klv_unit@.subrange(start as int, end as int));
            }
            assert((last) == (k == fs.len() - 1));
        }
        packets.push(pkt);
        seq = if seq == 65535 { 0 } else { seq + 1 };
        if last {
            done = true;
        } else {
            proof {
                let tail = frags(rest, per as nat);
                assert(tail == seq![rest.take(per as int)] + frags(rest.skip(per as int), per as nat));
                assert(rest.skip(per as int) =~= klv_unit@.skip(end as int));
                assert(fs.take(k + 1) =~= fs.take(k).push(tail[0]));
                assert(fs =~= fs.take(k + 1) + frags(klv_unit@.skip(end as int), per as nat));
            }
            start = end;
        }
    }
    assert(views(packets@) =~= klv_packets(klv_unit@, pt, seq_start, timestamp, ssrc, per as nat));
    Ok(packets)
}


/// The reassembly state after the first `n` packets: the finished units,
/// the bytes of the unit being gathered and the timestamp it carries; or
/// the error of the first packet that is refused.
pub open spec fn klv_fold(ps: Seq<Seq<u8>>, n: nat) -> Result<(Seq<Seq<u8>>, Seq<u8>, Option<u32>), Error>
    decreases n,
{
    if n == 0 || n > ps.len() {
        Ok((Seq::empty(), Seq::empty(), None))
    } else {
        match klv_fold(ps, (n - 1) as nat) {
            Err(e) => Err(e),
            Ok((units, cur, cur_ts)) => {
                let p = ps[n - 1];
                match rtp_span(p) {
                    Err(e) => Err(e),
                    Ok((a, b)) => {
                        let ts = get32(p, 4);
                        let cut = cur_ts is Some && cur_ts->0 != ts && cur.len() > 0;
                        let units1 = if cut { units.push(cur) } else { units };
                        let cur1 = (if cut { Seq::empty() } else { cur }) + p.subrange(a, b);
                        if p[1] >= 128 {
                            Ok((units1.push(cur1), Seq::empty(), None))
                        } else {
                            Ok((units1, cur1, Some(ts)))
                        }
                    },
                }
            },
        }
    }
}

/// The KLV units reassembled from a packet stream: payloads concatenated in
/// arrival order, a unit ending at a marker packet or where the timestamp
/// changes, and what is left over at the end kept as a last unit.
pub open spec fn spec_depacketise_klv(ps: Seq<Seq<u8>>) -> Result<Seq<Seq<u8>>, Error> {
    match klv_fold(ps, ps.len()) {
        Err(e) => Err(e),
        Ok((units, cur, _)) => Ok(if cur.len() > 0 { units.push(cur) } else { units }),
    }
}

proof fn lemma_klv_fold_err(ps: Seq<Seq<u8>>, n: nat, m: nat)
    requires
        n <= m <= ps.len(),
        klv_fold(ps, n) is Err,
    ensures
        klv_fold(ps, m) == klv_fold(ps, n),
    decreases m - n,
{
    if m > n {
        lemma_klv_fold_err(ps, n, (m - 1) as nat);
    }
}

/// Reassembles KLV units from a stream of RTP packets (RFC 6597).
pub fn depacketise_klv(packets: &[Vec<u8>]) -> (r: Result<Vec<Vec<u8>>, Error>)
    ensures
        match spec_depacketise_klv(views(packets@)) {
            Ok(us) => r matches Ok(v) && views(v@) == us,
            Err(e) => r == Err::<Vec<Vec<u8>>, Error>(e),
        },
{
    let ghost ps = views(packets@);
    let mut units: Vec<Vec<u8>> = Vec::new();
    let mut cur: Vec<u8> = Vec::new();
    let mut cur_ts: Option<u32> = None;
    let mut i: usize = 0;
    assert(views(units@) =~= Seq::<Seq<u8>>::empty());
    assert(cur@ =~= Seq::<u8>::empty());
    while i < packets.len()
        invariant
            i <= packets@.len(),
            ps == views(packets@),
            klv_fold(ps, i as nat) == Ok::<(Seq<Seq<u8>>, Seq<u8>, Option<u32>), Error>((views(units@), cur@, cur_ts)),
        decreases packets@.len() - i,
    {
        let ghost p = ps[i as int];
        assert(p == packets@[i as int]@);
        let hdr = match parse_rtp_header(&packets[i]) {
            Ok(h) => h,
            Err(e) => {
                proof {
                    assert(klv_fold(ps, (i + 1) as nat) == Err::<(Seq<Seq<u8>>, Seq<u8>, Option<u32>), Error>(e));
                    lemma_klv_fold_err(ps, (i + 1) as nat, ps.len());
                }
                return Err(e);
            },
        };
        let ghost u0 = views(units@);
        let ghost c0 = cur@;
        let cut = match cur_ts {
            Some(ts) => ts != hdr.timestamp && cur.len() > 0,
            None => false,
        };
        if cut {
            units.push(cur);
            cur = Vec::new();
            assert(views(units@) =~= u0.push(c0));
        }
        let ghost u1 = views(units@);
        push_all(&mut cur, hdr.payload);
        let ghost c1 = cur@;
        assert(c1 =~= (if cut { Seq::<u8>::empty() } else { c0 }) + p.subrange(rtp_span_start(p), rtp_span_end(p)));
        if hdr.marker {
            units.push(cur);
            cur = Vec::new();
            assert(views(units@) =~= u1.push(c1));
            assert(cur@ =~= Seq::<u8>::empty());
            cur_ts = None;
        } else {
            cur_ts = Some(hdr.timestamp);
        }
        i += 1;
    }
    assert(ps.len() == i);
    if cur.len() > 0 {
        units.push(cur);
    }
    Ok(units)
}


/// The first `k` byte strings of `fs`, concatenated.
pub open spec fn cat(fs: Seq<Seq<u8>>, k: int) -> Seq<u8>
    decreases k,
{
    if k <= 0 {
        Seq::empty()
    } else {
        cat(fs, k - 1) + fs[k - 1]
    }
}

proof fn lemma_cat_cons(x: Seq<u8>, ys: Seq<Seq<u8>>, m: int)
    requires
        0 <= m <= ys.len(),
    ensures
        cat(seq![x] + ys, m + 1) == x + cat(ys, m),
    decreases m,
{
    if m == 0 {
        assert(cat(seq![x] + ys, 0) == Seq::<u8>::empty());
        assert((seq![x] + ys)[0] == x);
        assert(Seq::<u8>::empty() + x =~= x);
        assert(x + Seq::<u8>::empty() =~= x);
    } else {
        lemma_cat_cons(x, ys, m - 1);
        assert((seq![x] + ys)[m] == ys[m - 1]);
        assert(x + cat(ys, m - 1) + ys[m - 1] =~= x + (cat(ys, m - 1) + ys[m - 1]));
    }
}

proof fn lemma_frags_cat(rest: Seq<u8>, per: nat)
    requires
        per > 0,
    ensures
        cat(frags(rest, per), frags(rest, per).len() as int) == rest,
    decreases rest.len(),
{
    let fs = frags(rest, per);
    if rest.len() <= per {
        assert(cat(fs, 0) == Seq::<u8>::empty());
        assert(Seq::<u8>::empty() + rest =~= rest);
    } else {
        let tail = frags(rest.skip(per as int), per);
        lemma_frags_cat(rest.skip(per as int), per);
        lemma_cat_cons(rest.take(per as int), tail, tail.len() as int);
        assert(rest.take(per as int) + rest.skip(per as int) =~= rest);
    }
}

proof fn lemma_hdr_parse(pt: u8, marker: bool, sq: u16, ts: u32, ssrc: u32, payload: Seq<u8>)
    ensures
        ({
            let p = rtp_hdr(pt, marker, sq, ts, ssrc) + payload;
            &&& rtp_span(p) == Ok::<(int, int), Error>((12, p.len() as int))
            &&& (p[1] >= 128) == marker
            &&& get32(p, 4) == ts
            &&& p.subrange(12, p.len() as int) == payload
        }),
{
    let p = rtp_hdr(pt, marker, sq, ts, ssrc) + payload;
    assert(p[0] == 128u8);
    assert(p[1] == rtp_b1(pt, marker));
    assert(p.subrange(4, 8) =~= be32(ts));
    lemma_be32_get32(ts, p, 4);
    assert(p.subrange(12, p.len() as int) =~= payload);
}

/// What `depacketise_klv` returns for the packets that `packetise_klv`
/// makes of a non-empty unit, for any MTU above the RTP header size: exactly
/// that one unit.
pub proof fn lemma_packetise_depacketise_klv(unit: Seq<u8>, pt: u8, seq_start: u16, ts: u32, ssrc: u32, mtu: usize)
    requires
        unit.len() > 0,
        mtu > 12,
    ensures
        spec_depacketise_klv(klv_packets(unit, pt, seq_start, ts, ssrc, (mtu - 12) as nat)) == Ok::<Seq<Seq<u8>>, Error>(seq![unit]),
{
    lemma_klv_round_trip(unit, pt, seq_start, ts, ssrc, (mtu - 12) as nat);
}

/// Packetising a non-empty KLV unit into fragments of `per` bytes and
/// reassembling the packets gives back exactly that unit.
pub proof fn lemma_klv_round_trip(unit: Seq<u8>, pt: u8, seq_start: u16, ts: u32, ssrc: u32, per: nat)
    requires
        unit.len() > 0,
        per > 0,
    ensures
        spec_depacketise_klv(klv_packets(unit, pt, seq_start, ts, ssrc, per)) == Ok::<Seq<Seq<u8>>, Error>(seq![unit]),
{
    let fs = frags(unit, per);
    let ps = klv_packets(unit, pt, seq_start, ts, ssrc, per);
    let n = fs.len();
    lemma_frags_len(unit, per);
    lemma_frags_cat(unit, per);
    let k = (n - 1) as nat;
    assert(ps.len() == n);
    let p = ps[k as int];
    lemma_hdr_parse(pt, true, seq_after(seq_start, k as int), ts, ssrc, fs[k as int]);
    assert(p == rtp_hdr(pt, true, seq_after(seq_start, k as int), ts, ssrc) + fs[k as int]);
    if k == 0 {
        assert(klv_fold(ps, 0) == Ok::<(Seq<Seq<u8>>, Seq<u8>, Option<u32>), Error>((Seq::empty(), Seq::empty(), None)));
        assert(Seq::<u8>::empty() + fs[0] =~= fs[0]);
        assert(cat(fs, 0) == Seq::<u8>::empty());
        assert(cat(fs, 1) == cat(fs, 0) + fs[0]);
    } else {
        lemma_klv_prefix(unit, pt, seq_start, ts, ssrc, per, k);
        assert(cat(fs, n as int) == cat(fs, k as int) + fs[k as int]);
    }
    assert(klv_fold(ps, n) == Ok::<(Seq<Seq<u8>>, Seq<u8>, Option<u32>), Error>((Seq::<Seq<u8>>::empty().push(unit), Seq::empty(), None)));
    assert(Seq::<Seq<u8>>::empty().push(unit) =~= seq![unit]);
}

proof fn lemma_klv_prefix(unit: Seq<u8>, pt: u8, seq_start: u16, ts: u32, ssrc: u32, per: nat, k: nat)
    requires
        unit.len() > 0,
        per > 0,
        1 <= k < frags(unit, per).len(),
    ensures
        klv_fold(klv_packets(unit, pt, seq_start, ts, ssrc, per), k) == Ok::<(Seq<Seq<u8>>, Seq<u8>, Option<u32>), Error>((Seq::empty(), cat(frags(unit, per), k as int), Some(ts))),
    decreases k,
{
    let fs = frags(unit, per);
    let ps = klv_packets(unit, pt, seq_start, ts, ssrc, per);
    let j = (k - 1) as nat;
    assert(ps.len() == fs.len());
    let p = ps[j as int];
    lemma_hdr_parse(pt, false, seq_after(seq_start, j as int), ts, ssrc, fs[j as int]);
    assert(p == rtp_hdr(pt, false, seq_after(seq_start, j as int), ts, ssrc) + fs[j as int]);
    assert(cat(fs, k as int) == cat(fs, j as int) + fs[j as int]);
    if j == 0 {
        assert(klv_fold(ps, 0) == Ok::<(Seq<Seq<u8>>, Seq<u8>, Option<u32>), Error>((Seq::empty(), Seq::empty(), None)));
        assert(Seq::<u8>::empty() + fs[0] =~= fs[0]);
        assert(cat(fs, 0) == Seq::<u8>::empty());
    } else {
        lemma_klv_prefix(unit, pt, seq_start, ts, ssrc, per, j);
    }
}


// ---------------------------------------------------------------------------
// Access-unit reassembly (RFC 6184 §5.7/§5.8, RFC 3640 §3.2)
// ---------------------------------------------------------------------------

/// A reassembled access unit with its RTP timestamp and a random-access flag.
#[derive(Debug, Clone)]
pub struct ReassembledAu {
    /// The RTP timestamp shared by the unit's packets.
    pub timestamp: u32,
    /// Whether the unit is a random-access point.
    pub is_sync: bool,
    /// The unit's bytes (video: 4-byte length-prefixed NALs).
    pub data: Vec<u8>,
}

/// An access unit as plain values: timestamp, sync flag, bytes.
pub type AuView = (u32, bool, Seq<u8>);

/// The plain values of a list of access units.
pub open spec fn au_views(v: Seq<ReassembledAu>) -> Seq<AuView> {
    v.map_values(|a: ReassembledAu| (a.timestamp, a.is_sync, a.data@))
}

/// The NALs of `nals`, each after its 4-byte big-endian length.
pub open spec fn lp(nals: Seq<Seq<u8>>) -> Seq<u8>
    decreases nals.len(),
{
    if nals.len() == 0 {
        Seq::empty()
    } else {
        lp(nals.drop_last()) + be32(nals.last().len() as u32) + nals.last()
    }
}

/// 4-byte length-prefixes a list of NALs into one IR video sample.
pub fn length_prefix_nals(nals: &[Vec<u8>]) -> (r: Vec<u8>)
    ensures
        r@ == lp(views(nals@)),
{
    let mut out: Vec<u8> = Vec::new();
    let mut i: usize = 0;
    while i < nals.len()
        invariant
            i <= nals@.len(),
            out@ == lp(views(nals@).take(i as int)),
        decreases nals@.len() - i,
    {
        let ghost before = out@;
        let n = nals[i].len();
        push32(&mut out, n as u32);
        push_all(&mut out, nals[i].as_slice());
        proof {
            let t = views(nals@).take(i + 1);
            assert(t.drop_last() =~= views(nals@).take(i as int));
            assert(t.last() == nals@[i as int]@);
        }
        i += 1;
    }
    assert(views(nals@).take(nals@.len() as int) =~= views(nals@));
    out
}

/// Whether a NAL is a coded slice of an IDR picture.
pub open spec fn is_idr_nal(n: Seq<u8>) -> bool {
    n.len() > 0 && n[0] % 32 == 5
}

/// Whether some NAL of `nals` is an IDR slice.
pub open spec fn any_idr(nals: Seq<Seq<u8>>) -> bool {
    exists|i: int| 0 <= i < nals.len() && is_idr_nal(#[trigger] nals[i])
}

/// The access units after closing the unit made of `nals` at timestamp `ts`
/// (nothing is added when `nals` is empty).
pub open spec fn flush(aus: Seq<AuView>, nals: Seq<Seq<u8>>, ts: u32) -> Seq<AuView> {
    if nals.len() == 0 {
        aus
    } else {
        aus.push((ts, any_idr(nals), lp(nals)))
    }
}

fn has_idr(nals: &Vec<Vec<u8>>) -> (r: bool)
    ensures
        r == any_idr(views(nals@)),
{
    let mut i: usize = 0;
    while i < nals.len()
        invariant
            i <= nals@.len(),
            forall|j: int| 0 <= j < i ==> !is_idr_nal(#[trigger] views(nals@)[j]),
        decreases nals@.len() - i,
    {
        if nals[i].len() > 0 && nals[i][0] % 32 == NAL_TYPE_IDR {
            assert(is_idr_nal(views(nals@)[i as int]));
            return true;
        }
        assert(!is_idr_nal(views(nals@)[i as int]));
        i += 1;
    }
    false
}

fn flush_au(aus: &mut Vec<ReassembledAu>, nals: &mut Vec<Vec<u8>>, ts: u32)
    ensures
        au_views(final(aus)@) == flush(au_views(old(aus)@), views(old(nals)@), ts),
        final(nals)@.len() == 0,
{
    if nals.len() == 0 {
        return;
    }
    let is_sync = has_idr(nals);
    let data = length_prefix_nals(nals.as_slice());
    let ghost a0 = au_views(aus@);
    aus.push(ReassembledAu { timestamp: ts, is_sync, data });
    assert(au_views(aus@) =~= a0.push((ts, is_sync, data@)));
    *nals = Vec::new();
}


/// The NALs of a STAP-A payload from offset `off`: each after its 16-bit
/// size, up to the end of the payload.
pub open spec fn stap_nals(pl: Seq<u8>, off: int) -> Result<Seq<Seq<u8>>, Error>
    decreases pl.len() - off,
{
    if off >= pl.len() || off < 0 {
        Ok(Seq::empty())
    } else if off + 2 > pl.len() {
        Err(Error::BufferTooShort { need: sat(off + 2), have: pl.len() as usize, what: "STAP-A size prefix" })
    } else {
        let end = off + 2 + get16(pl, off);
        if end > pl.len() {
            Err(Error::BufferTooShort { need: sat(end), have: pl.len() as usize, what: "STAP-A NAL" })
        } else {
            match stap_nals(pl, end) {
                Ok(r) => Ok(seq![pl.subrange(off + 2, end)] + r),
                Err(e) => Err(e),
            }
        }
    }
}

fn split_stap_a(pl: &[u8], out: &mut Vec<Vec<u8>>) -> (r: Result<(), Error>)
    requires
        pl@.len() >= 1,
    ensures
        match stap_nals(pl@, 1) {
            Ok(ns) => r is Ok && views(final(out)@) == views(old(out)@) + ns,
            Err(e) => r == Err::<(), Error>(e),
        },
{
    let n = pl.len();
    let mut off: usize = 1;
    let ghost base = views(out@);
    assert(views(out@) =~= base + Seq::<Seq<u8>>::empty());
    while off < n
        invariant
            1 <= off <= n,
            n == pl@.len(),
            stap_nals(pl@, 1) == (match stap_nals(pl@, off as int) {
                Ok(r) => Ok(views(out@).subrange(base.len() as int, views(out@).len() as int) + r),
                Err(e) => Err(e),
            }),
            views(out@).len() >= base.len(),
            views(out@).subrange(0, base.len() as int) == base,
        decreases n - off,
    {
        if n - off < 2 {
            return Err(Error::BufferTooShort { need: off.saturating_add(2), have: n, what: "STAP-A size prefix" });
        }
        let size = read16(pl, off) as usize;
        let start = off + 2;
        if size > n - start {
            return Err(Error::BufferTooShort { need: start.saturating_add(size), have: n, what: "STAP-A NAL" });
        }
        let end = start + size;
        let ghost before = views(out@);
        let nal = crate::bytes::copy_range(pl, start, end);
        out.push(nal);
        proof {
            let mid = before.subrange(base.len() as int, before.len() as int);
            let now = views(out@);
            assert(now =~= before.push(pl@.subrange(start as int, end as int)));
            assert(now.subrange(base.len() as int, now.len() as int) =~= mid.push(pl@.subrange(start as int, end as int)));
            assert(now.subrange(0, base.len() as int) =~= before.subrange(0, base.len() as int));
            match stap_nals(pl@, end as int) {
                Ok(r) => {
                    assert(mid + (seq![pl@.subrange(start as int, end as int)] + r) =~= mid.push(pl@.subrange(start as int, end as int)) + r);
                },
                Err(e) => {},
            }
        }
        off = end;
    }
    proof {
        let now = views(out@);
        assert(now =~= base + now.subrange(base.len() as int, now.len() as int));
        assert(now.subrange(base.len() as int, now.len() as int) + Seq::<Seq<u8>>::empty() =~= now.subrange(base.len() as int, now.len() as int));
    }
    Ok(())
}

/// Video reassembly state: finished units, the NALs of the open unit, its
/// timestamp, the FU-A buffer and whether a fragmented NAL is open.
pub type VideoState = (Seq<AuView>, Seq<Seq<u8>>, Option<u32>, Seq<u8>, bool);

/// The state after one more packet `p` (RFC 6184: single NAL, STAP-A, FU-A).
pub open spec fn video_step(st: VideoState, p: Seq<u8>) -> Result<VideoState, Error> {
    match rtp_span(p) {
        Err(e) => Err(e),
        Ok((a, b)) => {
            let pl = p.subrange(a, b);
            let ts = get32(p, 4);
            let marker = p[1] >= 128;
            let (aus, nals, cts, fu, fa) = st;
            if pl.len() == 0 {
                Ok(st)
            } else {
                let cut = cts is Some && cts->0 != ts && nals.len() > 0;
                let aus1 = if cut { flush(aus, nals, cts->0) } else { aus };
                let nals1 = if cut { Seq::empty() } else { nals };
                let t = pl[0] % 32;
                let r: Result<(Seq<Seq<u8>>, Seq<u8>, bool), Error> = if t == 24 {
                    match stap_nals(pl, 1) {
                        Err(e) => Err(e),
                        Ok(ns) => Ok((nals1 + ns, fu, fa)),
                    }
                } else if t == 28 {
                    if pl.len() < 2 {
                        Err(Error::BufferTooShort { need: 2, have: pl.len() as usize, what: "FU-A header" })
                    } else {
                        let start = pl[1] >= 128;
                        let end = (pl[1] / 64) % 2 == 1;
                        let fu0 = if start { seq![((pl[0] / 32) * 32 + pl[1] % 32) as u8] } else { fu };
                        if !(start || fa) {
                            Err(Error::InvalidInput("FU-A fragment before start"))
                        } else {
                            let fu1 = fu0 + pl.skip(2);
                            if end {
                                Ok((nals1.push(fu1), Seq::empty(), false))
                            } else {
                                Ok((nals1, fu1, true))
                            }
                        }
                    }
                } else {
                    Ok((nals1.push(pl), fu, fa))
                };
                match r {
                    Err(e) => Err(e),
                    Ok((nals2, fu2, fa2)) => if marker && nals2.len() > 0 && !fa2 {
                        Ok((flush(aus1, nals2, ts), Seq::empty(), None, fu2, fa2))
                    } else {
                        Ok((aus1, nals2, Some(ts), fu2, fa2))
                    },
                }
            }
        },
    }
}

/// The video reassembly state after the first `n` packets.
pub open spec fn video_fold(ps: Seq<Seq<u8>>, n: nat) -> Result<VideoState, Error>
    decreases n,
{
    if n == 0 || n > ps.len() {
        Ok((Seq::empty(), Seq::empty(), None, Seq::empty(), false))
    } else {
        match video_fold(ps, (n - 1) as nat) {
            Err(e) => Err(e),
            Ok(st) => video_step(st, ps[n - 1]),
        }
    }
}

/// The access units of an H.264 packet stream: NALs grouped by timestamp,
/// a unit closed at a marker packet (outside an open FU-A) or where the
/// timestamp changes, and the open unit closed at the end.
pub open spec fn spec_reassemble_video(ps: Seq<Seq<u8>>) -> Result<Seq<AuView>, Error> {
    match video_fold(ps, ps.len()) {
        Err(e) => Err(e),
        Ok((aus, nals, cts, _, _)) => Ok(match cts {
            Some(t) => flush(aus, nals, t),
            None => aus,
        }),
    }
}

proof fn lemma_video_fold_err(ps: Seq<Seq<u8>>, n: nat, m: nat)
    requires
        n <= m <= ps.len(),
        video_fold(ps, n) is Err,
    ensures
        video_fold(ps, m) == video_fold(ps, n),
    decreases m - n,
{
    if m > n {
        lemma_video_fold_err(ps, n, (m - 1) as nat);
    }
}


proof fn lemma_video_err(ps: Seq<Seq<u8>>, i: nat, e: Error)
    requires
        i < ps.len(),
        video_fold(ps, i + 1) == Err::<VideoState, Error>(e),
    ensures
        spec_reassemble_video(ps) == Err::<Seq<AuView>, Error>(e),
{
    lemma_video_fold_err(ps, i + 1, ps.len());
}

/// Reassembles H.264 access units from RTP packets (single NAL, STAP-A and
/// FU-A; RFC 6184 §5.6-§5.8), keeping each unit's RTP timestamp and marking
/// a unit with an IDR slice as a sync point.
pub fn reassemble_video(packets: &[Vec<u8>]) -> (r: Result<Vec<ReassembledAu>, Error>)
    ensures
        match spec_reassemble_video(views(packets@)) {
            Ok(aus) => r matches Ok(v) && au_views(v@) == aus,
            Err(e) => r matches Err(x) && x == e,
        },
{
    let ghost ps = views(packets@);
    let mut aus: Vec<ReassembledAu> = Vec::new();
    let mut cur_nals: Vec<Vec<u8>> = Vec::new();
    let mut cur_ts: Option<u32> = None;
    let mut fu_buf: Vec<u8> = Vec::new();
    let mut fu_active = false;
    let mut i: usize = 0;
    assert(au_views(aus@) =~= Seq::<AuView>::empty());
    assert(views(cur_nals@) =~= Seq::<Seq<u8>>::empty());
    assert(fu_buf@ =~= Seq::<u8>::empty());
    while i < packets.len()
        invariant
            i <= packets@.len(),
            ps == views(packets@),
            video_fold(ps, i as nat) == Ok::<VideoState, Error>((au_views(aus@), views(cur_nals@), cur_ts, fu_buf@, fu_active)),
        decreases packets@.len() - i,
    {
        let ghost p = ps[i as int];
        assert(p == packets@[i as int]@);
        let ghost st: VideoState = (au_views(aus@), views(cur_nals@), cur_ts, fu_buf@, fu_active);
        assert(video_fold(ps, (i + 1) as nat) == video_step(st, p));
        let hdr = match parse_rtp_header(&packets[i]) {
            Ok(h) => h,
            Err(e) => {
                proof { lemma_video_err(ps, i as nat, e); }
                return Err(e);
            },
        };
        let payload = hdr.payload;
        if payload.len() > 0 {
            match cur_ts {
                Some(ts) => {
                    if ts != hdr.timestamp && cur_nals.len() > 0 {
                        flush_au(&mut aus, &mut cur_nals, ts);
                        assert(views(cur_nals@) =~= Seq::<Seq<u8>>::empty());
                    }
                },
                None => {},
            }
            let t = payload[0] % 32;
            if t == NAL_TYPE_STAP_A {
                match split_stap_a(payload, &mut cur_nals) {
                    Ok(()) => {},
                    Err(e) => {
                        proof { lemma_video_err(ps, i as nat, e); }
                        return Err(e);
                    },
                }
            } else if t == NAL_TYPE_FU_A {
                if payload.len() < 2 {
                    let e = Error::BufferTooShort { need: 2, have: payload.len(), what: "FU-A header" };
                    proof { lemma_video_err(ps, i as nat, e); }
                    return Err(e);
                }
                let b0 = payload[0];
                let b1 = payload[1];
                let is_start = b1 >= 128;
                let is_end = (b1 / 64) % 2 == 1;
                if is_start {
                    fu_buf = Vec::new();
                    fu_buf.push((b0 / 32) * 32 + b1 % 32);
                    fu_active = true;
                }
                if !fu_active {
                    let e = Error::InvalidInput("FU-A fragment before start");
                    proof { lemma_video_err(ps, i as nat, e); }
                    return Err(e);
                }
                let pn = payload.len();
                push_all(&mut fu_buf, &payload[2..pn]);
                assert(payload@.subrange(2, pn as int) =~= payload@.skip(2));
                if is_end {
                    let ghost n0 = views(cur_nals@);
                    cur_nals.push(fu_buf);
                    assert(views(cur_nals@) =~= n0.push(fu_buf@));
                    fu_buf = Vec::new();
                    fu_active = false;
                    assert(fu_buf@ =~= Seq::<u8>::empty());
                }
            } else {
                let ghost n0 = views(cur_nals@);
                let nal = crate::bytes::copy_range(payload, 0, payload.len());
                cur_nals.push(nal);
                assert(payload@.subrange(0, payload@.len() as int) =~= payload@);
                assert(views(cur_nals@) =~= n0.push(payload@));
            }
            if hdr.marker && cur_nals.len() > 0 && !fu_active {
                flush_au(&mut aus, &mut cur_nals, hdr.timestamp);
                assert(views(cur_nals@) =~= Seq::<Seq<u8>>::empty());
                cur_ts = None;
            } else {
                cur_ts = Some(hdr.timestamp);
            }
        }
        i += 1;
    }
    match cur_ts {
        Some(ts) => flush_au(&mut aus, &mut cur_nals, ts),
        None => {},
    }
    Ok(aus)
}


/// The access units framed by AAC-hbr AU-headers `h..count` (13-bit size,
/// 3-bit index each), the unit bytes starting at `off`.
pub open spec fn aac_units(pl: Seq<u8>, count: nat, h: nat, off: int) -> Result<Seq<Seq<u8>>, Error>
    decreases count - h,
{
    if h >= count {
        Ok(Seq::empty())
    } else {
        let end = off + get16(pl, (2 + 2 * h) as int) / 8;
        if end > pl.len() {
            Err(Error::BufferTooShort { need: sat(end), have: pl.len() as usize, what: "AAC AU payload" })
        } else {
            match aac_units(pl, count, h + 1, end) {
                Ok(r) => Ok(seq![pl.subrange(off, end)] + r),
                Err(e) => Err(e),
            }
        }
    }
}

/// The access units of one AAC-hbr payload (RFC 3640 §3.2): the
/// AU-headers-length in bits, the 2-byte AU-headers, then the units.
pub open spec fn aac_payload(pl: Seq<u8>) -> Result<Seq<Seq<u8>>, Error> {
    if pl.len() < 2 {
        Err(Error::BufferTooShort { need: 2, have: pl.len() as usize, what: "AAC AU-headers-length" })
    } else {
        let bits = get16(pl, 0);
        let hb = (bits + 7) / 8;
        if 2 + hb > pl.len() {
            Err(Error::BufferTooShort { need: (2 + hb) as usize, have: pl.len() as usize, what: "AAC AU headers" })
        } else {
            aac_units(pl, (bits / 16) as nat, 0, 2 + hb)
        }
    }
}

/// The size in bytes of access unit `h` of an AAC-hbr payload: the top 13
/// bits of its 2-byte AU-header (the low 3 are the AU-index).
pub open spec fn au_size(pl: Seq<u8>, h: int) -> int {
    (get16(pl, 2 + 2 * h) >> 3u16) as int
}

/// The total size of access units `h..k`.
pub open spec fn au_sizes(pl: Seq<u8>, h: int, k: int) -> int
    decreases k - h,
{
    if h >= k {
        0
    } else {
        au_size(pl, h) + au_sizes(pl, h + 1, k)
    }
}

proof fn lemma_au_size(pl: Seq<u8>, h: int)
    ensures
        au_size(pl, h) == get16(pl, 2 + 2 * h) / 8,
{
    let v = get16(pl, 2 + 2 * h);
    assert((v >> 3u16) == v / 8) by (bit_vector);
}

proof fn lemma_au_sizes_nonneg(pl: Seq<u8>, h: int, k: int)
    ensures
        au_sizes(pl, h, k) >= 0,
    decreases k - h,
{
    if h < k {
        lemma_au_sizes_nonneg(pl, h + 1, k);
    }
}

proof fn lemma_aac_units(pl: Seq<u8>, count: nat, h: nat, off: int)
    requires
        h <= count,
        0 <= off <= pl.len(),
    ensures
        aac_units(pl, count, h, off) is Ok <==> off + au_sizes(pl, h as int, count as int) <= pl.len(),
        aac_units(pl, count, h, off) matches Ok(r) ==> r.len() == count - h && forall|j: int|
            0 <= j < r.len() ==> #[trigger] r[j] == pl.subrange(
                off + au_sizes(pl, h as int, h + j),
                off + au_sizes(pl, h as int, h + j + 1),
            ),
    decreases count - h,
{
    if h < count {
        lemma_au_size(pl, h as int);
        let end = off + get16(pl, (2 + 2 * h) as int) / 8;
        assert(au_sizes(pl, h as int, count as int) == au_size(pl, h as int) + au_sizes(pl, (h + 1) as int, count as int));
        lemma_au_sizes_nonneg(pl, (h + 1) as int, count as int);
        if end <= pl.len() {
            lemma_aac_units(pl, count, h + 1, end);
            match aac_units(pl, count, h + 1, end) {
                Ok(r) => {
                    let r2 = seq![pl.subrange(off, end)] + r;
                    assert(aac_units(pl, count, h, off) == Ok::<Seq<Seq<u8>>, Error>(r2));
                    assert forall|j: int| 0 <= j < r2.len() implies #[trigger] r2[j] == pl.subrange(
                        off + au_sizes(pl, h as int, h + j),
                        off + au_sizes(pl, h as int, h + j + 1),
                    ) by {
                        assert(au_sizes(pl, h as int, h + j + 1) == au_size(pl, h as int) + au_sizes(pl, (h + 1) as int, h + j + 1));
                        if j == 0 {
                            assert(au_sizes(pl, h as int, h as int) == 0);
                            assert(au_sizes(pl, (h + 1) as int, (h + 1) as int) == 0);
                        } else {
                            assert(r2[j] == r[j - 1]);
                            assert(au_sizes(pl, h as int, h + j) == au_size(pl, h as int) + au_sizes(pl, (h + 1) as int, h + j));
                            assert(r[j - 1] == pl.subrange(
                                end + au_sizes(pl, (h + 1) as int, (h + 1) + (j - 1)),
                                end + au_sizes(pl, (h + 1) as int, (h + 1) + (j - 1) + 1),
                            ));
                        }
                    }
                },
                Err(e) => {},
            }
        }
    }
}

/// An AAC-hbr payload (RFC 3640 §3.2) reads as exactly AU-headers-length /
/// 16 access units: unit `h` is the `au_size(h)` bytes that follow the units
/// before it, starting right after the AU headers, so the units' sizes add up
/// to the bytes they take after the headers. The payload is read when, and
/// only when, the length field, the headers and all the units fit in it.
pub proof fn lemma_aac_payload_units(pl: Seq<u8>)
    ensures
        aac_payload(pl) is Ok <==> (pl.len() >= 2 && 2 + (get16(pl, 0) + 7) / 8 <= pl.len() && 2 + (get16(
            pl,
            0,
        ) + 7) / 8 + au_sizes(pl, 0, (get16(pl, 0) / 16) as int) <= pl.len()),
        aac_payload(pl) matches Ok(us) ==> us.len() == get16(pl, 0) / 16 && forall|h: int|
            0 <= h < us.len() ==> #[trigger] us[h] == pl.subrange(
                2 + (get16(pl, 0) + 7) / 8 + au_sizes(pl, 0, h),
                2 + (get16(pl, 0) + 7) / 8 + au_sizes(pl, 0, h + 1),
            ),
{
    if pl.len() >= 2 {
        let bits = get16(pl, 0);
        let hb = (bits + 7) / 8;
        if 2 + hb <= pl.len() {
            lemma_aac_units(pl, (bits / 16) as nat, 0, 2 + hb);
        }
    }
}

fn aac_split(pl: &[u8]) -> (r: Result<Vec<Vec<u8>>, Error>)
    ensures
        match aac_payload(pl@) {
            Ok(us) => r matches Ok(v) && views(v@) == us,
            Err(e) => r matches Err(x) && x == e,
        },
{
    let n = pl.len();
    if n < 2 {
        return Err(Error::BufferTooShort { need: 2, have: n, what: "AAC AU-headers-length" });
    }
    let bits = read16(pl, 0) as usize;
    let hb = (bits + 7) / 8;
    let count = bits / 16;
    if 2 + hb > n {
        return Err(Error::BufferTooShort { need: 2 + hb, have: n, what: "AAC AU headers" });
    }
    assert(2 * count <= hb);
    let mut out: Vec<Vec<u8>> = Vec::new();
    let mut off: usize = 2 + hb;
    let mut h: usize = 0;
    assert(views(out@) =~= Seq::<Seq<u8>>::empty());
    while h < count
        invariant
            h <= count,
            n == pl@.len(),
            2 * count <= hb,
            2 + hb <= n,
            off <= n,
            count == get16(pl@, 0) / 16,
            aac_payload(pl@) == (match aac_units(pl@, count as nat, h as nat, off as int) {
                Ok(r) => Ok(views(out@) + r),
                Err(e) => Err(e),
            }),
        decreases count - h,
    {
        let size = (read16(pl, 2 + 2 * h) / 8) as usize;
        if size > n - off {
            return Err(Error::BufferTooShort { need: off.saturating_add(size), have: n, what: "AAC AU payload" });
        }
        let end = off + size;
        let ghost o0 = views(out@);
        let unit = crate::bytes::copy_range(pl, off, end);
        out.push(unit);
        proof {
            assert(views(out@) =~= o0.push(pl@.subrange(off as int, end as int)));
            match aac_units(pl@, count as nat, (h + 1) as nat, end as int) {
                Ok(r) => {
                    assert(o0 + (seq![pl@.subrange(off as int, end as int)] + r) =~= o0.push(pl@.subrange(off as int, end as int)) + r);
                },
                Err(e) => {},
            }
        }
        off = end;
        h += 1;
    }
    assert(views(out@) + Seq::<Seq<u8>>::empty() =~= views(out@));
    Ok(out)
}

/// The access units after the first `n` packets of an AAC-hbr stream, each
/// with its packet's timestamp and marked as a sync point.
pub open spec fn audio_fold(ps: Seq<Seq<u8>>, n: nat) -> Result<Seq<AuView>, Error>
    decreases n,
{
    if n == 0 || n > ps.len() {
        Ok(Seq::empty())
    } else {
        match audio_fold(ps, (n - 1) as nat) {
            Err(e) => Err(e),
            Ok(aus) => {
                let p = ps[n - 1];
                match rtp_span(p) {
                    Err(e) => Err(e),
                    Ok((a, b)) => match aac_payload(p.subrange(a, b)) {
                        Err(e) => Err(e),
                        Ok(us) => Ok(aus + us.map_values(|u: Seq<u8>| (get32(p, 4), true, u))),
                    },
                }
            },
        }
    }
}

proof fn lemma_audio_fold_err(ps: Seq<Seq<u8>>, n: nat, m: nat)
    requires
        n <= m <= ps.len(),
        audio_fold(ps, n) is Err,
    ensures
        audio_fold(ps, m) == audio_fold(ps, n),
    decreases m - n,
{
    if m > n {
        lemma_audio_fold_err(ps, n, (m - 1) as nat);
    }
}

/// Reassembles AAC access units from `AAC-hbr` RTP packets (RFC 3640),
/// each with its packet's RTP timestamp; audio units are always sync points.
pub fn reassemble_audio(packets: &[Vec<u8>]) -> (r: Result<Vec<ReassembledAu>, Error>)
    ensures
        match audio_fold(views(packets@), packets@.len()) {
            Ok(aus) => r matches Ok(v) && au_views(v@) == aus,
            Err(e) => r matches Err(x) && x == e,
        },
{
    let ghost ps = views(packets@);
    let mut aus: Vec<ReassembledAu> = Vec::new();
    let mut i: usize = 0;
    assert(au_views(aus@) =~= Seq::<AuView>::empty());
    while i < packets.len()
        invariant
            i <= packets@.len(),
            ps == views(packets@),
            audio_fold(ps, i as nat) == Ok::<Seq<AuView>, Error>(au_views(aus@)),
        decreases packets@.len() - i,
    {
        let ghost p = ps[i as int];
        assert(p == packets@[i as int]@);
        let hdr = match parse_rtp_header(&packets[i]) {
            Ok(h) => h,
            Err(e) => {
                proof { lemma_audio_fold_err(ps, (i + 1) as nat, ps.len()); }
                return Err(e);
            },
        };
        let units = match aac_split(hdr.payload) {
            Ok(u) => u,
            Err(e) => {
                proof { lemma_audio_fold_err(ps, (i + 1) as nat, ps.len()); }
                return Err(e);
            },
        };
        let ghost a0 = au_views(aus@);
        let ghost us = views(units@);
        let mut k: usize = 0;
        while k < units.len()
            invariant
                k <= units@.len(),
                us == views(units@),
                au_views(aus@) == a0 + us.take(k as int).map_values(|u: Seq<u8>| (hdr.timestamp, true, u)),
            decreases units@.len() - k,
        {
            let data = units[k].clone();
            let ghost before = au_views(aus@);
            aus.push(ReassembledAu { timestamp: hdr.timestamp, is_sync: true, data });
            proof {
                assert(data@ == us[k as int]);
                assert(au_views(aus@) =~= before.push((hdr.timestamp, true, us[k as int])));
                assert(us.take(k + 1).map_values(|u: Seq<u8>| (hdr.timestamp, true, u)) =~= us.take(k as int).map_values(|u: Seq<u8>| (hdr.timestamp, true, u)).push((hdr.timestamp, true, us[k as int])));
            }
            k += 1;
        }
        assert(us.take(us.len() as int) =~= us);
        i += 1;
    }
    Ok(aus)
}


// ---------------------------------------------------------------------------
// Streams, packetiser and depacketiser types
// ---------------------------------------------------------------------------

/// The payload format a single RTP stream carries.
#[derive(Debug, Clone, Copy, PartialEq, Eq, Structural)]
#[non_exhaustive]
pub enum RtpMediaKind {
    /// H.264/AVC video (RFC 6184).
    H264,
    /// AAC audio, mode `AAC-hbr` (RFC 3640).
    Aac,
}

/// The SDP media token of a payload format.
pub open spec fn kind_name(k: RtpMediaKind) -> Seq<char> {
    match k {
        RtpMediaKind::H264 => "video"@,
        RtpMediaKind::Aac => "audio"@,
    }
}

impl RtpMediaKind {
    /// SDP media token (`"video"` / `"audio"`).
    pub fn name(&self) -> (r: &'static str)
        ensures
            r@ == kind_name(*self),
    {
        match self {
            RtpMediaKind::H264 => "video",
            RtpMediaKind::Aac => "audio",
        }
    }
}

/// One packetised RTP stream: its payload type, kind and packets.
#[derive(Debug, Clone)]
pub struct RtpStream {
    /// Dynamic payload type (matches the SDP `rtpmap`).
    pub pt: u8,
    /// The payload format carried on this stream.
    pub kind: RtpMediaKind,
    /// The RTP packets, in sequence-number order.
    pub packets: Vec<Vec<u8>>,
}

/// The output of [`RtpPacketiser::package`]: per-track streams plus an SDP.
#[derive(Debug, Clone)]
pub struct RtpOutput {
    /// One stream per packetised track, in track order.
    pub streams: Vec<RtpStream>,
    /// The session-level SDP describing every stream (RFC 4566).
    pub sdp: String,
}

/// Packetises a media IR into RTP packets and SDP.
#[derive(Debug, Clone)]
pub struct RtpPacketiser {
    /// MTU (payload budget): NALs larger than this are fragmented as FU-A.
    pub mtu: usize,
    /// Payload type of the first video track.
    pub video_pt: u8,
    /// Payload type of the first audio track.
    pub audio_pt: u8,
    /// Fixed SSRC used for every stream.
    pub ssrc: u32,
    /// Aggregate the video SPS+PPS into a leading STAP-A packet.
    pub stap_a_parameter_sets: bool,
}

impl Default for RtpPacketiser {
    fn default() -> (r: Self)
        ensures
            r.mtu == DEFAULT_MTU,
            r.video_pt == DEFAULT_VIDEO_PT,
            r.audio_pt == DEFAULT_AUDIO_PT,
            r.ssrc == 0x1234_5678,
            r.stap_a_parameter_sets,
    {
        RtpPacketiser {
            mtu: DEFAULT_MTU,
            video_pt: DEFAULT_VIDEO_PT,
            audio_pt: DEFAULT_AUDIO_PT,
            ssrc: 0x1234_5678,
            stap_a_parameter_sets: true,
        }
    }
}

impl RtpPacketiser {
    /// A packetiser with the default MTU, payload types and SSRC.
    pub fn new() -> (r: Self)
        ensures
            r.mtu == DEFAULT_MTU,
            r.video_pt == DEFAULT_VIDEO_PT,
            r.audio_pt == DEFAULT_AUDIO_PT,
            r.ssrc == 0x1234_5678,
            r.stap_a_parameter_sets,
    {
        RtpPacketiser::default()
    }
}

/// One RTP stream fed to the depacketiser: its kind and packets.
#[derive(Debug, Clone)]
pub struct RtpInputStream {
    /// The payload format carried on this stream.
    pub kind: RtpMediaKind,
    /// The RTP packets in arrival order.
    pub packets: Vec<Vec<u8>>,
}

/// The depacketiser's input: one or more RTP streams.
#[derive(Debug, Clone)]
pub struct RtpInput {
    /// The streams to depacketise into IR tracks.
    pub streams: Vec<RtpInputStream>,
}

/// Depacketises RTP packets back into the media IR.
#[derive(Debug, Clone, Copy)]
pub struct RtpDepacketiser {}

impl Default for RtpDepacketiser {
    fn default() -> (r: Self) {
        RtpDepacketiser {}
    }
}

impl RtpDepacketiser {
    /// A new depacketiser.
    pub fn new() -> (r: Self)
        ensures
            r == (RtpDepacketiser {}),
    {
        RtpDepacketiser {}
    }
}

/// The bytes of a list of access units.
pub open spec fn au_data(aus: Seq<AuView>) -> Seq<Seq<u8>> {
    aus.map_values(|a: AuView| a.2)
}

/// The coded samples reassembled from one input stream.
pub open spec fn stream_samples(kind: RtpMediaKind, ps: Seq<Seq<u8>>) -> Result<Seq<Seq<u8>>, Error> {
    match kind {
        RtpMediaKind::H264 => match spec_reassemble_video(ps) {
            Ok(aus) => Ok(au_data(aus)),
            Err(e) => Err(e),
        },
        RtpMediaKind::Aac => match audio_fold(ps, ps.len()) {
            Ok(aus) => Ok(au_data(aus)),
            Err(e) => Err(e),
        },
    }
}

/// The samples of the first `n` streams, or the first stream's error.
pub open spec fn unpack_fold(streams: Seq<RtpInputStream>, n: nat) -> Result<Seq<Seq<Seq<u8>>>, Error>
    decreases n,
{
    if n == 0 || n > streams.len() {
        Ok(Seq::empty())
    } else {
        match unpack_fold(streams, (n - 1) as nat) {
            Err(e) => Err(e),
            Ok(acc) => match stream_samples(streams[n - 1].kind, views(streams[n - 1].packets@)) {
                Err(e) => Err(e),
                Ok(ss) => Ok(acc.push(ss)),
            },
        }
    }
}

proof fn lemma_unpack_fold_err(streams: Seq<RtpInputStream>, n: nat, m: nat)
    requires
        n <= m <= streams.len(),
        unpack_fold(streams, n) is Err,
    ensures
        unpack_fold(streams, m) == unpack_fold(streams, n),
    decreases m - n,
{
    if m > n {
        lemma_unpack_fold_err(streams, n, (m - 1) as nat);
    }
}

/// The `avcC` box type.
pub const AVCC: [u8; 4] = [0x61, 0x76, 0x63, 0x43];

/// The `avcC` body standing in for the configuration the RTP wire does not
/// carry: version 1, profile/compatibility/level 0, 4-byte NAL lengths, no
/// parameter sets.
pub open spec fn placeholder_avcc() -> Seq<u8> {
    seq![1u8, 0u8, 0u8, 0u8, 0xFFu8, 0xE0u8, 0u8]
}

/// A depacketised track: ID `id`, the 90 kHz clock, the placeholder AVC
/// configuration, and one sync sample per reassembled unit, with a zero
/// duration and no timestamps.
pub open spec fn rtp_track_ok(t: Track, id: int, data: Seq<Seq<u8>>) -> bool {
    &&& t.spec.track_id == id
    &&& t.spec.timescale == VIDEO_CLOCK_RATE
    &&& t.spec.source_pid is None
    &&& (t.spec.config matches CodecConfig::Avc { config, width, height } && config.box_type@ == AVCC@
        && config.data@ == placeholder_avcc() && width == 0 && height == 0)
    &&& t.start_decode_time == 0
    &&& t.encryption is None
    &&& t.samples@.len() == data.len()
    &&& forall|k: int| 0 <= k < data.len() ==> {
        let s = #[trigger] t.samples@[k];
        &&& s.data@ == data[k]
        &&& s.dts is None
        &&& s.pts is None
        &&& s.duration == Some(0u32)
        &&& s.is_sync
        &&& s.source_timing is None
    }
}

fn placeholder_spec(track_id: u32) -> (r: TrackSpec)
    ensures
        r.track_id == track_id,
        r.timescale == VIDEO_CLOCK_RATE,
        r.source_pid is None,
        r.config matches CodecConfig::Avc { config, width, height } && config.box_type@ == AVCC@
            && config.data@ == placeholder_avcc() && width == 0 && height == 0,
{
    let body: Vec<u8> = vec![1u8, 0u8, 0u8, 0u8, 0xFFu8, 0xE0u8, 0u8];
    assert(body@ =~= placeholder_avcc());
    TrackSpec::new(track_id, VIDEO_CLOCK_RATE, CodecConfig::Avc { config: OpaqueBox::new(AVCC, body), width: 0, height: 0 })
}

fn rtp_track(id: u32, aus: Vec<ReassembledAu>) -> (r: Track)
    ensures
        rtp_track_ok(r, id as int, au_data(au_views(aus@))),
{
    let mut samples: Vec<Sample> = Vec::new();
    let mut k: usize = 0;
    while k < aus.len()
        invariant
            k <= aus@.len(),
            samples@.len() == k,
            forall|j: int| 0 <= j < k ==> {
                let s = #[trigger] samples@[j];
                &&& s.data@ == aus@[j].data@
                &&& s.dts is None
                &&& s.pts is None
                &&& s.duration == Some(0u32)
                &&& s.is_sync
                &&& s.source_timing is None
            },
        decreases aus@.len() - k,
    {
        let data = aus[k].data.clone();
        samples.push(Sample::new(data, None, None, Some(0), true));
        k += 1;
    }
    let t = Track::new(placeholder_spec(id), samples);
    assert forall|j: int| 0 <= j < aus@.len() implies au_data(au_views(aus@))[j] == aus@[j].data@ by {}
    t
}

impl RtpDepacketiser {
    /// Depacketises each input stream (H.264 or AAC) into one IR track, in
    /// stream order with IDs from 1; the first stream that fails to
    /// reassemble gives the error.
    pub fn unpackage(&mut self, input: RtpInput) -> (r: Result<Media, Error>)
        requires
            input.streams@.len() < u32::MAX,
        ensures
            match unpack_fold(input.streams@, input.streams@.len()) {
                Ok(all) => r matches Ok(m) && m.movie_timescale == 0 && m.pcr@.len() == 0
                    && m.tracks@.len() == all.len()
                    && forall|i: int| 0 <= i < all.len() ==> rtp_track_ok(#[trigger] m.tracks@[i], i + 1, all[i]),
                Err(e) => r matches Err(x) && x == e,
            },
    {
        let ghost ss = input.streams@;
        let mut tracks: Vec<Track> = Vec::new();
        let mut i: usize = 0;
        while i < input.streams.len()
            invariant
                i <= ss.len(),
                ss == input.streams@,
                ss.len() < u32::MAX,
                unpack_fold(ss, i as nat) matches Ok(acc) && acc.len() == i && tracks@.len() == i
                    && forall|j: int| 0 <= j < i ==> rtp_track_ok(#[trigger] tracks@[j], j + 1, acc[j]),
            decreases ss.len() - i,
        {
            let ghost acc = unpack_fold(ss, i as nat)->Ok_0;
            let stream = &input.streams[i];
            let aus = match stream.kind {
                RtpMediaKind::H264 => reassemble_video(stream.packets.as_slice()),
                RtpMediaKind::Aac => reassemble_audio(stream.packets.as_slice()),
            };
            let aus = match aus {
                Ok(a) => a,
                Err(e) => {
                    proof { lemma_unpack_fold_err(ss, (i + 1) as nat, ss.len()); }
                    return Err(e);
                },
            };
            let t = rtp_track((i + 1) as u32, aus);
            let ghost t0 = tracks@;
            tracks.push(t);
            proof {
                let acc1 = unpack_fold(ss, (i + 1) as nat)->Ok_0;
                assert(acc1 == acc.push(au_data(au_views(aus@))));
                assert forall|j: int| 0 <= j < i + 1 implies rtp_track_ok(#[trigger] tracks@[j], j + 1, acc1[j]) by {
                    if j < i {
                        assert(tracks@[j] == t0[j]);
                    }
                }
            }
            i += 1;
        }
        Ok(Media::new(tracks, 0))
    }
}


// ---------------------------------------------------------------------------
// Packetisation (RFC 6184, RFC 3640)
// ---------------------------------------------------------------------------

/// The decode time of sample `i`: the sum of the preceding durations (an
/// unknown duration counts as zero).
pub open spec fn dts_ticks(ss: Seq<Sample>, i: int) -> int
    decreases i,
{
    if i <= 0 {
        0
    } else {
        dts_ticks(ss, i - 1) + match ss[i - 1].duration {
            Some(d) => d as int,
            None => 0,
        }
    }
}

/// `ticks` rescaled from clock `from` to clock `to`, rounded to nearest and
/// truncated to 32 bits (the RTP timestamp width).
pub open spec fn rescale(ticks: int, from: u32, to: u32) -> u32 {
    if from == 0 || from == to {
        ticks as u32
    } else {
        ((ticks * to + from / 2) / (from as int)) as u32
    }
}

fn rescale_ts(ticks: u128, from: u32, to: u32) -> (r: u32)
    requires
        ticks < 0x1_0000_0000_0000_0000_0000_0000,
    ensures
        r == rescale(ticks as int, from, to),
{
    if from == 0 || from == to {
        return ticks as u32;
    }
    proof {
        assert(ticks * (to as u128) <= 0xFFFF_FFFF_FFFF_FFFF_FFFF_FFFF * 0xFFFF_FFFFu128) by (nonlinear_arith)
            requires
                ticks < 0x1_0000_0000_0000_0000_0000_0000,
                to <= 0xFFFF_FFFFu32,
        ;
    }
    let scaled = ticks * (to as u128) + (from as u128) / 2;
    (scaled / (from as u128)) as u32
}

/// The decode time of the next sample, accumulated.
fn add_duration(acc: u128, d: Option<u32>, k: Ghost<int>) -> (r: u128)
    requires
        acc <= k@ * 0xFFFF_FFFF,
        0 <= k@ < 0x1_0000_0000_0000_0000,
    ensures
        r == acc + match d {
            Some(x) => x as int,
            None => 0,
        },
        r <= (k@ + 1) * 0xFFFF_FFFF,
{
    match d {
        Some(x) => acc + x as u128,
        None => acc,
    }
}

/// One AAC-hbr packet: the fixed header (marker set), a 16-bit
/// AU-headers-length of 16 bits, one AU-header (13-bit size, index 0), the
/// access unit.
pub open spec fn aac_packet(pt: u8, sq: u16, ts: u32, ssrc: u32, au: Seq<u8>) -> Seq<u8> {
    rtp_hdr(pt, true, sq, ts, ssrc) + be16(16) + be16((au.len() * 8) as u16) + au
}

/// The AAC packets of samples `i..`, one access unit per packet, sequence
/// numbers from 0 and timestamps on clock `clock`; refused at the first unit
/// too large for the 13-bit size field.
pub open spec fn audio_pack(ss: Seq<Sample>, pt: u8, clock: u32, timescale: u32, ssrc: u32, i: nat) -> Result<Seq<Seq<u8>>, Error>
    decreases ss.len() - i,
{
    if i >= ss.len() {
        Ok(Seq::empty())
    } else if ss[i as int].data@.len() >= 8192 {
        Err(Error::InvalidValue {
            field: "aac_au_size",
            value: ss[i as int].data@.len() as u64,
            reason: "exceeds 13-bit AAC-hbr AU-size field",
        })
    } else {
        match audio_pack(ss, pt, clock, timescale, ssrc, i + 1) {
            Ok(r) => Ok(seq![aac_packet(pt, seq_after(0, i as int), rescale(dts_ticks(ss, i as int), timescale, clock), ssrc, ss[i as int].data@)] + r),
            Err(e) => Err(e),
        }
    }
}

/// The clock a track's timestamps are counted in: its timescale, or
/// `fallback` when the timescale is zero.
pub open spec fn track_clock(t: Track, fallback: u32) -> u32 {
    if t.spec.timescale != 0 { t.spec.timescale } else { fallback }
}

impl RtpPacketiser {
    /// Packetises one AAC track (`AAC-hbr`, one access unit per packet).
    fn packetise_audio(&self, track: &Track, pt: u8, clock: u32) -> (r: Result<Vec<Vec<u8>>, Error>)
        ensures
            match audio_pack(track.samples@, pt, clock, track_clock(*track, clock), self.ssrc, 0) {
                Ok(ps) => r matches Ok(v) && views(v@) == ps,
                Err(e) => r matches Err(x) && x == e,
            },
    {
        let ghost ss = track.samples@;
        let timescale = if track.spec.timescale != 0 { track.spec.timescale } else { clock };
        let mut packets: Vec<Vec<u8>> = Vec::new();
        let mut seq: u16 = 0;
        let mut acc: u128 = 0;
        let mut i: usize = 0;
        assert(views(packets@) =~= Seq::<Seq<u8>>::empty());
        while i < track.samples.len()
            invariant
                i <= ss.len(),
                ss == track.samples@,
                timescale == track_clock(*track, clock),
                acc == dts_ticks(ss, i as int),
                acc <= i * 0xFFFF_FFFF,
                seq == seq_after(0, i as int),
                audio_pack(ss, pt, clock, timescale, self.ssrc, 0) == (match audio_pack(ss, pt, clock, timescale, self.ssrc, i as nat) {
                    Ok(r) => Ok(views(packets@) + r),
                    Err(e) => Err(e),
                }),
            decreases ss.len() - i,
        {
            let au = &track.samples[i].data;
            if au.len() >= 8192 {
                return Err(Error::InvalidValue {
                    field: "aac_au_size",
                    value: au.len() as u64,
                    reason: "exceeds 13-bit AAC-hbr AU-size field",
                });
            }
            let ts = rescale_ts(acc, timescale, clock);
            let mut pkt = rtp_header(pt, true, seq, ts, self.ssrc);
            push16(&mut pkt, 16);
            push16(&mut pkt, (au.len() * 8) as u16);
            push_all(&mut pkt, au.as_slice());
            let ghost before = views(packets@);
            packets.push(pkt);
            proof {
                assert(pkt@ == aac_packet(pt, seq, ts, self.ssrc, au@));
                assert(views(packets@) =~= before.push(pkt@));
                match audio_pack(ss, pt, clock, timescale, self.ssrc, (i + 1) as nat) {
                    Ok(r) => {
                        assert(before + (seq![pkt@] + r) =~= before.push(pkt@) + r);
                    },
                    Err(e) => {},
                }
                assert(i < 0x1_0000_0000_0000_0000) by {
                    assert(ss.len() <= usize::MAX);
                }
            }
            acc = add_duration(acc, track.samples[i].duration, Ghost(i as int));
            seq = if seq == 65535 { 0 } else { seq + 1 };
            i += 1;
        }
        assert(views(packets@) + Seq::<Seq<u8>>::empty() =~= views(packets@));
        Ok(packets)
    }
}


/// The FU indicator (the NAL's F|NRI bits, type 28) and FU header (start
/// and end bits over the NAL's type) of one FU-A fragment.
pub open spec fn fu_bytes(nal0: u8, start: bool, end: bool) -> Seq<u8> {
    seq![
        ((nal0 / 32) * 32 + 28) as u8,
        (nal0 % 32 + (if start { 128int } else { 0int }) + (if end { 64int } else { 0int })) as u8,
    ]
}

/// The packets that carry one NAL from sequence number `sq`: a single-NAL
/// packet when it fits the MTU, else FU-A fragments of its body after the
/// first octet; the marker on the last packet when `last` ends the unit.
pub open spec fn nal_packets(nal: Seq<u8>, pt: u8, last: bool, mtu: nat, sq: u16, ts: u32, ssrc: u32) -> Result<Seq<Seq<u8>>, Error> {
    if nal.len() + 12 <= mtu {
        Ok(seq![rtp_hdr(pt, last, sq, ts, ssrc) + nal])
    } else if nal.len() == 0 {
        Err(Error::InvalidInput("cannot FU-A fragment an empty NAL"))
    } else if mtu <= 14 {
        Err(Error::InvalidInput("MTU too small for FU-A fragmentation"))
    } else {
        let fs = frags(nal.skip(1), (mtu - 14) as nat);
        Ok(Seq::new(fs.len(), |f: int| rtp_hdr(pt, last && f == fs.len() - 1, seq_after(sq, f), ts, ssrc)
            + fu_bytes(nal[0], f == 0, f == fs.len() - 1) + fs[f]))
    }
}

fn next_seq(s: u16) -> (r: u16)
    ensures
        r == seq_after(s, 1),
{
    if s == 65535 { 0 } else { s + 1 }
}

proof fn lemma_seq_after_add(s: u16, a: int, b: int)
    requires
        a >= 0,
        b >= 0,
    ensures
        seq_after(seq_after(s, a), b) == seq_after(s, a + b),
{
    let x = (s + a) % 65536;
    assert(((x + b) % 65536) == ((s + a + b) % 65536)) by (nonlinear_arith)
        requires
            x == (s + a) % 65536,
            a >= 0,
            b >= 0,
            s >= 0,
    {
        vstd::arithmetic::div_mod::lemma_add_mod_noop(s + a, b, 65536);
        vstd::arithmetic::div_mod::lemma_mod_twice(b, 65536);
        vstd::arithmetic::div_mod::lemma_add_mod_noop(x, b, 65536);
        vstd::arithmetic::div_mod::lemma_mod_twice(s + a, 65536);
    }
}

/// Emits the packets of one NAL (single-NAL or FU-A, RFC 6184 §5.6/§5.8).
fn emit_nal(nal: &[u8], pt: u8, last: bool, mtu: usize, seq: &mut u16, ts: u32, ssrc: u32, out: &mut Vec<Vec<u8>>) -> (r: Result<(), Error>)
    ensures
        match nal_packets(nal@, pt, last, mtu as nat, *old(seq), ts, ssrc) {
            Ok(q) => r is Ok && views(final(out)@) == views(old(out)@) + q && *final(seq) == seq_after(*old(seq), q.len() as int),
            Err(e) => r matches Err(x) && x == e,
        },
{
    let n = nal.len();
    if n <= mtu && mtu - n >= 12 {
        let mut pkt = rtp_header(pt, last, *seq, ts, ssrc);
        push_all(&mut pkt, nal);
        let ghost before = views(out@);
        out.push(pkt);
        assert(views(out@) =~= before + seq![pkt@]);
        *seq = next_seq(*seq);
        return Ok(());
    }
    if n == 0 {
        return Err(Error::InvalidInput("cannot FU-A fragment an empty NAL"));
    }
    if mtu <= 14 {
        return Err(Error::InvalidInput("MTU too small for FU-A fragmentation"));
    }
    let per = mtu - 14;
    let nal0 = nal[0];
    let body = &nal[1..n];
    assert(body@ =~= nal@.skip(1));
    let total = body.len();
    let ghost fs = frags(body@, per as nat);
    let ghost s0 = *seq;
    let ghost base = views(out@);
    let mut start: usize = 0;
    let mut k: usize = 0;
    let mut done = false;
    assert(body@.skip(0) =~= body@);
    proof { lemma_frags_len(body@, per as nat); }
    while !done
        invariant
            per == mtu - 14,
            per > 0,
            total == body@.len(),
            fs == frags(body@, per as nat),
            fs.len() >= 1,
            start <= total,
            !done ==> (total == 0 ==> k == 0),
            !done ==> (start < total || (total == 0 && start == 0)),
            !done ==> fs == fs.take(k as int) + frags(body@.skip(start as int), per as nat),
            done ==> k == fs.len(),
            k <= fs.len(),
            fs.len() <= total + 1,
            total < usize::MAX,
            *seq == seq_after(s0, k as int),
            views(out@).len() == base.len() + k,
            views(out@).subrange(0, base.len() as int) == base,
            forall|f: int| 0 <= f < k ==> #[trigger] views(out@)[base.len() + f] == rtp_hdr(pt, last && f == fs.len() - 1, seq_after(s0, f), ts, ssrc) + fu_bytes(nal0, f == 0, f == fs.len() - 1) + fs[f],
        decreases total - start + (if done { 0int } else { 1int }),
    {
        let ghost rest = body@.skip(start as int);
        proof {
            lemma_frags_len(rest, per as nat);
        }
        let left = total - start;
        let is_end = left <= per;
        let end = if is_end { total } else { start + per };
        let is_start = k == 0;
        let mut pkt = rtp_header(pt, last && is_end, *seq, ts, ssrc);
        let ind = (nal0 / 32) * 32 + 28;
        let mut hdr = nal0 % 32;
        if is_start {
            hdr = hdr + 128;
        }
        if is_end {
            hdr = hdr + 64;
        }
        pkt.push(ind);
        pkt.push(hdr);
        push_all(&mut pkt, &body[start..end]);
        proof {
            let tail = frags(rest, per as nat);
            assert(fs.len() == k + tail.len());
            assert(fs[k as int] == tail[0]) by {
                assert(fs[k as int] == (fs.take(k as int) + tail)[k as int]);
            }
            if is_end {
                assert(rest =~= body@.subrange(start as int, end as int));
            } else {
                assert(rest.take(per as int) =~= body@.subrange(start as int, end as int));
            }
            assert(is_end == (k == fs.len() - 1));
            assert(pkt@ =~= rtp_hdr(pt, last && k == fs.len() - 1, seq_after(s0, k as int), ts, ssrc) + fu_bytes(nal0, k == 0, k == fs.len() - 1) + fs[k as int]);
        }
        let ghost before = views(out@);
        out.push(pkt);
        proof {
            assert(views(out@) =~= before.push(pkt@));
            lemma_seq_after_add(s0, k as int, 1);
        }
        *seq = next_seq(*seq);
        k += 1;
        if is_end {
            done = true;
        } else {
            proof {
                let tail = frags(rest, per as nat);
                assert(tail == seq![rest.take(per as int)] + frags(rest.skip(per as int), per as nat));
                assert(rest.skip(per as int) =~= body@.skip(end as int));
                assert(fs.take(k as int) =~= fs.take(k - 1).push(tail[0]));
                assert(fs =~= fs.take(k as int) + frags(body@.skip(end as int), per as nat));
            }
            start = end;
        }
    }
    proof {
        let q = Seq::new(fs.len(), |f: int| rtp_hdr(pt, last && f == fs.len() - 1, seq_after(s0, f), ts, ssrc)
            + fu_bytes(nal0, f == 0, f == fs.len() - 1) + fs[f]);
        let v = views(out@);
        assert forall|i: int| 0 <= i < v.len() implies v[i] == (base + q)[i] by {
            if i < base.len() {
                assert(v[i] == v.subrange(0, base.len() as int)[i]);
            } else {
                let f = i - base.len();
                assert(v[base.len() + f] == q[f]);
            }
        }
        assert(v =~= base + q);
    }
    Ok(())
}


/// The largest NRI bits (`octet & 0x60`) over the first `n` NALs.
pub open spec fn max_nri(sets: Seq<Seq<u8>>, n: int) -> int
    decreases n,
{
    if n <= 0 {
        0
    } else {
        let m = max_nri(sets, n - 1);
        let v = if sets[n - 1].len() > 0 { ((sets[n - 1][0] / 32) % 4) * 32 } else { 0 };
        if v > m { v } else { m }
    }
}

/// Whether one of the first `n` NALs has its forbidden bit set.
pub open spec fn any_forbidden(sets: Seq<Seq<u8>>, n: int) -> bool {
    exists|i: int| 0 <= i < n && sets[i].len() > 0 && #[trigger] sets[i][0] >= 128
}

/// The STAP-A NAL header: the forbidden bit if any NAL has it, the largest
/// NRI, type 24 (RFC 6184 §5.7.1).
pub open spec fn stap_byte(sets: Seq<Seq<u8>>) -> u8 {
    ((if any_forbidden(sets, sets.len() as int) { 128int } else { 0int }) + max_nri(sets, sets.len() as int) + 24) as u8
}

/// The STAP-A packet body after NALs `k..`, each after its 16-bit size;
/// refused at the first NAL too large for the size field.
pub open spec fn stap_fold(sets: Seq<Seq<u8>>, k: nat, acc: Seq<u8>) -> Result<Seq<u8>, Error>
    decreases sets.len() - k,
{
    if k >= sets.len() {
        Ok(acc)
    } else if sets[k as int].len() > 65535 {
        Err(Error::InvalidValue {
            field: "stap_a_nal_size",
            value: sets[k as int].len() as u64,
            reason: "exceeds 16-bit STAP-A size prefix",
        })
    } else {
        stap_fold(sets, k + 1, acc + be16(sets[k as int].len() as u16) + sets[k as int])
    }
}

/// The STAP-A packet aggregating `sets` (sequence number 0, timestamp 0,
/// no marker).
pub open spec fn stap_packet(pt: u8, sets: Seq<Seq<u8>>, ssrc: u32) -> Result<Seq<u8>, Error> {
    stap_fold(sets, 0, rtp_hdr(pt, false, 0, 0, ssrc).push(stap_byte(sets)))
}

fn stap_header_byte(sets: &Vec<Vec<u8>>) -> (r: u8)
    ensures
        r == stap_byte(vv(sets@)),
{
    let ghost v = vv(sets@);
    let mut m: u8 = 0;
    let mut forbidden = false;
    let mut i: usize = 0;
    while i < sets.len()
        invariant
            i <= sets@.len(),
            v == vv(sets@),
            m == max_nri(v, i as int),
            m <= 96,
            forbidden == any_forbidden(v, i as int),
        decreases sets@.len() - i,
    {
        if sets[i].len() > 0 {
            let o = sets[i][0];
            let nri = ((o / 32) % 4) * 32;
            if nri > m {
                m = nri;
            }
            if o >= 128 {
                forbidden = true;
                assert(v[i as int][0] >= 128);
            }
        }
        proof {
            assert(v[i as int] == sets@[i as int]@);
            if forbidden != any_forbidden(v, i + 1) {
                if forbidden {
                    let w = choose|j: int| 0 <= j < i && v[j].len() > 0 && #[trigger] v[j][0] >= 128;
                    assert(0 <= w < i + 1 && v[w].len() > 0 && v[w][0] >= 128);
                } else {
                    let w = choose|j: int| 0 <= j < i + 1 && v[j].len() > 0 && #[trigger] v[j][0] >= 128;
                    if w < i {
                        assert(any_forbidden(v, i as int));
                    }
                }
            }
        }
        i += 1;
    }
    (if forbidden { 128u8 } else { 0u8 }) + m + 24
}

/// Builds the STAP-A packet aggregating the parameter sets (RFC 6184 §5.7.1).
fn build_stap_a(pt: u8, sets: &Vec<Vec<u8>>, ssrc: u32) -> (r: Result<Vec<u8>, Error>)
    ensures
        match stap_packet(pt, vv(sets@), ssrc) {
            Ok(p) => r matches Ok(x) && x@ == p,
            Err(e) => r matches Err(x) && x == e,
        },
{
    let ghost v = vv(sets@);
    let b = stap_header_byte(sets);
    let mut pkt = rtp_header(pt, false, 0, 0, ssrc);
    pkt.push(b);
    let ghost a0 = pkt@;
    let mut i: usize = 0;
    while i < sets.len()
        invariant
            i <= sets@.len(),
            v == vv(sets@),
            stap_packet(pt, v, ssrc) == stap_fold(v, i as nat, pkt@),
        decreases sets@.len() - i,
    {
        let n = sets[i].len();
        assert(v[i as int] == sets@[i as int]@);
        if n > 65535 {
            return Err(Error::InvalidValue {
                field: "stap_a_nal_size",
                value: n as u64,
                reason: "exceeds 16-bit STAP-A size prefix",
            });
        }
        push16(&mut pkt, n as u16);
        push_all(&mut pkt, sets[i].as_slice());
        i += 1;
    }
    Ok(pkt)
}

/// The packets of NALs `k..` of one access unit at timestamp `ts`, appended
/// to `acc`; sequence numbers continue from `acc.len()`.
pub open spec fn nals_pack(nals: Seq<Seq<u8>>, k: nat, pt: u8, mtu: nat, ts: u32, ssrc: u32, acc: Seq<Seq<u8>>) -> Result<Seq<Seq<u8>>, Error>
    decreases nals.len() - k,
{
    if k >= nals.len() {
        Ok(acc)
    } else {
        match nal_packets(nals[k as int], pt, k == nals.len() - 1, mtu, seq_after(0, acc.len() as int), ts, ssrc) {
            Err(e) => Err(e),
            Ok(q) => nals_pack(nals, k + 1, pt, mtu, ts, ssrc, acc + q),
        }
    }
}

/// The packets of samples `i..` appended to `acc`: each sample's NALs (its
/// 4-byte length-prefixed framing) at the sample's decode time on the
/// 90 kHz clock.
pub open spec fn video_pack(ss: Seq<Sample>, i: nat, pt: u8, mtu: nat, timescale: u32, ssrc: u32, acc: Seq<Seq<u8>>) -> Result<Seq<Seq<u8>>, Error>
    decreases ss.len() - i,
{
    if i >= ss.len() {
        Ok(acc)
    } else {
        match crate::annexb::lp_nals(ss[i as int].data@) {
            Err(e) => Err(e),
            Ok(nals) => match nals_pack(nals, 0, pt, mtu, rescale(dts_ticks(ss, i as int), timescale, VIDEO_CLOCK_RATE), ssrc, acc) {
                Err(e) => Err(e),
                Ok(a2) => video_pack(ss, i + 1, pt, mtu, timescale, ssrc, a2),
            },
        }
    }
}

/// The packets of one AVC track: with `stap`, a leading STAP-A of the
/// configuration's SPS and PPS (when there are any), then every sample's
/// NALs.
pub open spec fn video_packets(t: Track, pt: u8, mtu: nat, ssrc: u32, stap: bool) -> Result<Seq<Seq<u8>>, Error> {
    let init: Result<Seq<Seq<u8>>, Error> = match t.spec.config {
        CodecConfig::Avc { config, .. } => if stap {
            match crate::avcc::avcc_params(config.data@) {
                Err(e) => Err(e),
                Ok(v) => if v.3.len() + v.4.len() == 0 {
                    Ok(Seq::empty())
                } else {
                    match stap_packet(pt, v.3 + v.4, ssrc) {
                        Ok(p) => Ok(seq![p]),
                        Err(e) => Err(e),
                    }
                },
            }
        } else {
            Ok(Seq::empty())
        },
        _ => Ok(Seq::empty()),
    };
    match init {
        Err(e) => Err(e),
        Ok(a) => video_pack(t.samples@, 0, pt, mtu, track_clock(t, VIDEO_CLOCK_RATE), ssrc, a),
    }
}


fn param_sets(p: &crate::avcc::AvcParams) -> (r: Vec<Vec<u8>>)
    ensures
        vv(r@) == vv(p.sps@) + vv(p.pps@),
{
    let mut out: Vec<Vec<u8>> = Vec::new();
    let mut i: usize = 0;
    while i < p.sps.len()
        invariant
            i <= p.sps@.len(),
            vv(out@) == vv(p.sps@).take(i as int),
        decreases p.sps@.len() - i,
    {
        let ghost before = vv(out@);
        out.push(copy_range(p.sps[i].as_slice(), 0, p.sps[i].len()));
        assert(p.sps@[i as int]@.subrange(0, p.sps@[i as int]@.len() as int) =~= p.sps@[i as int]@);
        assert(vv(out@) =~= before.push(p.sps@[i as int]@));
        assert(vv(out@) =~= vv(p.sps@).take(i + 1));
        i += 1;
    }
    assert(vv(p.sps@).take(p.sps@.len() as int) =~= vv(p.sps@));
    let mut j: usize = 0;
    while j < p.pps.len()
        invariant
            j <= p.pps@.len(),
            vv(out@) == vv(p.sps@) + vv(p.pps@).take(j as int),
        decreases p.pps@.len() - j,
    {
        let ghost before = vv(out@);
        out.push(copy_range(p.pps[j].as_slice(), 0, p.pps[j].len()));
        assert(p.pps@[j as int]@.subrange(0, p.pps@[j as int]@.len() as int) =~= p.pps@[j as int]@);
        assert(vv(out@) =~= before.push(p.pps@[j as int]@));
        assert(vv(out@) =~= vv(p.sps@) + vv(p.pps@).take(j + 1));
        j += 1;
    }
    assert(vv(p.pps@).take(p.pps@.len() as int) =~= vv(p.pps@));
    out
}

impl RtpPacketiser {
    /// Packetises one AVC track: the optional STAP-A of the parameter sets,
    /// then each sample's NALs as single-NAL or FU-A packets on the 90 kHz
    /// clock, the marker on the last packet of each access unit.
    fn packetise_video(&self, track: &Track, pt: u8) -> (r: Result<Vec<Vec<u8>>, Error>)
        ensures
            match video_packets(*track, pt, self.mtu as nat, self.ssrc, self.stap_a_parameter_sets) {
                Ok(ps) => r matches Ok(v) && views(v@) == ps,
                Err(e) => r matches Err(x) && x == e,
            },
    {
        let ghost ss = track.samples@;
        let timescale = if track.spec.timescale != 0 { track.spec.timescale } else { VIDEO_CLOCK_RATE };
        let mut packets: Vec<Vec<u8>> = Vec::new();
        let mut seq: u16 = 0;
        assert(views(packets@) =~= Seq::<Seq<u8>>::empty());
        if self.stap_a_parameter_sets {
            match &track.spec.config {
                CodecConfig::Avc { config, .. } => {
                    let params = match crate::avcc::parse_avcc_params(config.data.as_slice()) {
                        Ok(p) => p,
                        Err(e) => {
                            return Err(e);
                        },
                    };
                    let sets = param_sets(&params);
                    if sets.len() > 0 {
                        let pkt = match build_stap_a(pt, &sets, self.ssrc) {
                            Ok(p) => p,
                            Err(e) => {
                                return Err(e);
                            },
                        };
                        packets.push(pkt);
                        assert(views(packets@) =~= seq![pkt@]);
                        seq = 1;
                    }
                },
                _ => {},
            }
        }
        let mut acc: u128 = 0;
        let mut i: usize = 0;
        while i < track.samples.len()
            invariant
                i <= ss.len(),
                ss == track.samples@,
                timescale == track_clock(*track, VIDEO_CLOCK_RATE),
                acc == dts_ticks(ss, i as int),
                acc <= i * 0xFFFF_FFFF,
                seq == seq_after(0, views(packets@).len() as int),
                video_packets(*track, pt, self.mtu as nat, self.ssrc, self.stap_a_parameter_sets)
                    == video_pack(ss, i as nat, pt, self.mtu as nat, timescale, self.ssrc, views(packets@)),
            decreases ss.len() - i,
        {
            let ts = rescale_ts(acc, timescale, VIDEO_CLOCK_RATE);
            let nals = match crate::annexb::iter_length_prefixed_nals(track.samples[i].data.as_slice()) {
                Ok(v) => v,
                Err(e) => {
                    return Err(e);
                },
            };
            let ghost nv = crate::annexb::slices_view(nals@);
            let ghost a0 = views(packets@);
            assert(crate::annexb::lp_nals(ss[i as int].data@) == Ok::<Seq<Seq<u8>>, Error>(nv));
            let mut k: usize = 0;
            while k < nals.len()
                invariant
                    k <= nals@.len(),
                    nv == crate::annexb::slices_view(nals@),
                    nv.len() == nals@.len(),
                    seq == seq_after(0, views(packets@).len() as int),
                    nals_pack(nv, 0, pt, self.mtu as nat, ts, self.ssrc, a0) == nals_pack(nv, k as nat, pt, self.mtu as nat, ts, self.ssrc, views(packets@)),
                    i < ss.len(),
                    ss == track.samples@,
                    crate::annexb::lp_nals(ss[i as int].data@) == Ok::<Seq<Seq<u8>>, Error>(nv),
                    ts == rescale(dts_ticks(ss, i as int), timescale, VIDEO_CLOCK_RATE),
                    video_packets(*track, pt, self.mtu as nat, self.ssrc, self.stap_a_parameter_sets)
                        == video_pack(ss, i as nat, pt, self.mtu as nat, timescale, self.ssrc, a0),
                decreases nals@.len() - k,
            {
                let ghost before = views(packets@);
                assert(nv[k as int] == nals@[k as int]@);
                let last = k + 1 == nals.len();
                match emit_nal(nals[k], pt, last, self.mtu, &mut seq, ts, self.ssrc, &mut packets) {
                    Ok(()) => {},
                    Err(e) => {
                        proof {
                            assert(nals_pack(nv, k as nat, pt, self.mtu as nat, ts, self.ssrc, before) == Err::<Seq<Seq<u8>>, Error>(e));
                            assert(video_pack(ss, i as nat, pt, self.mtu as nat, timescale, self.ssrc, a0) == Err::<Seq<Seq<u8>>, Error>(e));
                        }
                        return Err(e);
                    },
                }
                proof {
                    let q = nal_packets(nv[k as int], pt, last, self.mtu as nat, seq_after(0, before.len() as int), ts, self.ssrc)->Ok_0;
                    lemma_seq_after_add(0, before.len() as int, q.len() as int);
                }
                k += 1;
            }
            acc = add_duration(acc, track.samples[i].duration, Ghost(i as int));
            i += 1;
        }
        Ok(packets)
    }
}


/// The AudioSpecificConfig carried in an `esds` (its DecoderSpecificInfo).
pub open spec fn esds_asc(e: EsdsBox) -> Option<Seq<u8>> {
    match e.es_descriptor.decoder_config {
        Some(dc) => match dc.decoder_specific_info {
            Some(dsi) => Some(dsi.data@),
            None => None,
        },
        None => None,
    }
}

fn asc_bytes(e: &EsdsBox) -> (r: Result<&[u8], Error>)
    ensures
        match esds_asc(*e) {
            Some(a) => r matches Ok(x) && x@ == a,
            None => r == Err::<&[u8], Error>(Error::InvalidInput("AAC esds has no DecoderSpecificInfo (AudioSpecificConfig)")),
        },
{
    match &e.es_descriptor.decoder_config {
        Some(dc) => match &dc.decoder_specific_info {
            Some(dsi) => Ok(dsi.data.as_slice()),
            None => Err(Error::InvalidInput("AAC esds has no DecoderSpecificInfo (AudioSpecificConfig)")),
        },
        None => Err(Error::InvalidInput("AAC esds has no DecoderSpecificInfo (AudioSpecificConfig)")),
    }
}

/// A stream as plain values: payload type, kind, packets.
pub type StreamView = (u8, RtpMediaKind, Seq<Seq<u8>>);

/// The plain values of a list of streams.
pub open spec fn stream_views(v: Seq<RtpStream>) -> Seq<StreamView> {
    v.map_values(|s: RtpStream| (s.pt, s.kind, views(s.packets@)))
}

/// `pt + 2`, wrapping at 8 bits: the payload type of a second stream of a kind.
pub open spec fn pt_plus_two(pt: u8) -> u8 {
    ((pt + 2) % 256) as u8
}

/// Packetiser state: streams so far, SDP media blocks so far, whether the
/// video and the audio payload types have been used.
pub type PackState = (Seq<StreamView>, Seq<char>, bool, bool);

/// The stream and SDP block of an AVC track sent with payload type `pt`.
pub open spec fn avc_block(me: RtpPacketiser, t: Track, pt: u8) -> Result<(StreamView, Seq<char>), Error> {
    match t.spec.config {
        CodecConfig::Avc { config, .. } => match video_packets(t, pt, me.mtu as nat, me.ssrc, me.stap_a_parameter_sets) {
            Err(e) => Err(e),
            Ok(ps) => match crate::avcc::avcc_params(config.data@) {
                Err(e) => Err(e),
                Ok(v) => Ok(((pt, RtpMediaKind::H264, ps), crate::sdp::sdp_video_block(pt, v.0, v.1, v.2, v.3 + v.4))),
            },
        },
        _ => Err(Error::InvalidInput("RTP packetiser supports only AVC video and AAC audio tracks")),
    }
}

/// The stream and SDP block of an AAC track sent with payload type `pt`.
pub open spec fn aac_block(me: RtpPacketiser, t: Track, pt: u8) -> Result<(StreamView, Seq<char>), Error> {
    match t.spec.config {
        CodecConfig::Aac { esds, channel_count, sample_rate, .. } => {
            let clock = track_clock(t, sample_rate);
            match audio_pack(t.samples@, pt, clock, track_clock(t, clock), me.ssrc, 0) {
                Err(e) => Err(e),
                Ok(ps) => match esds_asc(esds) {
                    None => Err(Error::InvalidInput("AAC esds has no DecoderSpecificInfo (AudioSpecificConfig)")),
                    Some(asc) => Ok(((pt, RtpMediaKind::Aac, ps), crate::sdp::sdp_audio_block(pt, clock, channel_count, asc))),
                },
            }
        },
        _ => Err(Error::InvalidInput("RTP packetiser supports only AVC video and AAC audio tracks")),
    }
}

/// The state after packetising one more track `t`.
pub open spec fn pack_step(me: RtpPacketiser, st: PackState, t: Track) -> Result<PackState, Error> {
    let (streams, sdp, uv, ua) = st;
    if t.spec.config is Avc {
        match avc_block(me, t, if uv { pt_plus_two(me.video_pt) } else { me.video_pt }) {
            Err(e) => Err(e),
            Ok((sv, blk)) => Ok((streams.push(sv), sdp + blk, true, ua)),
        }
    } else if t.spec.config is Aac {
        match aac_block(me, t, if ua { pt_plus_two(me.audio_pt) } else { me.audio_pt }) {
            Err(e) => Err(e),
            Ok((sv, blk)) => Ok((streams.push(sv), sdp + blk, uv, true)),
        }
    } else {
        Err(Error::InvalidInput("RTP packetiser supports only AVC video and AAC audio tracks"))
    }
}

/// The packetiser state after the first `n` tracks.
pub open spec fn pack_fold(me: RtpPacketiser, ts: Seq<Track>, n: nat) -> Result<PackState, Error>
    decreases n,
{
    if n == 0 || n > ts.len() {
        Ok((Seq::empty(), Seq::empty(), false, false))
    } else {
        match pack_fold(me, ts, (n - 1) as nat) {
            Err(e) => Err(e),
            Ok(st) => pack_step(me, st, ts[n - 1]),
        }
    }
}

proof fn lemma_pack_fold_err(me: RtpPacketiser, ts: Seq<Track>, n: nat, m: nat)
    requires
        n <= m <= ts.len(),
        pack_fold(me, ts, n) is Err,
    ensures
        pack_fold(me, ts, m) == pack_fold(me, ts, n),
    decreases m - n,
{
    if m > n {
        lemma_pack_fold_err(me, ts, n, (m - 1) as nat);
    }
}

/// The outcome of packetising `tracks`: one stream per track and the SDP,
/// or the first track's error; a media without tracks is refused.
pub open spec fn spec_package(me: RtpPacketiser, tracks: Seq<Track>) -> Result<(Seq<StreamView>, Seq<char>), Error> {
    if tracks.len() == 0 {
        Err(Error::InvalidInput("cannot packetise a Media with no tracks"))
    } else {
        match pack_fold(me, tracks, tracks.len()) {
            Err(e) => Err(e),
            Ok((streams, sdp, _, _)) => if streams.len() == 0 {
                Err(Error::InvalidInput("no AVC/AAC tracks to packetise into RTP"))
            } else {
                Ok((streams, crate::sdp::sdp_session(sdp)))
            },
        }
    }
}

fn pt_after(pt: u8) -> (r: u8)
    ensures
        r == pt_plus_two(pt),
{
    if pt >= 254 { pt - 254 } else { pt + 2 }
}

impl RtpPacketiser {
    fn pack_avc(&self, track: &Track, pt: u8) -> (r: Result<(RtpStream, String), Error>)
        requires
            track.spec.config is Avc,
        ensures
            match avc_block(*self, *track, pt) {
                Ok((sv, blk)) => r matches Ok((st, b)) && (st.pt, st.kind, views(st.packets@)) == sv && b@ == blk,
                Err(e) => r matches Err(x) && x == e,
            },
    {
        let packets = match self.packetise_video(track, pt) {
            Ok(p) => p,
            Err(e) => {
                return Err(e);
            },
        };
        match &track.spec.config {
            CodecConfig::Avc { config, .. } => {
                let params = match crate::avcc::parse_avcc_params(config.data.as_slice()) {
                    Ok(p) => p,
                    Err(e) => {
                        return Err(e);
                    },
                };
                let sets = param_sets(&params);
                let block = crate::sdp::sdp_video(pt, params.profile, params.compat, params.level, &sets);
                Ok((RtpStream { pt, kind: RtpMediaKind::H264, packets }, block))
            },
            _ => Err(Error::InvalidInput("RTP packetiser supports only AVC video and AAC audio tracks")),
        }
    }

    fn pack_aac(&self, track: &Track, pt: u8) -> (r: Result<(RtpStream, String), Error>)
        requires
            track.spec.config is Aac,
        ensures
            match aac_block(*self, *track, pt) {
                Ok((sv, blk)) => r matches Ok((st, b)) && (st.pt, st.kind, views(st.packets@)) == sv && b@ == blk,
                Err(e) => r matches Err(x) && x == e,
            },
    {
        match &track.spec.config {
            CodecConfig::Aac { esds, channel_count, sample_rate, .. } => {
                let clock = if track.spec.timescale != 0 { track.spec.timescale } else { *sample_rate };
                let packets = match self.packetise_audio(track, pt, clock) {
                    Ok(p) => p,
                    Err(e) => {
                        return Err(e);
                    },
                };
                let asc = match asc_bytes(esds) {
                    Ok(a) => a,
                    Err(e) => {
                        return Err(e);
                    },
                };
                let block = crate::sdp::sdp_audio(pt, clock, *channel_count, asc);
                Ok((RtpStream { pt, kind: RtpMediaKind::Aac, packets }, block))
            },
            _ => Err(Error::InvalidInput("RTP packetiser supports only AVC video and AAC audio tracks")),
        }
    }

    /// Packetises a media IR into RTP packets and SDP: per track, H.264
    /// single-NAL/STAP-A/FU-A packets on the 90 kHz clock or AAC-hbr packets
    /// on the audio clock, and one SDP media block each.
    pub fn package(&mut self, media: &Media) -> (r: Result<RtpOutput, Error>)
        ensures
            *final(self) == *old(self),
            match spec_package(*old(self), media.tracks@) {
                Ok((streams, sdp)) => r matches Ok(o) && stream_views(o.streams@) == streams && o.sdp@ == sdp,
                Err(e) => r matches Err(x) && x == e,
            },
    {
        let ghost me = *self;
        let ghost ts = media.tracks@;
        if media.tracks.len() == 0 {
            return Err(Error::InvalidInput("cannot packetise a Media with no tracks"));
        }
        let mut streams: Vec<RtpStream> = Vec::new();
        let mut sdp_media = String::new();
        let mut used_video = false;
        let mut used_audio = false;
        let mut i: usize = 0;
        assert(stream_views(streams@) =~= Seq::<StreamView>::empty());
        while i < media.tracks.len()
            invariant
                i <= ts.len(),
                ts == media.tracks@,
                me == *self,
                pack_fold(me, ts, i as nat) == Ok::<PackState, Error>((stream_views(streams@), sdp_media@, used_video, used_audio)),
            decreases ts.len() - i,
        {
            let track = &media.tracks[i];
            let ghost st: PackState = (stream_views(streams@), sdp_media@, used_video, used_audio);
            assert(pack_fold(me, ts, (i + 1) as nat) == pack_step(me, st, ts[i as int]));
            let is_avc = match &track.spec.config {
                CodecConfig::Avc { .. } => true,
                _ => false,
            };
            let is_aac = match &track.spec.config {
                CodecConfig::Aac { .. } => true,
                _ => false,
            };
            let res = if is_avc {
                let pt = if used_video { pt_after(self.video_pt) } else { self.video_pt };
                used_video = true;
                self.pack_avc(track, pt)
            } else if is_aac {
                let pt = if used_audio { pt_after(self.audio_pt) } else { self.audio_pt };
                used_audio = true;
                self.pack_aac(track, pt)
            } else {
                Err(Error::InvalidInput("RTP packetiser supports only AVC video and AAC audio tracks"))
            };
            match res {
                Ok((stream, block)) => {
                    let ghost s0 = stream_views(streams@);
                    let ghost sv = (stream.pt, stream.kind, views(stream.packets@));
                    streams.push(stream);
                    assert(stream_views(streams@) =~= s0.push(sv));
                    sdp_media.append(block.as_str());
                },
                Err(e) => {
                    proof { lemma_pack_fold_err(me, ts, (i + 1) as nat, ts.len()); }
                    return Err(e);
                },
            }
            i += 1;
        }
        if streams.len() == 0 {
            return Err(Error::InvalidInput("no AVC/AAC tracks to packetise into RTP"));
        }
        let sdp = crate::sdp::build_sdp(sdp_media.as_str());
        Ok(RtpOutput { streams, sdp })
    }
}

} // verus!
