//! SDP text (RFC 4566): decimal and uppercase-hex numerals, the session
//! header and the per-stream media blocks for H.264 (RFC 6184 §8.1) and
//! AAC `mpeg4-generic` (RFC 3640 §4.1).
use vstd::prelude::*;
use vstd::string::*;
use crate::rtp::{b64_encode, base64_encode, hex_enc, hex_encode};

verus! {

/// The decimal digit `d`.
pub open spec fn digit(d: int) -> char {
    (48 + d) as char
}

/// The decimal numeral of `n`, without leading zeros.
pub open spec fn dec(n: nat) -> Seq<char>
    decreases n,
{
    if n < 10 {
        seq![digit(n as int)]
    } else {
        dec(n / 10) + seq![digit((n % 10) as int)]
    }
}

fn digit_str(d: u64) -> (r: &'static str)
    requires
        d < 10,
    ensures
        r@ == seq![digit(d as int)],
{
    if d == 0 {
        proof { reveal_strlit("0"); }
        "0"
    } else if d == 1 {
        proof { reveal_strlit("1"); }
        "1"
    } else if d == 2 {
        proof { reveal_strlit("2"); }
        "2"
    } else if d == 3 {
        proof { reveal_strlit("3"); }
        "3"
    } else if d == 4 {
        proof { reveal_strlit("4"); }
        "4"
    } else if d == 5 {
        proof { reveal_strlit("5"); }
        "5"
    } else if d == 6 {
        proof { reveal_strlit("6"); }
        "6"
    } else if d == 7 {
        proof { reveal_strlit("7"); }
        "7"
    } else if d == 8 {
        proof { reveal_strlit("8"); }
        "8"
    } else {
        proof { reveal_strlit("9"); }
        "9"
    }
}

/// The decimal numeral of `n`.
pub fn dec_string(n: u64) -> (r: String)
    ensures
        r@ == dec(n as nat),
    decreases n,
{
    if n < 10 {
        let mut s = String::new();
        s.append(digit_str(n));
        s
    } else {
        let mut s = dec_string(n / 10);
        s.append(digit_str(n % 10));
        s
    }
}

/// The uppercase hex digit of a nibble.
pub open spec fn hex_up(v: int) -> char {
    if v < 10 {
        (48 + v) as char
    } else {
        (55 + v) as char
    }
}

/// A byte as two uppercase hex digits.
pub open spec fn hex2(b: u8) -> Seq<char> {
    seq![hex_up((b / 16) as int), hex_up((b % 16) as int)]
}

fn hex_up_str(v: u8) -> (r: &'static str)
    requires
        v < 16,
    ensures
        r@ == seq![hex_up(v as int)],
{
    if v == 0 {
        proof { reveal_strlit("0"); }
        "0"
    } else if v == 1 {
        proof { reveal_strlit("1"); }
        "1"
    } else if v == 2 {
        proof { reveal_strlit("2"); }
        "2"
    } else if v == 3 {
        proof { reveal_strlit("3"); }
        "3"
    } else if v == 4 {
        proof { reveal_strlit("4"); }
        "4"
    } else if v == 5 {
        proof { reveal_strlit("5"); }
        "5"
    } else if v == 6 {
        proof { reveal_strlit("6"); }
        "6"
    } else if v == 7 {
        proof { reveal_strlit("7"); }
        "7"
    } else if v == 8 {
        proof { reveal_strlit("8"); }
        "8"
    } else if v == 9 {
        proof { reveal_strlit("9"); }
        "9"
    } else if v == 10 {
        proof { reveal_strlit("A"); }
        "A"
    } else if v == 11 {
        proof { reveal_strlit("B"); }
        "B"
    } else if v == 12 {
        proof { reveal_strlit("C"); }
        "C"
    } else if v == 13 {
        proof { reveal_strlit("D"); }
        "D"
    } else if v == 14 {
        proof { reveal_strlit("E"); }
        "E"
    } else {
        proof { reveal_strlit("F"); }
        "F"
    }
}

fn push_hex2(s: &mut String, b: u8)
    ensures
        final(s)@ == old(s)@ + hex2(b),
{
    s.append(hex_up_str(b / 16));
    s.append(hex_up_str(b % 16));
    assert(final(s)@ =~= old(s)@ + hex2(b));
}

/// The session-level SDP around the media blocks `media`.
pub open spec fn sdp_session(media: Seq<char>) -> Seq<char> {
    "v=0\r\n"@ + "o=- 0 0 IN IP4 127.0.0.1\r\n"@ + "s=transmux RTP\r\n"@ + "t=0 0\r\n"@ + media
}

/// Assembles the session-level SDP from the per-media blocks.
pub fn build_sdp(media_blocks: &str) -> (r: String)
    ensures
        r@ == sdp_session(media_blocks@),
{
    let mut s = String::new();
    s.append("v=0\r\n");
    s.append("o=- 0 0 IN IP4 127.0.0.1\r\n");
    s.append("s=transmux RTP\r\n");
    s.append("t=0 0\r\n");
    s.append(media_blocks);
    assert(s@ =~= sdp_session(media_blocks@));
    s
}

/// The base64 encodings of `sets`, joined by commas.
pub open spec fn sprop(sets: Seq<Seq<u8>>) -> Seq<char>
    decreases sets.len(),
{
    if sets.len() == 0 {
        Seq::empty()
    } else {
        sprop(sets.drop_last()) + (if sets.len() > 1 { seq![','] } else { Seq::empty() }) + b64_encode(sets.last())
    }
}

/// The SDP media block of an H.264 stream (RFC 6184 §8.1).
pub open spec fn sdp_video_block(pt: u8, profile: u8, compat: u8, level: u8, sets: Seq<Seq<u8>>) -> Seq<char> {
    "m=video 0 RTP/AVP "@ + dec(pt as nat) + "\r\n"@ + "a=rtpmap:"@ + dec(pt as nat) + " H264/90000\r\n"@
        + "a=fmtp:"@ + dec(pt as nat) + " packetization-mode=1; profile-level-id="@ + hex2(profile) + hex2(compat)
        + hex2(level) + "; sprop-parameter-sets="@ + sprop(sets) + "\r\n"@
}

/// The SDP media block of an H.264 stream: payload type, profile-level-id
/// and the base64 parameter sets (SPS then PPS).
pub fn sdp_video(pt: u8, profile: u8, compat: u8, level: u8, sets: &Vec<Vec<u8>>) -> (r: String)
    ensures
        r@ == sdp_video_block(pt, profile, compat, level, sets@.map_values(|v: Vec<u8>| v@)),
{
    let ghost vs = sets@.map_values(|v: Vec<u8>| v@);
    let mut sp = String::new();
    let mut i: usize = 0;
    while i < sets.len()
        invariant
            i <= sets@.len(),
            vs == sets@.map_values(|v: Vec<u8>| v@),
            sp@ == sprop(vs.take(i as int)),
        decreases sets@.len() - i,
    {
        let ghost before = sp@;
        if i > 0 {
            sp.append(",");
            proof { reveal_strlit(","); }
        }
        let enc = base64_encode(sets[i].as_slice());
        sp.append(enc.as_str());
        proof {
            let t = vs.take(i + 1);
            assert(t.drop_last() =~= vs.take(i as int));
            assert(t.last() == sets@[i as int]@);
            assert(sp@ =~= sprop(t));
        }
        i += 1;
    }
    assert(vs.take(sets@.len() as int) =~= vs);
    let p = dec_string(pt as u64);
    let mut s = String::new();
    s.append("m=video 0 RTP/AVP ");
    s.append(p.as_str());
    s.append("\r\n");
    s.append("a=rtpmap:");
    s.append(p.as_str());
    s.append(" H264/90000\r\n");
    s.append("a=fmtp:");
    s.append(p.as_str());
    s.append(" packetization-mode=1; profile-level-id=");
    push_hex2(&mut s, profile);
    push_hex2(&mut s, compat);
    push_hex2(&mut s, level);
    s.append("; sprop-parameter-sets=");
    s.append(sp.as_str());
    s.append("\r\n");
    assert(s@ =~= sdp_video_block(pt, profile, compat, level, vs));
    s
}

/// The SDP media block of an AAC stream (`mpeg4-generic`, RFC 3640 §4.1).
pub open spec fn sdp_audio_block(pt: u8, clock: u32, channels: u16, asc: Seq<u8>) -> Seq<char> {
    "m=audio 0 RTP/AVP "@ + dec(pt as nat) + "\r\n"@ + "a=rtpmap:"@ + dec(pt as nat) + " mpeg4-generic/"@
        + dec(clock as nat) + "/"@ + dec(channels as nat) + "\r\n"@ + "a=fmtp:"@ + dec(pt as nat)
        + " streamtype=5; profile-level-id=1; mode=AAC-hbr; config="@ + hex_enc(asc)
        + "; sizeLength=13; indexLength=3; indexDeltaLength=3\r\n"@
}

/// The SDP media block of an AAC-hbr stream: clock, channels and the hex
/// AudioSpecificConfig.
pub fn sdp_audio(pt: u8, clock: u32, channels: u16, asc: &[u8]) -> (r: String)
    ensures
        r@ == sdp_audio_block(pt, clock, channels, asc@),
{
    let p = dec_string(pt as u64);
    let c = dec_string(clock as u64);
    let ch = dec_string(channels as u64);
    let cfg = hex_encode(asc);
    let mut s = String::new();
    s.append("m=audio 0 RTP/AVP ");
    s.append(p.as_str());
    s.append("\r\n");
    s.append("a=rtpmap:");
    s.append(p.as_str());
    s.append(" mpeg4-generic/");
    s.append(c.as_str());
    s.append("/");
    s.append(ch.as_str());
    s.append("\r\n");
    s.append("a=fmtp:");
    s.append(p.as_str());
    s.append(" streamtype=5; profile-level-id=1; mode=AAC-hbr; config=");
    s.append(cfg.as_str());
    s.append("; sizeLength=13; indexLength=3; indexDeltaLength=3\r\n");
    assert(s@ =~= sdp_audio_block(pt, clock, channels, asc@));
    s
}

} // verus!
