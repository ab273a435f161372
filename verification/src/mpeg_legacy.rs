//! Legacy-codec elementary-stream headers: the MPEG-2 video (H.262)
//! `sequence_header()` (ISO/IEC 13818-2 §6.2.2.1) and the MPEG-1/2 audio
//! (MP1/2/3) frame header (ISO/IEC 11172-3 §2.4.1.3, ISO/IEC 13818-3).
use vstd::prelude::*;
use crate::bytes::get32;
use crate::error::Error;

verus! {

/// Last byte of the `sequence_header_code` start code `00 00 01 B3`.
pub const SEQUENCE_HEADER_CODE_BYTE: u8 = 0xB3;

/// The 11-bit all-ones `syncword` opening an MPEG audio frame header.
pub const MPEG_AUDIO_SYNCWORD: u16 = 0x07FF;

/// The coded picture geometry read from an MPEG-2 video `sequence_header()`.
#[derive(Debug, Clone, Copy, PartialEq, Eq, Structural)]
pub struct Mpeg2SeqHeader {
    /// `horizontal_size_value` (12 bits).
    pub width: u16,
    /// `vertical_size_value` (12 bits).
    pub height: u16,
}

/// The first position at or after `i` where `00 00 01 code` starts, if any.
pub open spec fn find_code_from(s: Seq<u8>, i: nat, code: u8) -> Option<nat>
    decreases s.len() - i,
{
    if i + 4 > s.len() {
        None
    } else if s[i as int] == 0 && s[i + 1int] == 0 && s[i + 2int] == 1 && s[i + 3int] == code {
        Some(i)
    } else {
        find_code_from(s, i + 1, code)
    }
}

/// Outcome of [`Mpeg2SeqHeader::find`] on an elementary stream.
pub open spec fn spec_find_seq_header(es: Seq<u8>) -> Result<Mpeg2SeqHeader, Error> {
    match find_code_from(es, 0, 0xB3) {
        None => Err(
            Error::InvalidInput(
                "no MPEG-2 sequence_header (start code 0x000001B3) in elementary stream",
            ),
        ),
        Some(start) => if start + 7 > es.len() {
            Err(
                Error::BufferTooShort {
                    need: crate::bytes::sat(start + 7int),
                    have: es.len() as usize,
                    what: "MPEG-2 sequence_header size fields",
                },
            )
        } else {
            let b0 = es[start + 4int];
            let b1 = es[start + 5int];
            let b2 = es[start + 6int];
            Ok(
                Mpeg2SeqHeader {
                    width: (((b0 as u16) << 4u16) | ((b1 as u16) >> 4u16)) as u16,
                    height: ((((b1 & 0x0Fu8) as u16) << 8u16) | (b2 as u16)) as u16,
                },
            )
        },
    }
}

fn find_start_code(data: &[u8], code: u8) -> (r: Option<usize>)
    ensures
        match find_code_from(data@, 0, code) {
            None => r is None,
            Some(p) => r is Some && r->0 == p,
        },
{
    let n = data.len();
    let mut i: usize = 0;
    while n >= 4 && i <= n - 4
        invariant
            n == data@.len(),
            find_code_from(data@, 0, code) == find_code_from(data@, i as nat, code),
        decreases n - i,
    {
        if data[i] == 0 && data[i + 1] == 0 && data[i + 2] == 1 && data[i + 3] == code {
            return Some(i);
        }
        i += 1;
    }
    None
}

impl Mpeg2SeqHeader {
    /// Find the first `sequence_header()` in an MPEG-2 video elementary
    /// stream and decode its 12-bit picture width and height.
    pub fn find(es: &[u8]) -> (r: Result<Self, Error>)
        ensures
            r == spec_find_seq_header(es@),
    {
        let start = match find_start_code(es, SEQUENCE_HEADER_CODE_BYTE) {
            Some(s) => s,
            None => {
                return Err(
                    Error::InvalidInput(
                        "no MPEG-2 sequence_header (start code 0x000001B3) in elementary stream",
                    ),
                );
            },
        };
        proof {
            lemma_find_code_bound(es@, 0, SEQUENCE_HEADER_CODE_BYTE);
            assert(find_code_from(es@, 0, SEQUENCE_HEADER_CODE_BYTE) is Some);
            let p = find_code_from(es@, 0, SEQUENCE_HEADER_CODE_BYTE)->0;
            assert(p + 4 <= es@.len());
            assert(start == p);
        }
        assert(start + 4 <= es.len());
        let fields_at = start + 4;
        if es.len() - fields_at < 3 {
            return Err(
                Error::BufferTooShort {
                    need: fields_at.saturating_add(3),
                    have: es.len(),
                    what: "MPEG-2 sequence_header size fields",
                },
            );
        }
        let b0 = es[fields_at];
        let b1 = es[fields_at + 1];
        let b2 = es[fields_at + 2];
        let width = ((b0 as u16) << 4u16) | ((b1 as u16) >> 4u16);
        let height = (((b1 & 0x0Fu8) as u16) << 8u16) | (b2 as u16);
        Ok(Self { width, height })
    }
}

pub proof fn lemma_find_code_bound(s: Seq<u8>, i: nat, code: u8)
    ensures
        match find_code_from(s, i, code) {
            Some(p) => i <= p && p + 4 <= s.len(),
            None => true,
        },
    decreases s.len() - i,
{
    if i + 4 <= s.len() && !(s[i as int] == 0 && s[i + 1int] == 0 && s[i + 2int] == 1 && s[i + 3int]
        == code) {
        lemma_find_code_bound(s, i + 1, code);
    }
}

/// Audio layer of an MPEG-1/2 audio frame.
#[derive(Debug, Clone, Copy, PartialEq, Eq, Structural)]
pub enum MpegAudioLayer {
    /// Layer I (MP1).
    LayerI,
    /// Layer II (MP2).
    LayerII,
    /// Layer III (MP3).
    LayerIII,
}

/// The layer number (1, 2 or 3).
pub open spec fn layer_number(l: MpegAudioLayer) -> u8 {
    match l {
        MpegAudioLayer::LayerI => 1,
        MpegAudioLayer::LayerII => 2,
        MpegAudioLayer::LayerIII => 3,
    }
}

/// The spec label of a layer.
pub open spec fn layer_name(l: MpegAudioLayer) -> Seq<char> {
    match l {
        MpegAudioLayer::LayerI => "Layer I"@,
        MpegAudioLayer::LayerII => "Layer II"@,
        MpegAudioLayer::LayerIII => "Layer III"@,
    }
}

impl MpegAudioLayer {
    /// The layer number (1, 2, or 3).
    pub fn number(self) -> (r: u8)
        ensures
            r == layer_number(self),
    {
        match self {
            MpegAudioLayer::LayerI => 1,
            MpegAudioLayer::LayerII => 2,
            MpegAudioLayer::LayerIII => 3,
        }
    }

    /// Spec label for the layer.
    pub fn name(&self) -> (r: &'static str)
        ensures
            r@ == layer_name(*self),
    {
        match self {
            MpegAudioLayer::LayerI => "Layer I",
            MpegAudioLayer::LayerII => "Layer II",
            MpegAudioLayer::LayerIII => "Layer III",
        }
    }
}

/// MPEG audio frame header fields needed to describe the stream and walk
/// frame boundaries.
#[derive(Debug, Clone, Copy, PartialEq, Eq, Structural)]
pub struct MpegAudioFrameHeader {
    /// Audio layer.
    pub layer: MpegAudioLayer,
    /// Sampling frequency in Hz.
    pub sample_rate: u32,
    /// 1 for `single_channel` mode, else 2.
    pub channels: u16,
    /// Total frame length in bytes (header + payload).
    pub frame_length: usize,
    /// Decoded samples per frame.
    pub samples_per_frame: u32,
}

/// Bit rate in kbit/s for MPEG-1 (`lsf == false`) or MPEG-2/2.5 (`lsf`),
/// layer group 0 = I, 1 = II, 2 = III, and `bitrate_index`; 0 for the free
/// (0) and forbidden (15) indexes.
pub open spec fn spec_bitrate_kbps(lsf: bool, layer_group: nat, idx: nat) -> nat {
    let t: Seq<nat> = if !lsf {
        if layer_group == 0 {
            seq![0, 32, 64, 96, 128, 160, 192, 224, 256, 288, 320, 352, 384, 416, 448, 0]
        } else if layer_group == 1 {
            seq![0, 32, 48, 56, 64, 80, 96, 112, 128, 160, 192, 224, 256, 320, 384, 0]
        } else {
            seq![0, 32, 40, 48, 56, 64, 80, 96, 112, 128, 160, 192, 224, 256, 320, 0]
        }
    } else if layer_group == 0 {
        seq![0, 32, 48, 56, 64, 80, 96, 112, 128, 144, 160, 176, 192, 224, 256, 0]
    } else {
        seq![0, 8, 16, 24, 32, 40, 48, 56, 64, 80, 96, 112, 128, 144, 160, 0]
    };
    if idx < 16 {
        t[idx as int]
    } else {
        0
    }
}

fn bitrate_kbps(lsf: bool, layer_group: usize, idx: usize) -> (r: usize)
    requires
        idx < 16,
    ensures
        r == spec_bitrate_kbps(lsf, layer_group as nat, idx as nat),
        r <= 448,
{
    let t: [usize; 16] = if !lsf {
        if layer_group == 0 {
            [0, 32, 64, 96, 128, 160, 192, 224, 256, 288, 320, 352, 384, 416, 448, 0]
        } else if layer_group == 1 {
            [0, 32, 48, 56, 64, 80, 96, 112, 128, 160, 192, 224, 256, 320, 384, 0]
        } else {
            [0, 32, 40, 48, 56, 64, 80, 96, 112, 128, 160, 192, 224, 256, 320, 0]
        }
    } else if layer_group == 0 {
        [0, 32, 48, 56, 64, 80, 96, 112, 128, 144, 160, 176, 192, 224, 256, 0]
    } else {
        [0, 8, 16, 24, 32, 40, 48, 56, 64, 80, 96, 112, 128, 144, 160, 0]
    };
    t[idx]
}

/// Outcome of parsing the 4-byte MPEG audio frame header at the front of `data`.
pub open spec fn spec_parse_mpa(data: Seq<u8>) -> Result<MpegAudioFrameHeader, Error> {
    if data.len() < 4 {
        Err(Error::BufferTooShort { need: 4, have: data.len() as usize, what: "MPEG audio frame header" })
    } else {
        let h = get32(data, 0);
        let id = (h >> 19u32) & 3u32;
        let lc = (h >> 17u32) & 3u32;
        let bi = ((h >> 12u32) & 0xFu32) as nat;
        let si = ((h >> 10u32) & 3u32) as nat;
        let pad = ((h >> 9u32) & 1u32) as nat;
        let mode = (h >> 6u32) & 3u32;
        if (h >> 21u32) & 0x7FFu32 != 0x7FF {
            Err(Error::InvalidInput("MPEG audio frame header: bad syncword (expected 11-bit 0x7FF)"))
        } else if id == 1 {
            Err(Error::InvalidInput("MPEG audio frame header: reserved version ID"))
        } else if lc == 0 {
            Err(Error::InvalidInput("MPEG audio frame header: reserved layer"))
        } else if si == 3 {
            Err(Error::InvalidInput("MPEG audio frame header: reserved sampling_frequency"))
        } else {
            let layer = if lc == 3 {
                MpegAudioLayer::LayerI
            } else if lc == 2 {
                MpegAudioLayer::LayerII
            } else {
                MpegAudioLayer::LayerIII
            };
            let base: nat = if si == 0 {
                44100
            } else if si == 1 {
                48000
            } else {
                32000
            };
            let sr: nat = if id == 3 {
                base
            } else if id == 2 {
                base / 2
            } else {
                base / 4
            };
            let kbps = spec_bitrate_kbps(id != 3, (3 - lc) as nat, bi);
            let spf: nat = if lc == 3 {
                384
            } else if lc == 2 {
                1152
            } else if id == 3 {
                1152
            } else {
                576
            };
            let len: nat = if lc == 3 {
                (12 * (kbps * 1000) / sr + pad) * 4
            } else {
                (spf / 8) * (kbps * 1000) / sr + pad
            };
            if kbps == 0 {
                Err(
                    Error::InvalidInput(
                        "MPEG audio frame header: free-format or forbidden bitrate_index",
                    ),
                )
            } else if len < 4 {
                Err(
                    Error::InvalidInput(
                        "MPEG audio frame header: computed frame length shorter than header",
                    ),
                )
            } else {
                Ok(
                    MpegAudioFrameHeader {
                        layer,
                        sample_rate: sr as u32,
                        channels: if mode == 3 {
                            1
                        } else {
                            2
                        },
                        frame_length: len as usize,
                        samples_per_frame: spf as u32,
                    },
                )
            }
        }
    }
}

impl MpegAudioFrameHeader {
    /// Parse the 4-byte MPEG audio frame header at the start of `data`,
    /// validating the syncword and rejecting reserved version, layer and
    /// sampling-frequency codes and free-format or forbidden bit rates.
    pub fn parse(data: &[u8]) -> (r: Result<Self, Error>)
        ensures
            r == spec_parse_mpa(data@),
    {
        if data.len() < 4 {
            return Err(
                Error::BufferTooShort { need: 4, have: data.len(), what: "MPEG audio frame header" },
            );
        }
        let h = crate::bytes::read32(data, 0);
        if (h >> 21u32) & 0x7FFu32 != 0x7FF {
            return Err(
                Error::InvalidInput("MPEG audio frame header: bad syncword (expected 11-bit 0x7FF)"),
            );
        }
        let id = (h >> 19u32) & 3u32;
        if id == 1 {
            return Err(Error::InvalidInput("MPEG audio frame header: reserved version ID"));
        }
        let lc = (h >> 17u32) & 3u32;
        if lc == 0 {
            return Err(Error::InvalidInput("MPEG audio frame header: reserved layer"));
        }
        assert(lc <= 3) by (bit_vector)
            requires
                lc == (h >> 17u32) & 3u32,
        ;
        let layer = if lc == 3 {
            MpegAudioLayer::LayerI
        } else if lc == 2 {
            MpegAudioLayer::LayerII
        } else {
            MpegAudioLayer::LayerIII
        };
        let bi = ((h >> 12u32) & 0xFu32) as usize;
        let si = ((h >> 10u32) & 3u32) as usize;
        let pad = ((h >> 9u32) & 1u32) as usize;
        let mode = (h >> 6u32) & 3u32;
        assert(((h >> 12u32) & 0xFu32) < 16) by (bit_vector);
        if si == 3 {
            return Err(Error::InvalidInput("MPEG audio frame header: reserved sampling_frequency"));
        }
        let base: u32 = if si == 0 {
            44100
        } else if si == 1 {
            48000
        } else {
            32000
        };
        let sample_rate: u32 = if id == 3 {
            base
        } else if id == 2 {
            base / 2
        } else {
            base / 4
        };
        let kbps = bitrate_kbps(id != 3, (3 - lc) as usize, bi);
        if kbps == 0 {
            return Err(
                Error::InvalidInput("MPEG audio frame header: free-format or forbidden bitrate_index"),
            );
        }
        let bitrate = kbps * 1000;
        let channels: u16 = if mode == 3 {
            1
        } else {
            2
        };
        let samples_per_frame: u32 = if lc == 3 {
            384
        } else if lc == 2 {
            1152
        } else if id == 3 {
            1152
        } else {
            576
        };
        assert(pad <= 1) by (bit_vector)
            requires
                pad == ((h >> 9u32) & 1u32) as usize,
        ;
        let sr = sample_rate as usize;
        let frame_length = if lc == 3 {
            assert((12 * bitrate) / (sr as int) <= 12 * bitrate) by (nonlinear_arith)
                requires
                    sr > 0,
            ;
            (12 * bitrate / sr + pad) * 4
        } else {
            let c = (samples_per_frame / 8) as usize;
            assert(c * bitrate <= 144 * 448000) by (nonlinear_arith)
                requires
                    c <= 144,
                    bitrate <= 448000,
            ;
            assert((c * bitrate) / (sr as int) <= c * bitrate) by (nonlinear_arith)
                requires
                    sr > 0,
            ;
            c * bitrate / sr + pad
        };
        if frame_length < 4 {
            return Err(
                Error::InvalidInput(
                    "MPEG audio frame header: computed frame length shorter than header",
                ),
            );
        }
        Ok(Self { layer, sample_rate, channels, frame_length, samples_per_frame })
    }
}

} // verus!
