//! Per-track codec configuration: [`CodecConfig`] and [`DataCarriage`].
//!
//! Decoder configuration records whose box body this crate does not model
//! (`avcC`, `hvcC`, `vvcC`, `dac3`, `dec3`, `av1C`, `vpcC`, `dfLa`, `dac4`,
//! `ddts`) are carried as the verbatim config box ([`OpaqueBox`]) and
//! re-embedded byte for byte in the sample entry.
use vstd::prelude::*;
use crate::init_segment::OpaqueBox;
use crate::mp4esds::EsdsBox;
use crate::mpeg_legacy::MpegAudioLayer;
use crate::mpegh::MHADecoderConfigurationRecord;
use crate::opus::OpusSpecificBox;

verus! {

/// Whether an opaque data stream carries PES packets or PSI/private sections
/// on its PID (ISO/IEC 13818-1 §2.4.4.8): the demuxer and muxer dispatch on
/// it before touching the payload.
#[derive(Debug, Clone, Copy, PartialEq, Eq, Structural)]
#[non_exhaustive]
pub enum DataCarriage {
    /// PES-packetised (ISO/IEC 13818-1 §2.4.3.6).
    Pes,
    /// PSI/private sections directly on the PID (§2.4.4), no PES header.
    Sections,
}

/// The label of a carriage kind.
pub open spec fn carriage_name(c: DataCarriage) -> Seq<char> {
    match c {
        DataCarriage::Pes => "pes"@,
        DataCarriage::Sections => "sections"@,
    }
}

impl DataCarriage {
    /// A short label for this carriage kind.
    pub fn name(&self) -> (r: &'static str)
        ensures
            r@ == carriage_name(*self),
    {
        match self {
            DataCarriage::Pes => "pes",
            DataCarriage::Sections => "sections",
        }
    }
}

/// The payload format of a subtitle track.
#[derive(Debug, Clone, Copy, PartialEq, Eq, Structural)]
pub enum SubtitleFormat {
    /// TTML (`stpp`, ISO/IEC 14496-30 §7.2).
    Ttml,
    /// WebVTT (`wvtt`, ISO/IEC 14496-30 §9.2).
    WebVtt,
}

/// Per-track codec configuration for the initialisation segment.
#[derive(Debug, Clone)]
#[non_exhaustive]
pub enum CodecConfig {
    /// H.264/AVC video: `avc1` sample entry carrying the `avcC` box.
    Avc { config: OpaqueBox, width: u16, height: u16 },
    /// H.265/HEVC video: `hvc1` sample entry carrying the `hvcC` box.
    Hevc { config: OpaqueBox, width: u16, height: u16 },
    /// H.266/VVC video: `vvc1` sample entry carrying the `vvcC` box.
    Vvc { config: OpaqueBox, width: u16, height: u16 },
    /// AAC audio: `mp4a` sample entry with an `esds` box.
    Aac { esds: EsdsBox, channel_count: u16, sample_rate: u32, sample_size: u16 },
    /// AC-3 audio: `ac-3` sample entry carrying the `dac3` box.
    Ac3 { config: OpaqueBox, channel_count: u16, sample_rate: u32, sample_size: u16 },
    /// E-AC-3 audio: `ec-3` sample entry carrying the `dec3` box.
    Eac3 { config: OpaqueBox, channel_count: u16, sample_rate: u32, sample_size: u16 },
    /// AV1 video: `av01` sample entry carrying the `av1C` box.
    Av1 { config: OpaqueBox, width: u16, height: u16 },
    /// VP9 video: `vp09` sample entry carrying the `vpcC` box.
    Vp9 { config: OpaqueBox, width: u16, height: u16 },
    /// Opus audio: `Opus` sample entry with a `dOps` box.
    Opus { config: OpusSpecificBox, channel_count: u16, sample_rate: u32, sample_size: u16 },
    /// FLAC audio: `fLaC` sample entry carrying the `dfLa` box.
    Flac { config: OpaqueBox, channel_count: u16, sample_rate: u32, sample_size: u16 },
    /// AC-4 audio: `ac-4` sample entry carrying the `dac4` box.
    Ac4 { config: OpaqueBox, channel_count: u16, sample_rate: u32, sample_size: u16 },
    /// MPEG-H 3D Audio: `mha1` sample entry with an `mhaC` box.
    MpegH {
        config: MHADecoderConfigurationRecord,
        channel_count: u16,
        sample_rate: u32,
        sample_size: u16,
    },
    /// MPEG-2 video (H.262): `mp4v` sample entry with an `esds` box.
    Mpeg2Video { esds: EsdsBox, width: u16, height: u16 },
    /// MPEG-1/2 audio layers I to III: `mp4a` sample entry with an `esds` box.
    MpegAudio {
        esds: EsdsBox,
        layer: MpegAudioLayer,
        channel_count: u16,
        sample_rate: u32,
        sample_size: u16,
    },
    /// DTS audio: a `dtsc`/`dtsh`/`dtsl`/`dtse` sample entry carrying the
    /// `ddts` box.
    Dts {
        config: OpaqueBox,
        codec_fourcc: [u8; 4],
        channel_count: u16,
        sample_rate: u32,
        sample_size: u16,
    },
    /// VP8 video (WebM only; no ISOBMFF sample entry).
    Vp8 { width: u16, height: u16 },
    /// Vorbis audio (WebM only): the Xiph-laced headers, verbatim.
    Vorbis { codec_private: Vec<u8>, channels: u16, sample_rate: u32 },
    /// An opaque PMT-listed data stream, carried losslessly.
    Data { stream_type: u8, descriptors: Vec<u8>, carriage: DataCarriage },
    /// A subtitle track (`stpp`/`wvtt`): only the format is carried; the
    /// samples stay opaque payloads.
    Subtitle { format: SubtitleFormat },
}

impl CodecConfig {
    /// The configuration is an audio codec.
    pub open spec fn spec_is_audio(&self) -> bool {
        ||| self is Aac
        ||| self is Ac3
        ||| self is Eac3
        ||| self is Opus
        ||| self is Flac
        ||| self is Ac4
        ||| self is MpegH
        ||| self is Dts
        ||| self is MpegAudio
        ||| self is Vorbis
    }

    /// The configuration is a video codec.
    pub open spec fn spec_is_video(&self) -> bool {
        ||| self is Avc
        ||| self is Hevc
        ||| self is Vvc
        ||| self is Av1
        ||| self is Vp9
        ||| self is Vp8
        ||| self is Mpeg2Video
    }

    /// True for audio codecs.
    pub fn is_audio(&self) -> (r: bool)
        ensures
            r == self.spec_is_audio(),
    {
        match self {
            CodecConfig::Aac { .. } | CodecConfig::Ac3 { .. } | CodecConfig::Eac3 { .. }
            | CodecConfig::Opus { .. } | CodecConfig::Flac { .. } | CodecConfig::Ac4 { .. }
            | CodecConfig::MpegH { .. } | CodecConfig::Dts { .. } | CodecConfig::MpegAudio { .. }
            | CodecConfig::Vorbis { .. } => true,
            _ => false,
        }
    }

    /// True for the opaque data variant, which has no ISOBMFF sample entry.
    pub fn is_opaque_data(&self) -> (r: bool)
        ensures
            r == (self is Data),
    {
        match self {
            CodecConfig::Data { .. } => true,
            _ => false,
        }
    }

    /// True for video codecs, whichever container carries them.
    pub fn is_video(&self) -> (r: bool)
        ensures
            r == self.spec_is_video(),
    {
        match self {
            CodecConfig::Avc { .. } | CodecConfig::Hevc { .. } | CodecConfig::Vvc { .. }
            | CodecConfig::Av1 { .. } | CodecConfig::Vp9 { .. } | CodecConfig::Vp8 { .. }
            | CodecConfig::Mpeg2Video { .. } => true,
            _ => false,
        }
    }
}

} // verus!
