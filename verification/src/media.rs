//! The container spokes over the media IR: fragmented-MP4 demux
//! ([`Fmp4Demux`]), CMAF mux ([`CmafMux`]), and the recovery of a track's
//! [`CodecConfig`] from its `stsd` sample entry.
use vstd::prelude::*;
use crate::box_types::{fourcc_eq, parse_box, spec_box_header};
use crate::bytes::{get16, get32, push_all, read16, read32, sat, copy_range};
use crate::error::Error;
use crate::init_segment::{MOOV, spec_parse_moov, EntryView, Mp4aView, OpaqueBox, SampleEntryVariant, StblChild, StblChildView, StsdView, TrackBox, TrakView};
use crate::ir::track::{Track, TrackSpec};
use crate::ir::media::Media;
use crate::pipeline::{
    build_media_segment, config_fits, frag_view, init_segment_of, max_track_id, seg_fits, spec_init_segment,
    spec_media_segment, specs_of, FragView, MDAT,
};
use crate::ir::sample::FragmentTrackData;
use crate::ir::sample::{Sample, SourceTiming};
use crate::movie_fragment::{MOOF, MoofView, spec_parse_moof, MovieFragmentBox, TrackFragmentHeaderBox, TrackFragmentRunBox, TrafView, TrunSample, TrunView};
use crate::ir::codec::{CodecConfig, SubtitleFormat};
use crate::mp4esds::{esds_body_in_bounds, spec_parse_esds_body, EsdsBox, EsView, TAG_ES_DESCRIPTOR};
use crate::mpeg_legacy::MpegAudioLayer;
use crate::mpegh::MHADecoderConfigurationRecord;
use crate::opus::OpusSpecificBox;
use crate::progressive::{dur_of, sum_dur};
use crate::sdp::{dec, dec_string};
use vstd::string::*;

verus! {

// ---------------------------------------------------------------------------
// Sample entry → codec configuration
// ---------------------------------------------------------------------------

/// Size of the VisualSampleEntry fields before the child boxes (§12.1.3).
pub const VISUAL_FIELDS_LEN: usize = 78;
/// Size of the AudioSampleEntry fields before the child boxes (§12.2.3).
pub const AUDIO_FIELDS_LEN: usize = 28;

/// The body span of the first child box of type `t` among the boxes laid
/// out from `off` to the end of `b` (none once a header does not parse).
pub open spec fn find_child(b: Seq<u8>, off: int, t: Seq<u8>) -> Option<(int, int)>
    decreases b.len() - off,
{
    if off < 0 || off + 8 > b.len() {
        None
    } else {
        match spec_box_header(b.skip(off)) {
            Err(_) => None,
            Ok((typ, hl, size)) => if typ == t {
                Some((off + hl, off + size))
            } else if size == 0 || off + size > b.len() {
                None
            } else {
                find_child(b, off + size, t)
            },
        }
    }
}

fn find_child_box(b: &[u8], off: usize, t: &[u8; 4]) -> (r: Option<(usize, usize)>)
    ensures
        match find_child(b@, off as int, t@) {
            Some((s, e)) => r matches Some((x, y)) && x == s && y == e && 0 <= s <= e <= b@.len(),
            None => r is None,
        },
{
    let n = b.len();
    let mut o = off;
    loop
        invariant
            n == b@.len(),
            find_child(b@, off as int, t@) == find_child(b@, o as int, t@),
        decreases n - o,
    {
        if o > n || n - o < 8 {
            return None;
        }
        let rest = &b[o..n];
        assert(rest@ =~= b@.skip(o as int));
        match parse_box(rest) {
            Err(_) => {
                return None;
            },
            Ok((bx, size)) => {
                proof { crate::box_types::lemma_box_header_bounds(rest@); }
                if crate::box_types::fourcc_eq(&bx.header.box_type, t) {
                    return Some((o + bx.header.header_len, o + size));
                }
                if size == 0 || size > n - o {
                    return None;
                }
                o = o + size;
            },
        }
    }
}

/// The body of the first configuration box of type `t` among `cfgs`.
pub open spec fn first_config(cfgs: Seq<(Seq<u8>, Seq<u8>)>, t: Seq<u8>) -> Option<Seq<u8>>
    decreases cfgs.len(),
{
    if cfgs.len() == 0 {
        None
    } else if cfgs[0].0 == t {
        Some(cfgs[0].1)
    } else {
        first_config(cfgs.skip(1), t)
    }
}

/// The `AVC1` four-character code.
pub const FCC_AVC1: [u8; 4] = [0x61, 0x76, 0x63, 0x31];
/// The `AVC3` four-character code.
pub const FCC_AVC3: [u8; 4] = [0x61, 0x76, 0x63, 0x33];
/// The `AVC2` four-character code.
pub const FCC_AVC2: [u8; 4] = [0x61, 0x76, 0x63, 0x32];
/// The `AVC4` four-character code.
pub const FCC_AVC4: [u8; 4] = [0x61, 0x76, 0x63, 0x34];
/// The `HVC1` four-character code.
pub const FCC_HVC1: [u8; 4] = [0x68, 0x76, 0x63, 0x31];
/// The `HEV1` four-character code.
pub const FCC_HEV1: [u8; 4] = [0x68, 0x65, 0x76, 0x31];
/// The `VVC1` four-character code.
pub const FCC_VVC1: [u8; 4] = [0x76, 0x76, 0x63, 0x31];
/// The `VVI1` four-character code.
pub const FCC_VVI1: [u8; 4] = [0x76, 0x76, 0x69, 0x31];
/// The `AV01` four-character code.
pub const FCC_AV01: [u8; 4] = [0x61, 0x76, 0x30, 0x31];
/// The `VP09` four-character code.
pub const FCC_VP09: [u8; 4] = [0x76, 0x70, 0x30, 0x39];
/// The `MP4V` four-character code.
pub const FCC_MP4V: [u8; 4] = [0x6D, 0x70, 0x34, 0x76];
/// The `AC_3` four-character code.
pub const FCC_AC_3: [u8; 4] = [0x61, 0x63, 0x2D, 0x33];
/// The `EC_3` four-character code.
pub const FCC_EC_3: [u8; 4] = [0x65, 0x63, 0x2D, 0x33];
/// The `OPUS` four-character code.
pub const FCC_OPUS: [u8; 4] = [0x4F, 0x70, 0x75, 0x73];
/// The `FLAC` four-character code.
pub const FCC_FLAC: [u8; 4] = [0x66, 0x4C, 0x61, 0x43];
/// The `AC_4` four-character code.
pub const FCC_AC_4: [u8; 4] = [0x61, 0x63, 0x2D, 0x34];
/// The `MHA1` four-character code.
pub const FCC_MHA1: [u8; 4] = [0x6D, 0x68, 0x61, 0x31];
/// The `MHA2` four-character code.
pub const FCC_MHA2: [u8; 4] = [0x6D, 0x68, 0x61, 0x32];
/// The `MHM1` four-character code.
pub const FCC_MHM1: [u8; 4] = [0x6D, 0x68, 0x6D, 0x31];
/// The `MHM2` four-character code.
pub const FCC_MHM2: [u8; 4] = [0x6D, 0x68, 0x6D, 0x32];
/// The `DTSC` four-character code.
pub const FCC_DTSC: [u8; 4] = [0x64, 0x74, 0x73, 0x63];
/// The `DTSH` four-character code.
pub const FCC_DTSH: [u8; 4] = [0x64, 0x74, 0x73, 0x68];
/// The `DTSL` four-character code.
pub const FCC_DTSL: [u8; 4] = [0x64, 0x74, 0x73, 0x6C];
/// The `DTSE` four-character code.
pub const FCC_DTSE: [u8; 4] = [0x64, 0x74, 0x73, 0x65];
/// The `DTSX` four-character code.
pub const FCC_DTSX: [u8; 4] = [0x64, 0x74, 0x73, 0x78];
/// The `STPP` four-character code.
pub const FCC_STPP: [u8; 4] = [0x73, 0x74, 0x70, 0x70];
/// The `WVTT` four-character code.
pub const FCC_WVTT: [u8; 4] = [0x77, 0x76, 0x74, 0x74];
/// The `AVCC` four-character code.
pub const FCC_AVCC: [u8; 4] = [0x61, 0x76, 0x63, 0x43];
/// The `HVCC` four-character code.
pub const FCC_HVCC: [u8; 4] = [0x68, 0x76, 0x63, 0x43];
/// The `VVCC` four-character code.
pub const FCC_VVCC: [u8; 4] = [0x76, 0x76, 0x63, 0x43];
/// The `AV1C` four-character code.
pub const FCC_AV1C: [u8; 4] = [0x61, 0x76, 0x31, 0x43];
/// The `VPCC` four-character code.
pub const FCC_VPCC: [u8; 4] = [0x76, 0x70, 0x63, 0x43];
/// The `ESDS` four-character code.
pub const FCC_ESDS: [u8; 4] = [0x65, 0x73, 0x64, 0x73];
/// The `DAC3` four-character code.
pub const FCC_DAC3: [u8; 4] = [0x64, 0x61, 0x63, 0x33];
/// The `DEC3` four-character code.
pub const FCC_DEC3: [u8; 4] = [0x64, 0x65, 0x63, 0x33];
/// The `DOPS` four-character code.
pub const FCC_DOPS: [u8; 4] = [0x64, 0x4F, 0x70, 0x73];
/// The `DFLA` four-character code.
pub const FCC_DFLA: [u8; 4] = [0x64, 0x66, 0x4C, 0x61];
/// The `DAC4` four-character code.
pub const FCC_DAC4: [u8; 4] = [0x64, 0x61, 0x63, 0x34];
/// The `MHAC` four-character code.
pub const FCC_MHAC: [u8; 4] = [0x6D, 0x68, 0x61, 0x43];
/// The `DDTS` four-character code.
pub const FCC_DDTS: [u8; 4] = [0x64, 0x64, 0x74, 0x73];

/// Which codec a sample entry type names: 1 AVC, 2 HEVC, 3 VVC, 4 AV1,
/// 5 VP9, 6 MPEG-2 video (`mp4v`), 10 AC-3, 11 E-AC-3, 12 Opus, 13 FLAC,
/// 14 AC-4, 15 MPEG-H, 16 DTS, 20 TTML, 21 WebVTT, 0 none of these.
pub open spec fn entry_codec(t: Seq<u8>) -> u8 {
    if t == FCC_AVC1@ || t == FCC_AVC3@ || t == FCC_AVC2@ || t == FCC_AVC4@ {
        1
    } else if t == FCC_HVC1@ || t == FCC_HEV1@ {
        2
    } else if t == FCC_VVC1@ || t == FCC_VVI1@ {
        3
    } else if t == FCC_AV01@ {
        4
    } else if t == FCC_VP09@ {
        5
    } else if t == FCC_MP4V@ {
        6
    } else if t == FCC_AC_3@ {
        10
    } else if t == FCC_EC_3@ {
        11
    } else if t == FCC_OPUS@ {
        12
    } else if t == FCC_FLAC@ {
        13
    } else if t == FCC_AC_4@ {
        14
    } else if t == FCC_MHA1@ || t == FCC_MHA2@ || t == FCC_MHM1@ || t == FCC_MHM2@ {
        15
    } else if t == FCC_DTSC@ || t == FCC_DTSH@ || t == FCC_DTSL@ || t == FCC_DTSE@ || t == FCC_DTSX@ {
        16
    } else if t == FCC_STPP@ {
        20
    } else if t == FCC_WVTT@ {
        21
    } else {
        0
    }
}

/// The configuration box type a codec's sample entry carries.
pub open spec fn config_type(k: u8) -> [u8; 4] {
    if k == 1 {
        FCC_AVCC
    } else if k == 2 {
        FCC_HVCC
    } else if k == 3 {
        FCC_VVCC
    } else if k == 4 {
        FCC_AV1C
    } else if k == 5 {
        FCC_VPCC
    } else if k == 6 {
        FCC_ESDS
    } else if k == 10 {
        FCC_DAC3
    } else if k == 11 {
        FCC_DEC3
    } else if k == 12 {
        FCC_DOPS
    } else if k == 13 {
        FCC_DFLA
    } else if k == 14 {
        FCC_DAC4
    } else if k == 15 {
        FCC_MHAC
    } else {
        FCC_DDTS
    }
}

fn entry_codec_of(t: &[u8; 4]) -> (r: u8)
    ensures
        r == entry_codec(t@),
{
    if fourcc_eq(t, &FCC_AVC1) || fourcc_eq(t, &FCC_AVC3) || fourcc_eq(t, &FCC_AVC2) || fourcc_eq(t, &FCC_AVC4) {
        1
    } else if fourcc_eq(t, &FCC_HVC1) || fourcc_eq(t, &FCC_HEV1) {
        2
    } else if fourcc_eq(t, &FCC_VVC1) || fourcc_eq(t, &FCC_VVI1) {
        3
    } else if fourcc_eq(t, &FCC_AV01) {
        4
    } else if fourcc_eq(t, &FCC_VP09) {
        5
    } else if fourcc_eq(t, &FCC_MP4V) {
        6
    } else if fourcc_eq(t, &FCC_AC_3) {
        10
    } else if fourcc_eq(t, &FCC_EC_3) {
        11
    } else if fourcc_eq(t, &FCC_OPUS) {
        12
    } else if fourcc_eq(t, &FCC_FLAC) {
        13
    } else if fourcc_eq(t, &FCC_AC_4) {
        14
    } else if fourcc_eq(t, &FCC_MHA1) || fourcc_eq(t, &FCC_MHA2) || fourcc_eq(t, &FCC_MHM1) || fourcc_eq(t, &FCC_MHM2) {
        15
    } else if fourcc_eq(t, &FCC_DTSC) || fourcc_eq(t, &FCC_DTSH) || fourcc_eq(t, &FCC_DTSL) || fourcc_eq(t, &FCC_DTSE) || fourcc_eq(t, &FCC_DTSX) {
        16
    } else if fourcc_eq(t, &FCC_STPP) {
        20
    } else if fourcc_eq(t, &FCC_WVTT) {
        21
    } else {
        0
    }
}

fn config_type_of(k: u8) -> (r: [u8; 4])
    ensures
        r == config_type(k),
{
    if k == 1 {
        FCC_AVCC
    } else if k == 2 {
        FCC_HVCC
    } else if k == 3 {
        FCC_VVCC
    } else if k == 4 {
        FCC_AV1C
    } else if k == 5 {
        FCC_VPCC
    } else if k == 6 {
        FCC_ESDS
    } else if k == 10 {
        FCC_DAC3
    } else if k == 11 {
        FCC_DEC3
    } else if k == 12 {
        FCC_DOPS
    } else if k == 13 {
        FCC_DFLA
    } else if k == 14 {
        FCC_DAC4
    } else if k == 15 {
        FCC_MHAC
    } else {
        FCC_DDTS
    }
}

/// The `esds` of a configuration box body: its ES_Descriptor, or why it
/// is refused (a descriptor whose declared size runs past the box is
/// refused up front).
pub open spec fn esds_from(body: Seq<u8>) -> Result<EsView, Error> {
    if !esds_body_in_bounds(body) {
        Err(Error::InvalidInput("esds ES_Descriptor size runs past the box"))
    } else {
        spec_parse_esds_body(body)
    }
}

fn parse_esds_config(body: &[u8]) -> (r: Result<EsdsBox, Error>)
    ensures
        match esds_from(body@) {
            Ok(v) => r matches Ok(x) && x.es_descriptor@ == v,
            Err(e) => r matches Err(x) && x == e,
        },
{
    let n = body.len();
    if n >= 5 && body[4] == TAG_ES_DESCRIPTOR {
        let payload = &body[4..n];
        assert(payload@ =~= body@.skip(4));
        let mut c: usize = 1;
        proof {
            crate::mp4esds::lemma_varint_consumed(payload@, 1, 0, 0);
        }
        match crate::mp4esds::parse_varint(payload, &mut c) {
            Ok((size, k)) => {
                if size > n - 4 || k > n - 4 - size || 1 + k + size > n - 4 {
                    return Err(Error::InvalidInput("esds ES_Descriptor size runs past the box"));
                }
            },
            Err(_) => {},
        }
    }
    EsdsBox::parse_body(body)
}

/// The `objectTypeIndication` of an ES_Descriptor's decoder configuration.
pub open spec fn es_oti(es: EsView) -> Option<u8> {
    match es.8 {
        Some(dc) => Some(dc.0),
        None => None,
    }
}

/// `r` is what an `mp4a` entry `m` gives: its `esds` (MPEG-1/2 audio for
/// objectTypeIndication 0x6B/0x69, provisionally Layer II; AAC otherwise),
/// the channel count, the integer part of the 16.16 rate and the sample
/// size.
pub open spec fn mp4a_config_ok(m: Mp4aView, r: Result<CodecConfig, Error>) -> bool {
    match first_config(m.4, FCC_ESDS@) {
        None => r == Err::<CodecConfig, Error>(Error::UnexpectedBox { expected: "config box in audio sample entry" }),
        Some(body) => match esds_from(body) {
            Err(e) => r == Err::<CodecConfig, Error>(e),
            Ok(es) => if es_oti(es) == Some(0x69u8) || es_oti(es) == Some(0x6Bu8) {
                r matches Ok(CodecConfig::MpegAudio { esds, layer, channel_count, sample_rate, sample_size })
                    && esds.es_descriptor@ == es && layer == MpegAudioLayer::LayerII && channel_count == m.1
                    && sample_rate == m.3 >> 16u32 && sample_size == m.2
            } else {
                r matches Ok(CodecConfig::Aac { esds, channel_count, sample_rate, sample_size })
                    && esds.es_descriptor@ == es && channel_count == m.1 && sample_rate == m.3 >> 16u32
                    && sample_size == m.2
            },
        },
    }
}

/// `c` is the video configuration of codec `k` with configuration box
/// `cfg` and coded size `w` x `h`.
pub open spec fn video_cfg_ok(c: CodecConfig, k: u8, cfg: (Seq<u8>, Seq<u8>), w: u16, h: u16) -> bool {
    match c {
        CodecConfig::Avc { config, width, height } => k == 1 && config@ == cfg && width == w && height == h,
        CodecConfig::Hevc { config, width, height } => k == 2 && config@ == cfg && width == w && height == h,
        CodecConfig::Vvc { config, width, height } => k == 3 && config@ == cfg && width == w && height == h,
        CodecConfig::Av1 { config, width, height } => k == 4 && config@ == cfg && width == w && height == h,
        CodecConfig::Vp9 { config, width, height } => k == 5 && config@ == cfg && width == w && height == h,
        _ => false,
    }
}

/// `c` is the audio configuration of codec `k` (entry type `t`) with
/// configuration box `cfg`, channel count `cc`, rate `sr` and sample size
/// `ss`.
pub open spec fn audio_cfg_ok(c: CodecConfig, k: u8, t: Seq<u8>, cfg: (Seq<u8>, Seq<u8>), cc: u16, sr: u32, ss: u16) -> bool {
    match c {
        CodecConfig::Ac3 { config, channel_count, sample_rate, sample_size } => k == 10 && config@ == cfg
            && channel_count == cc && sample_rate == sr && sample_size == ss,
        CodecConfig::Eac3 { config, channel_count, sample_rate, sample_size } => k == 11 && config@ == cfg
            && channel_count == cc && sample_rate == sr && sample_size == ss,
        CodecConfig::Flac { config, channel_count, sample_rate, sample_size } => k == 13 && config@ == cfg
            && channel_count == cc && sample_rate == sr && sample_size == ss,
        CodecConfig::Ac4 { config, channel_count, sample_rate, sample_size } => k == 14 && config@ == cfg
            && channel_count == cc && sample_rate == sr && sample_size == ss,
        CodecConfig::Dts { config, codec_fourcc, channel_count, sample_rate, sample_size } => k == 16
            && config@ == cfg && codec_fourcc@ == t && channel_count == cc && sample_rate == sr && sample_size == ss,
        _ => false,
    }
}

/// `r` is what an entry of type `t` with body `b` (not `mp4a`) gives:
/// video entries read the coded size and their configuration box after the
/// visual fields, audio entries their channel count, rate and sample size
/// and their configuration box after the audio fields; `stpp`/`wvtt` give
/// a subtitle format; any other type is refused, naming it.
pub open spec fn entry_body_config_ok(t: Seq<u8>, b: Seq<u8>, r: Result<CodecConfig, Error>) -> bool {
    let k = entry_codec(t);
    if 1 <= k <= 6 {
        if b.len() < 78 {
            r == Err::<CodecConfig, Error>(Error::BufferTooShort { need: 78, have: b.len() as usize, what: "visual sample entry" })
        } else {
            match find_child(b, 78, config_type(k)@) {
                None => r == Err::<CodecConfig, Error>(Error::UnexpectedBox { expected: "config box in video sample entry" }),
                Some((s, e)) => {
                    let cb = b.subrange(s, e);
                    if k == 6 {
                        match esds_from(cb) {
                            Err(x) => r == Err::<CodecConfig, Error>(x),
                            Ok(es) => r matches Ok(CodecConfig::Mpeg2Video { esds, width, height })
                                && esds.es_descriptor@ == es && width == get16(b, 24) && height == get16(b, 26),
                        }
                    } else {
                        r matches Ok(c) && video_cfg_ok(c, k, (config_type(k)@, cb), get16(b, 24), get16(b, 26))
                    }
                },
            }
        }
    } else if 10 <= k <= 16 {
        if b.len() < 28 {
            r == Err::<CodecConfig, Error>(Error::BufferTooShort { need: 28, have: b.len() as usize, what: "audio sample entry" })
        } else {
            match find_child(b, 28, config_type(k)@) {
                None => r == Err::<CodecConfig, Error>(Error::UnexpectedBox { expected: "config box in audio sample entry" }),
                Some((s, e)) => {
                    let cb = b.subrange(s, e);
                    let cc = get16(b, 16);
                    let ss = get16(b, 18);
                    let sr = get32(b, 24) >> 16u32;
                    if k == 12 {
                        match crate::opus::spec_parse_dops(cb) {
                            Err(x) => r == Err::<CodecConfig, Error>(x),
                            Ok(v) => r matches Ok(CodecConfig::Opus { config, channel_count, sample_rate, sample_size })
                                && config@ == v && channel_count == cc && sample_rate == sr && sample_size == ss,
                        }
                    } else if k == 15 {
                        match crate::mpegh::spec_parse_mhac(cb) {
                            Err(x) => r == Err::<CodecConfig, Error>(x),
                            Ok((v, p, l, c)) => r matches Ok(CodecConfig::MpegH { config, channel_count, sample_rate, sample_size })
                                && config.configuration_version == v && config.mpegh3da_profile_level_indication == p
                                && config.reference_channel_layout == l && config.mpegh3da_config@ == c
                                && channel_count == cc && sample_rate == sr && sample_size == ss,
                        }
                    } else {
                        r matches Ok(c) && audio_cfg_ok(c, k, t, (config_type(k)@, cb), cc, sr, ss)
                    }
                },
            }
        }
    } else if k == 20 {
        r matches Ok(CodecConfig::Subtitle { format }) && format == SubtitleFormat::Ttml
    } else if k == 21 {
        r matches Ok(CodecConfig::Subtitle { format }) && format == SubtitleFormat::WebVtt
    } else {
        r matches Err(Error::UnsupportedSampleEntry { fourcc }) && fourcc@ == crate::mp4esds::utf8_lossy(t)
    }
}

/// `r` is the codec configuration recovered from sample entry `e`.
pub open spec fn entry_config_ok(e: EntryView, r: Result<CodecConfig, Error>) -> bool {
    match e {
        EntryView::Mp4a(m) => mp4a_config_ok(m, r),
        EntryView::Unknown((t, b)) => entry_body_config_ok(t, b, r),
    }
}

fn find_config(cfgs: &Vec<OpaqueBox>, t: &[u8; 4]) -> (r: Option<usize>)
    ensures
        match first_config(crate::init_segment::opaque_views(cfgs@), t@) {
            Some(body) => r matches Some(i) && i < cfgs@.len() && cfgs@[i as int].data@ == body,
            None => r is None,
        },
{
    let ghost vs = crate::init_segment::opaque_views(cfgs@);
    let mut i: usize = 0;
    assert(vs.skip(0) =~= vs);
    while i < cfgs.len()
        invariant
            i <= cfgs@.len(),
            vs == crate::init_segment::opaque_views(cfgs@),
            first_config(vs, t@) == first_config(vs.skip(i as int), t@),
        decreases cfgs@.len() - i,
    {
        assert(vs.skip(i as int)[0] == cfgs@[i as int]@);
        if fourcc_eq(&cfgs[i].box_type, t) {
            return Some(i);
        }
        assert(vs.skip(i as int).skip(1) =~= vs.skip(i + 1));
        i += 1;
    }
    None
}

/// Recovers a track's codec configuration from its `stsd` sample entry:
/// video entries give the coded size and their configuration record, audio
/// entries their channel count, rate and sample size and their
/// configuration (an `mp4a` becomes AAC, or MPEG-1/2 audio by its
/// objectTypeIndication), `stpp`/`wvtt` give a subtitle format, and any
/// other entry type is refused, naming its four-character code.
pub fn codec_config_from_entry(entry: &SampleEntryVariant) -> (r: Result<CodecConfig, Error>)
    ensures
        entry_config_ok(entry@, r),
{
    match entry {
        SampleEntryVariant::Mp4a(m) => {
            let i = match find_config(&m.config_boxes, &FCC_ESDS) {
                Some(i) => i,
                None => {
                    return Err(Error::UnexpectedBox { expected: "config box in audio sample entry" });
                },
            };
            let esds = match parse_esds_config(m.config_boxes[i].data.as_slice()) {
                Ok(e) => e,
                Err(e) => {
                    return Err(e);
                },
            };
            let oti: Option<u8> = match &esds.es_descriptor.decoder_config {
                Some(dc) => Some(dc.object_type_indication.0),
                None => None,
            };
            let legacy = match oti {
                Some(o) => o == 0x69 || o == 0x6B,
                None => false,
            };
            if legacy {
                Ok(CodecConfig::MpegAudio {
                    esds,
                    layer: MpegAudioLayer::LayerII,
                    channel_count: m.channelcount,
                    sample_rate: m.samplerate >> 16u32,
                    sample_size: m.samplesize,
                })
            } else {
                Ok(CodecConfig::Aac {
                    esds,
                    channel_count: m.channelcount,
                    sample_rate: m.samplerate >> 16u32,
                    sample_size: m.samplesize,
                })
            }
        },
        SampleEntryVariant::Unknown(o) => {
            let k = entry_codec_of(&o.box_type);
            let b = o.data.as_slice();
            let n = b.len();
            if 1 <= k && k <= 6 {
                if n < VISUAL_FIELDS_LEN {
                    return Err(Error::BufferTooShort { need: 78, have: n, what: "visual sample entry" });
                }
                let ct = config_type_of(k);
                let (s, e) = match find_child_box(b, VISUAL_FIELDS_LEN, &ct) {
                    Some(x) => x,
                    None => {
                        return Err(Error::UnexpectedBox { expected: "config box in video sample entry" });
                    },
                };
                let width = read16(b, 24);
                let height = read16(b, 26);
                if k == 6 {
                    let esds = match parse_esds_config(&b[s..e]) {
                        Ok(x) => x,
                        Err(x) => {
                            return Err(x);
                        },
                    };
                    return Ok(CodecConfig::Mpeg2Video { esds, width, height });
                }
                let config = OpaqueBox::new(ct, copy_range(b, s, e));
                if k == 1 {
                    Ok(CodecConfig::Avc { config, width, height })
                } else if k == 2 {
                    Ok(CodecConfig::Hevc { config, width, height })
                } else if k == 3 {
                    Ok(CodecConfig::Vvc { config, width, height })
                } else if k == 4 {
                    Ok(CodecConfig::Av1 { config, width, height })
                } else {
                    Ok(CodecConfig::Vp9 { config, width, height })
                }
            } else if 10 <= k && k <= 16 {
                if n < AUDIO_FIELDS_LEN {
                    return Err(Error::BufferTooShort { need: 28, have: n, what: "audio sample entry" });
                }
                let ct = config_type_of(k);
                let (s, e) = match find_child_box(b, AUDIO_FIELDS_LEN, &ct) {
                    Some(x) => x,
                    None => {
                        return Err(Error::UnexpectedBox { expected: "config box in audio sample entry" });
                    },
                };
                let cc = read16(b, 16);
                let ss = read16(b, 18);
                let sr = read32(b, 24) >> 16u32;
                if k == 12 {
                    let config = match OpusSpecificBox::parse(&b[s..e]) {
                        Ok(x) => x,
                        Err(x) => {
                            return Err(x);
                        },
                    };
                    return Ok(CodecConfig::Opus { config, channel_count: cc, sample_rate: sr, sample_size: ss });
                }
                if k == 15 {
                    let config = match MHADecoderConfigurationRecord::parse(&b[s..e]) {
                        Ok(x) => x,
                        Err(x) => {
                            return Err(x);
                        },
                    };
                    return Ok(CodecConfig::MpegH { config, channel_count: cc, sample_rate: sr, sample_size: ss });
                }
                let config = OpaqueBox::new(ct, copy_range(b, s, e));
                if k == 10 {
                    Ok(CodecConfig::Ac3 { config, channel_count: cc, sample_rate: sr, sample_size: ss })
                } else if k == 11 {
                    Ok(CodecConfig::Eac3 { config, channel_count: cc, sample_rate: sr, sample_size: ss })
                } else if k == 13 {
                    Ok(CodecConfig::Flac { config, channel_count: cc, sample_rate: sr, sample_size: ss })
                } else if k == 14 {
                    Ok(CodecConfig::Ac4 { config, channel_count: cc, sample_rate: sr, sample_size: ss })
                } else {
                    Ok(CodecConfig::Dts { config, codec_fourcc: o.box_type, channel_count: cc, sample_rate: sr, sample_size: ss })
                }
            } else if k == 20 {
                Ok(CodecConfig::Subtitle { format: SubtitleFormat::Ttml })
            } else if k == 21 {
                Ok(CodecConfig::Subtitle { format: SubtitleFormat::WebVtt })
            } else {
                Err(Error::UnsupportedSampleEntry { fourcc: crate::mp4esds::string_from_utf8_lossy(o.box_type.as_slice()) })
            }
        },
    }
}

// ---------------------------------------------------------------------------
// trak → TrackSpec
// ---------------------------------------------------------------------------

/// The first `stsd` among the children of an `stbl`.
pub open spec fn first_stsd(cs: Seq<StblChildView>) -> Option<StsdView>
    decreases cs.len(),
{
    if cs.len() == 0 {
        None
    } else {
        match cs[0] {
            StblChildView::Stsd(sd) => Some(sd),
            _ => first_stsd(cs.skip(1)),
        }
    }
}

/// What a `trak` supplies for its track: `(track ID, media timescale,
/// first sample entry)`, or the missing box that stops it.
pub open spec fn trak_outcome(t: TrakView) -> Result<(u32, u32, EntryView), Error> {
    match t.2 {
        None => Err(Error::UnexpectedBox { expected: "mdia" }),
        Some(md) => match md.0 {
            None => Err(Error::UnexpectedBox { expected: "mdhd" }),
            Some(mh) => match md.2 {
                None => Err(Error::UnexpectedBox { expected: "minf" }),
                Some(mi) => match mi.3 {
                    None => Err(Error::UnexpectedBox { expected: "stbl" }),
                    Some(cs) => match first_stsd(cs) {
                        None => Err(Error::UnexpectedBox { expected: "stsd" }),
                        Some(sd) => if sd.2.len() == 0 {
                            Err(Error::UnexpectedBox { expected: "stsd entry" })
                        } else {
                            Ok((t.0.4, mh.timescale, sd.2[0]))
                        },
                    },
                },
            },
        },
    }
}

/// `r` is the track spec rebuilt from a `trak`: its ID, media timescale and
/// the configuration of its first sample entry, with no TS provenance.
pub open spec fn trak_spec_ok(t: TrakView, r: Result<TrackSpec, Error>) -> bool {
    match trak_outcome(t) {
        Err(e) => r == Err::<TrackSpec, Error>(e),
        Ok((id, ts, e)) => match r {
            Ok(s) => s.track_id == id && s.timescale == ts && s.source_pid is None
                && s.es_info_descriptors@.len() == 0 && entry_config_ok(e, Ok(s.config)),
            Err(x) => entry_config_ok(e, Err(x)),
        },
    }
}

fn find_stsd(cs: &Vec<StblChild>) -> (r: Option<usize>)
    ensures
        match first_stsd(cs@.map_values(|c: StblChild| c@)) {
            Some(sd) => r matches Some(i) && i < cs@.len() && (cs@[i as int] matches StblChild::Stsd(x) && x@ == sd),
            None => r is None,
        },
{
    let ghost vs = cs@.map_values(|c: StblChild| c@);
    let mut i: usize = 0;
    assert(vs.skip(0) =~= vs);
    while i < cs.len()
        invariant
            i <= cs@.len(),
            vs == cs@.map_values(|c: StblChild| c@),
            first_stsd(vs) == first_stsd(vs.skip(i as int)),
        decreases cs@.len() - i,
    {
        assert(vs.skip(i as int)[0] == cs@[i as int]@);
        match &cs[i] {
            StblChild::Stsd(_) => {
                return Some(i);
            },
            _ => {},
        }
        assert(vs.skip(i as int).skip(1) =~= vs.skip(i + 1));
        i += 1;
    }
    None
}

/// Rebuilds a track spec from a parsed `trak`: its ID, the `mdhd`
/// timescale, and the codec configuration of the first `stsd` entry.
pub fn track_spec_from_trak(trak: &TrackBox) -> (r: Result<TrackSpec, Error>)
    ensures
        trak_spec_ok(trak@, r),
{
    let mdia = match &trak.mdia {
        Some(m) => m,
        None => {
            return Err(Error::UnexpectedBox { expected: "mdia" });
        },
    };
    let mdhd = match &mdia.mdhd {
        Some(m) => m,
        None => {
            return Err(Error::UnexpectedBox { expected: "mdhd" });
        },
    };
    let minf = match &mdia.minf {
        Some(m) => m,
        None => {
            return Err(Error::UnexpectedBox { expected: "minf" });
        },
    };
    let stbl = match &minf.stbl {
        Some(s) => s,
        None => {
            return Err(Error::UnexpectedBox { expected: "stbl" });
        },
    };
    let i = match find_stsd(&stbl.children) {
        Some(i) => i,
        None => {
            return Err(Error::UnexpectedBox { expected: "stsd" });
        },
    };
    match &stbl.children[i] {
        StblChild::Stsd(sd) => {
            if sd.entries.len() == 0 {
                return Err(Error::UnexpectedBox { expected: "stsd entry" });
            }
            assert(sd@.2[0] == sd.entries@[0]@);
            let config = match codec_config_from_entry(&sd.entries[0]) {
                Ok(c) => c,
                Err(e) => {
                    return Err(e);
                },
            };
            Ok(TrackSpec::new(trak.tkhd.track_id, mdhd.timescale, config))
        },
        _ => Err(Error::UnexpectedBox { expected: "stsd" }),
    }
}

// ---------------------------------------------------------------------------
// Fragment absorption
// ---------------------------------------------------------------------------

/// A sample as plain values: bytes, dts, pts, duration, sync flag, source
/// timing.
pub type SampleV = (Seq<u8>, Option<i64>, Option<i64>, Option<u32>, bool, Option<SourceTiming>);

/// The plain values of a sample.
pub open spec fn sample_v(s: Sample) -> SampleV {
    (s.data@, s.dts, s.pts, s.duration, s.is_sync, s.source_timing)
}

/// The plain values of a list of samples.
pub open spec fn samples_v(v: Seq<Sample>) -> Seq<SampleV> {
    v.map_values(|s: Sample| sample_v(s))
}

/// The samples of trun records `k..` appended to `acc`: each record's size
/// (else the `tfhd` default; a record with neither is refused), duration
/// (else the default, else 0) and flags (else `first` for the first
/// record, else the default, else 0; sync when the non-sync bit 16 is
/// clear) and composition offset; its bytes read at `cursor` in `file`, its
/// dts the running decode time `next`, its pts `next` plus the offset.
pub open spec fn run_fold(
    file: Seq<u8>,
    h: TrackFragmentHeaderBox,
    first: Option<u32>,
    ss: Seq<TrunSample>,
    k: nat,
    cursor: int,
    next: i64,
    acc: Seq<SampleV>,
) -> Result<(Seq<SampleV>, i64), Error>
    decreases ss.len() - k,
{
    if k >= ss.len() {
        Ok((acc, next))
    } else {
        let t = ss[k as int];
        let size_o = if t.sample_size is Some { t.sample_size } else { h.default_sample_size };
        match size_o {
            None => Err(Error::InvalidInput("trun sample has no size (no trun.sample_size, no tfhd default_sample_size)")),
            Some(size) => {
                let dur: u32 = match t.sample_duration {
                    Some(d) => d,
                    None => match h.default_sample_duration {
                        Some(d) => d,
                        None => 0,
                    },
                };
                let fl: u32 = match t.sample_flags {
                    Some(f) => f,
                    None => match (if k == 0 { first } else { None }) {
                        Some(f) => f,
                        None => match h.default_sample_flags {
                            Some(f) => f,
                            None => 0,
                        },
                    },
                };
                let cto: int = match t.sample_composition_time_offset {
                    Some(c) => c as int,
                    None => 0,
                };
                if cursor < 0 {
                    Err(Error::InvalidInput("negative sample data offset"))
                } else if cursor + size > file.len() {
                    Err(Error::BufferTooShort { need: sat(cursor + size), have: file.len() as usize, what: "fragment sample data" })
                } else {
                    run_fold(
                        file,
                        h,
                        first,
                        ss,
                        k + 1,
                        cursor + size,
                        (next + dur) as i64,
                        acc.push((file.subrange(cursor, cursor + size), Some(next), Some((next + cto) as i64), Some(dur), (fl / 0x10000) % 2 == 0, None)),
                    )
                }
            },
        }
    }
}

/// Whether flags mark a sync sample: `sample_is_non_sync_sample` (bit 16,
/// ISO/IEC 14496-12 §8.8.3.1) clear.
pub open spec fn sync_by_flags(f: u32) -> bool {
    f & 0x0001_0000 == 0
}

proof fn lemma_sync_bit(f: u32)
    ensures
        ((f / 0x10000) % 2 == 0) == sync_by_flags(f),
{
    assert(((f / 0x10000) % 2 == 0) == (f & 0x0001_0000 == 0)) by (bit_vector);
}

proof fn lemma_run_fold_sync(
    file: Seq<u8>,
    h: TrackFragmentHeaderBox,
    first: Option<u32>,
    ss: Seq<TrunSample>,
    k: nat,
    cursor: int,
    next: i64,
    acc: Seq<SampleV>,
)
    requires
        k <= ss.len(),
    ensures
        run_fold(file, h, first, ss, k, cursor, next, acc) matches Ok((out, n2)) ==> {
            &&& out.len() == acc.len() + ss.len() - k
            &&& out.take(acc.len() as int) == acc
            &&& forall|j: int| k <= j < ss.len() ==> {
                let sync = (#[trigger] out[acc.len() + j - k]).4;
                &&& (ss[j].sample_flags is Some ==> sync == sync_by_flags(ss[j].sample_flags->0))
                &&& (ss[j].sample_flags is None && j == 0 && first is Some ==> sync == sync_by_flags(first->0))
                &&& (ss[j].sample_flags is None && (j != 0 || first is None) ==> sync == (h.default_sample_flags is None
                    || sync_by_flags(h.default_sample_flags->0)))
            }
        },
    decreases ss.len() - k,
{
    if k < ss.len() {
        let t = ss[k as int];
        let size_o = if t.sample_size is Some { t.sample_size } else { h.default_sample_size };
        if size_o is Some && cursor >= 0 && cursor + size_o->0 <= file.len() {
            let size = size_o->0;
            let dur: u32 = match t.sample_duration {
                Some(d) => d,
                None => match h.default_sample_duration {
                    Some(d) => d,
                    None => 0,
                },
            };
            let fl: u32 = match t.sample_flags {
                Some(f) => f,
                None => match (if k == 0 { first } else { None }) {
                    Some(f) => f,
                    None => match h.default_sample_flags {
                        Some(f) => f,
                        None => 0,
                    },
                },
            };
            let cto: int = match t.sample_composition_time_offset {
                Some(c) => c as int,
                None => 0,
            };
            let item = (file.subrange(cursor, cursor + size), Some(next), Some((next + cto) as i64), Some(dur), (fl / 0x10000) % 2 == 0, None::<SourceTiming>);
            let acc2 = acc.push(item);
            assert(run_fold(file, h, first, ss, k, cursor, next, acc) == run_fold(file, h, first, ss, k + 1, cursor + size, (next + dur) as i64, acc2));
            lemma_run_fold_sync(file, h, first, ss, k + 1, cursor + size, (next + dur) as i64, acc2);
            lemma_sync_bit(fl);
            lemma_sync_bit(0);
            match run_fold(file, h, first, ss, k, cursor, next, acc) {
                Ok((out, n2)) => {
                    assert(out.take(acc2.len() as int) == acc2);
                    assert(out[acc.len() as int] == out.take(acc2.len() as int)[acc.len() as int]);
                    assert(out[acc.len() as int] == item);
                    assert(out.take(acc.len() as int) =~= acc2.take(acc.len() as int));
                    assert(acc2.take(acc.len() as int) =~= acc);
                    assert forall|j: int| k <= j < ss.len() implies {
                        let sync = (#[trigger] out[acc.len() + j - k]).4;
                        &&& (ss[j].sample_flags is Some ==> sync == sync_by_flags(ss[j].sample_flags->0))
                        &&& (ss[j].sample_flags is None && j == 0 && first is Some ==> sync == sync_by_flags(first->0))
                        &&& (ss[j].sample_flags is None && (j != 0 || first is None) ==> sync == (h.default_sample_flags is None
                            || sync_by_flags(h.default_sample_flags->0)))
                    } by {
                        if j == k {
                            assert(acc.len() + j - k == acc.len());
                        } else {
                            assert(acc2.len() + j - (k + 1) == acc.len() + j - k);
                        }
                    }
                },
                Err(_) => {},
            }
        }
    } else {
        assert(acc.take(acc.len() as int) =~= acc);
    }
}

/// The sync flag of each sample demuxed from a `trun` comes from the
/// sample's own flags; failing those, for the run's first sample (index 0)
/// and no other, from the run's `first_sample_flags`; failing those, from
/// the `tfhd` default flags; and with no flags at all the sample is sync. A
/// sample is sync when its flags' `sample_is_non_sync_sample` bit is clear.
pub proof fn lemma_run_sync_flags(
    file: Seq<u8>,
    h: TrackFragmentHeaderBox,
    first: Option<u32>,
    ss: Seq<TrunSample>,
    cursor: int,
    next: i64,
    acc: Seq<SampleV>,
)
    ensures
        run_fold(file, h, first, ss, 0, cursor, next, acc) matches Ok((out, n2)) ==> {
            &&& out.len() == acc.len() + ss.len()
            &&& forall|j: int| 0 <= j < ss.len() ==> {
                let sync = (#[trigger] out[acc.len() + j]).4;
                &&& (ss[j].sample_flags is Some ==> sync == sync_by_flags(ss[j].sample_flags->0))
                &&& (ss[j].sample_flags is None && j == 0 && first is Some ==> sync == sync_by_flags(first->0))
                &&& (ss[j].sample_flags is None && (j != 0 || first is None) ==> sync == (h.default_sample_flags is None
                    || sync_by_flags(h.default_sample_flags->0)))
            }
        },
{
    lemma_run_fold_sync(file, h, first, ss, 0, cursor, next, acc);
    match run_fold(file, h, first, ss, 0, cursor, next, acc) {
        Ok((out, n2)) => {
            assert forall|j: int| 0 <= j < ss.len() implies {
                let sync = (#[trigger] out[acc.len() + j]).4;
                &&& (ss[j].sample_flags is Some ==> sync == sync_by_flags(ss[j].sample_flags->0))
                &&& (ss[j].sample_flags is None && j == 0 && first is Some ==> sync == sync_by_flags(first->0))
                &&& (ss[j].sample_flags is None && (j != 0 || first is None) ==> sync == (h.default_sample_flags is None
                    || sync_by_flags(h.default_sample_flags->0)))
            } by {
                assert(acc.len() + j - 0 == acc.len() + j);
            }
        },
        Err(_) => {},
    }
}

/// The samples of runs `j..` of a track fragment, each run's bytes starting
/// at the `moof` offset plus its data offset.
pub open spec fn runs_fold(
    file: Seq<u8>,
    h: TrackFragmentHeaderBox,
    runs: Seq<TrunView>,
    j: nat,
    moof_off: int,
    next: i64,
    acc: Seq<SampleV>,
) -> Result<(Seq<SampleV>, i64), Error>
    decreases runs.len() - j,
{
    if j >= runs.len() {
        Ok((acc, next))
    } else {
        let r = runs[j as int];
        let base = moof_off + match r.2 {
            Some(d) => d as int,
            None => 0,
        };
        match run_fold(file, h, r.3, r.4, 0, base, next, acc) {
            Err(e) => Err(e),
            Ok((a2, n2)) => runs_fold(file, h, runs, j + 1, moof_off, n2, a2),
        }
    }
}

/// A track being demuxed: its ID, samples so far, start time (the first
/// `tfdt` seen) and the running decode time of its next sample.
pub type BuilderV = (u32, Seq<SampleV>, Option<u64>, i64);

/// The first builder from `i` whose track ID is `id`.
pub open spec fn find_builder(bs: Seq<BuilderV>, id: u32, i: nat) -> Option<nat>
    decreases bs.len() - i,
{
    if i >= bs.len() {
        None
    } else if bs[i as int].0 == id {
        Some(i)
    } else {
        find_builder(bs, id, i + 1)
    }
}

/// The builders after one track fragment: a fragment of an unknown track
/// is ignored; a `tfdt` re-seeds the running decode time (and sets the
/// start time the first time), then every run's samples are appended.
pub open spec fn traf_step(file: Seq<u8>, moof_off: int, t: TrafView, bs: Seq<BuilderV>) -> Result<Seq<BuilderV>, Error> {
    match find_builder(bs, t.0.track_id, 0) {
        None => Ok(bs),
        Some(i) => {
            let b = bs[i as int];
            let st = match t.1 {
                Some(td) => if b.2 is None { Some(td.1) } else { b.2 },
                None => b.2,
            };
            let nx = match t.1 {
                Some(td) => td.1 as i64,
                None => b.3,
            };
            match runs_fold(file, t.0, t.2, 0, moof_off, nx, b.1) {
                Err(e) => Err(e),
                Ok((smp, n2)) => Ok(bs.update(i as int, (b.0, smp, st, n2))),
            }
        },
    }
}

/// The builders after track fragments `j..` of one `moof`.
pub open spec fn trafs_fold(file: Seq<u8>, moof_off: int, ts: Seq<TrafView>, j: nat, bs: Seq<BuilderV>) -> Result<Seq<BuilderV>, Error>
    decreases ts.len() - j,
{
    if j >= ts.len() {
        Ok(bs)
    } else {
        match traf_step(file, moof_off, ts[j as int], bs) {
            Err(e) => Err(e),
            Ok(b2) => trafs_fold(file, moof_off, ts, j + 1, b2),
        }
    }
}

/// A track under construction.
pub struct TrackBuilder {
    /// The rebuilt track spec.
    pub spec: TrackSpec,
    /// The samples gathered so far.
    pub samples: Vec<Sample>,
    /// The first `tfdt` seen for this track.
    pub start_decode_time: Option<u64>,
    /// The decode time of the next sample.
    pub next_dts: i64,
}

/// The plain values of a list of builders.
pub open spec fn builders_v(v: Seq<TrackBuilder>) -> Seq<BuilderV> {
    v.map_values(|b: TrackBuilder| (b.spec.track_id, samples_v(b.samples@), b.start_decode_time, b.next_dts))
}

proof fn lemma_find_builder_bound(bs: Seq<BuilderV>, id: u32, i: nat)
    ensures
        find_builder(bs, id, i) matches Some(x) ==> i <= x < bs.len(),
    decreases bs.len() - i,
{
    if i < bs.len() && bs[i as int].0 != id {
        lemma_find_builder_bound(bs, id, i + 1);
    }
}

fn find_builder_index(bs: &Vec<TrackBuilder>, id: u32) -> (r: Option<usize>)
    ensures
        match find_builder(builders_v(bs@), id, 0) {
            Some(i) => r matches Some(x) && x == i && i < bs@.len(),
            None => r is None,
        },
{
    let mut i: usize = 0;
    while i < bs.len()
        invariant
            i <= bs@.len(),
            find_builder(builders_v(bs@), id, 0) == find_builder(builders_v(bs@), id, i as nat),
        decreases bs@.len() - i,
    {
        if bs[i].spec.track_id == id {
            proof { lemma_find_builder_bound(builders_v(bs@), id, 0); }
            return Some(i);
        }
        i += 1;
    }
    None
}

/// Appends the samples of one trun to `samples`.
fn absorb_run(
    file: &[u8],
    h: &TrackFragmentHeaderBox,
    run: &TrackFragmentRunBox,
    base: i128,
    next: &mut i64,
    samples: &mut Vec<Sample>,
) -> (r: Result<(), Error>)
    requires
        -0x2_0000_0000_0000_0000 <= base <= 0x2_0000_0000_0000_0000,
    ensures
        match run_fold(file@, *h, run.first_sample_flags, run.samples@, 0, base as int, *old(next), samples_v(old(samples)@)) {
            Ok((acc, n2)) => r is Ok && samples_v(final(samples)@) == acc && *final(next) == n2,
            Err(e) => r matches Err(x) && x == e,
        },
{
    let ghost s0 = samples_v(samples@);
    let ghost n0 = *next;
    let n = file.len();
    let mut cursor: i128 = base;
    let mut k: usize = 0;
    while k < run.samples.len()
        invariant
            k <= run.samples@.len(),
            -0x2_0000_0000_0000_0000 <= cursor <= 0x2_0000_0000_0000_0000 + file@.len(),
            file@.len() == n,
            n0 == *old(next),
            s0 == samples_v(old(samples)@),
            run_fold(file@, *h, run.first_sample_flags, run.samples@, 0, base as int, n0, s0)
                == run_fold(file@, *h, run.first_sample_flags, run.samples@, k as nat, cursor as int, *next, samples_v(samples@)),
        decreases run.samples@.len() - k,
    {
        let t = run.samples[k];
        let size_o = if t.sample_size.is_some() { t.sample_size } else { h.default_sample_size };
        assert(t == run.samples@[k as int]);
        let size = match size_o {
            Some(x) => x,
            None => {
                let e = Error::InvalidInput("trun sample has no size (no trun.sample_size, no tfhd default_sample_size)");
                assert(run_fold(file@, *h, run.first_sample_flags, run.samples@, k as nat, cursor as int, *next, samples_v(samples@)) == Err::<(Seq<SampleV>, i64), Error>(e));
                return Err(e);
            },
        };
        let dur: u32 = match t.sample_duration {
            Some(d) => d,
            None => match h.default_sample_duration {
                Some(d) => d,
                None => 0,
            },
        };
        let first = if k == 0 { run.first_sample_flags } else { None };
        let fl: u32 = match t.sample_flags {
            Some(f) => f,
            None => match first {
                Some(f) => f,
                None => match h.default_sample_flags {
                    Some(f) => f,
                    None => 0,
                },
            },
        };
        let cto: i128 = match t.sample_composition_time_offset {
            Some(c) => c as i128,
            None => 0,
        };
        if cursor < 0 {
            let e = Error::InvalidInput("negative sample data offset");
            assert(run_fold(file@, *h, run.first_sample_flags, run.samples@, k as nat, cursor as int, *next, samples_v(samples@)) == Err::<(Seq<SampleV>, i64), Error>(e));
            return Err(e);
        }
        if cursor + (size as i128) > n as i128 {
            let need = if cursor + (size as i128) <= usize::MAX as i128 { (cursor + (size as i128)) as usize } else { usize::MAX };
            return Err(Error::BufferTooShort { need, have: n, what: "fragment sample data" });
        }
        let start = cursor as usize;
        let end = start + size as usize;
        let data = copy_range(file, start, end);
        let dts = *next;
        let pts = ((dts as i128) + cto) as i64;
        let ghost before = samples_v(samples@);
        samples.push(Sample::new(data, Some(dts), Some(pts), Some(dur), (fl / 0x10000) % 2 == 0));
        assert(samples_v(samples@) =~= before.push((file@.subrange(start as int, end as int), Some(dts), Some(pts), Some(dur), (fl / 0x10000) % 2 == 0, None)));
        *next = ((dts as i128) + (dur as i128)) as i64;
        cursor = cursor + (size as i128);
        k += 1;
    }
    Ok(())
}

/// Resolves one movie fragment's samples into the builders: each track
/// fragment's runs read their bytes from `file` at the `moof` offset plus
/// the run's data offset (default-base-is-moof), and every `tfdt`
/// re-seeds its track's running decode time.
fn absorb_fragment(file: &[u8], moof_off: usize, moof: &MovieFragmentBox, builders: &mut Vec<TrackBuilder>) -> (r: Result<(), Error>)
    ensures
        match trafs_fold(file@, moof_off as int, moof@.1, 0, builders_v(old(builders)@)) {
            Ok(bs) => r is Ok && builders_v(final(builders)@) == bs,
            Err(e) => r matches Err(x) && x == e,
        },
        r is Ok ==> final(builders)@.len() == old(builders)@.len(),
        r is Ok ==> forall|i: int| 0 <= i < old(builders)@.len() ==> (#[trigger] final(builders)@[i]).spec == old(builders)@[i].spec,
{
    let ghost b0 = builders_v(builders@);
    let ghost ts = moof@.1;
    let mut j: usize = 0;
    while j < moof.traf.len()
        invariant
            j <= moof.traf@.len(),
            ts == moof@.1,
            ts.len() == moof.traf@.len(),
            b0 == builders_v(old(builders)@),
            trafs_fold(file@, moof_off as int, ts, 0, b0) == trafs_fold(file@, moof_off as int, ts, j as nat, builders_v(builders@)),
            builders@.len() == old(builders)@.len(),
            forall|i: int| 0 <= i < old(builders)@.len() ==> (#[trigger] builders@[i]).spec == old(builders)@[i].spec,
        decreases moof.traf@.len() - j,
    {
        let traf = &moof.traf[j];
        assert(ts[j as int] == traf@);
        let ghost bv = builders_v(builders@);
        match find_builder_index(builders, traf.tfhd.track_id) {
            None => {},
            Some(idx) => {
                let ghost bb = bv[idx as int];
                let mut samples: Vec<Sample> = Vec::new();
                std::mem::swap(&mut samples, &mut builders[idx].samples);
                let mut st = builders[idx].start_decode_time;
                let mut nx = builders[idx].next_dts;
                match &traf.tfdt {
                    Some(td) => {
                        let base = td.base_media_decode_time();
                        if st.is_none() {
                            st = Some(base);
                        }
                        nx = base as i64;
                    },
                    None => {},
                }
                let ghost nx0 = nx;
                let ghost sm0 = samples_v(samples@);
                assert(sm0 == bb.1);
                assert(find_builder(bv, traf.tfhd.track_id, 0) == Some(idx as nat));
                let mut q: usize = 0;
                while q < traf.trun.len()
                    invariant
                        q <= traf.trun@.len(),
                        traf@.2.len() == traf.trun@.len(),
                        j < ts.len(),
                        ts[j as int] == traf@,
                        idx < bv.len(),
                        bb == bv[idx as int],
                        find_builder(bv, traf.tfhd.track_id, 0) == Some(idx as nat),
                        nx0 == (match traf@.1 {
                            Some(td) => td.1 as i64,
                            None => bb.3,
                        }),
                        sm0 == bb.1,
                        b0 == builders_v(old(builders)@),
                        ts == moof@.1,
                        trafs_fold(file@, moof_off as int, ts, 0, b0) == trafs_fold(file@, moof_off as int, ts, j as nat, bv),
                        runs_fold(file@, traf.tfhd, traf@.2, 0, moof_off as int, nx0, sm0)
                            == runs_fold(file@, traf.tfhd, traf@.2, q as nat, moof_off as int, nx, samples_v(samples@)),
                    decreases traf.trun@.len() - q,
                {
                    let run = &traf.trun[q];
                    assert(traf@.2[q as int] == run@);
                    let base: i128 = moof_off as i128 + match run.data_offset {
                        Some(d) => d as i128,
                        None => 0,
                    };
                    match absorb_run(file, &traf.tfhd, run, base, &mut nx, &mut samples) {
                        Ok(()) => {},
                        Err(e) => {
                            proof {
                                lemma_trafs_err(file@, moof_off as int, ts, j as nat, bv, e);
                            }
                            return Err(e);
                        },
                    }
                    q += 1;
                }
                builders[idx].samples = samples;
                builders[idx].start_decode_time = st;
                builders[idx].next_dts = nx;
                proof {
                    assert(builders_v(builders@) =~= bv.update(idx as int, (bb.0, samples_v(samples@), st, nx)));
                }
            },
        }
        j += 1;
    }
    Ok(())
}

proof fn lemma_trafs_err(file: Seq<u8>, moof_off: int, ts: Seq<TrafView>, j: nat, bs: Seq<BuilderV>, e: Error)
    requires
        j < ts.len(),
        traf_step(file, moof_off, ts[j as int], bs) == Err::<Seq<BuilderV>, Error>(e),
    ensures
        trafs_fold(file, moof_off, ts, j, bs) == Err::<Seq<BuilderV>, Error>(e),
{
}

// ---------------------------------------------------------------------------
// Legacy-codec refinement
// ---------------------------------------------------------------------------

/// The bytes of the first sample, if any.
pub open spec fn first_data(ss: Seq<SampleV>) -> Option<Seq<u8>> {
    if ss.len() > 0 { Some(ss[0].0) } else { None }
}

/// `post` is `pre` with its provisional legacy fields refined from the
/// first sample: MPEG-2 video takes its size from the first
/// `sequence_header()`, MPEG audio its layer from the first frame header;
/// other configurations, and undecodable first samples, leave it as is.
pub open spec fn refined(pre: CodecConfig, post: CodecConfig, first: Option<Seq<u8>>) -> bool {
    match pre {
        CodecConfig::Mpeg2Video { esds, width, height } => post matches CodecConfig::Mpeg2Video { esds: e2, width: w2, height: h2 }
            && e2 == esds && match first {
                Some(d) => match crate::mpeg_legacy::spec_find_seq_header(d) {
                    Ok(sh) => w2 == sh.width && h2 == sh.height,
                    Err(_) => w2 == width && h2 == height,
                },
                None => w2 == width && h2 == height,
            },
        CodecConfig::MpegAudio { esds, layer, channel_count, sample_rate, sample_size } => post matches CodecConfig::MpegAudio {
            esds: e2,
            layer: l2,
            channel_count: c2,
            sample_rate: r2,
            sample_size: s2,
        } && e2 == esds && c2 == channel_count && r2 == sample_rate && s2 == sample_size && match first {
            Some(d) => match crate::mpeg_legacy::spec_parse_mpa(d) {
                Ok(h) => l2 == h.layer,
                Err(_) => l2 == layer,
            },
            None => l2 == layer,
        },
        _ => post == pre,
    }
}

/// Refines the provisional size (MPEG-2 video) or layer (MPEG audio) of a
/// legacy configuration from the first coded sample's in-band header.
pub fn refine_legacy_config(config: CodecConfig, samples: &Vec<Sample>) -> (r: CodecConfig)
    ensures
        refined(config, r, first_data(samples_v(samples@))),
{
    if samples.len() == 0 {
        return config;
    }
    let first = samples[0].data.as_slice();
    match config {
        CodecConfig::Mpeg2Video { esds, width, height } => {
            match crate::mpeg_legacy::Mpeg2SeqHeader::find(first) {
                Ok(sh) => CodecConfig::Mpeg2Video { esds, width: sh.width, height: sh.height },
                Err(_) => CodecConfig::Mpeg2Video { esds, width, height },
            }
        },
        CodecConfig::MpegAudio { esds, layer, channel_count, sample_rate, sample_size } => {
            match crate::mpeg_legacy::MpegAudioFrameHeader::parse(first) {
                Ok(h) => CodecConfig::MpegAudio { esds, layer: h.layer, channel_count, sample_rate, sample_size },
                Err(_) => CodecConfig::MpegAudio { esds, layer, channel_count, sample_rate, sample_size },
            }
        },
        other => other,
    }
}

// ---------------------------------------------------------------------------
// Top-level walk and Fmp4Demux
// ---------------------------------------------------------------------------

/// The span `[start, end)` of the first top-level box of type `t` from
/// offset `off` (none once a header does not parse).
pub open spec fn find_top(d: Seq<u8>, off: int, t: Seq<u8>) -> Option<(int, int)>
    decreases d.len() - off,
{
    if off < 0 || off + 8 > d.len() {
        None
    } else {
        match spec_box_header(d.skip(off)) {
            Err(_) => None,
            Ok((typ, hl, size)) => if typ == t {
                Some((off, off + size))
            } else if size == 0 || off + size > d.len() {
                None
            } else {
                find_top(d, off + size, t)
            },
        }
    }
}

/// Finds a top-level box by four-character code, returning its whole bytes
/// (header and body).
pub fn find_top_box<'a>(data: &'a [u8], fourcc: &[u8; 4]) -> (r: Option<&'a [u8]>)
    ensures
        match find_top(data@, 0, fourcc@) {
            Some((s, e)) => r matches Some(x) && x@ == data@.subrange(s, e),
            None => r is None,
        },
{
    match find_top_span(data, fourcc) {
        Some((s, e)) => Some(&data[s..e]),
        None => None,
    }
}

fn find_top_span(data: &[u8], fourcc: &[u8; 4]) -> (r: Option<(usize, usize)>)
    ensures
        match find_top(data@, 0, fourcc@) {
            Some((s, e)) => r matches Some((a, b)) && a == s && b == e && 0 <= s <= e <= data@.len(),
            None => r is None,
        },
{
    let n = data.len();
    let mut o: usize = 0;
    loop
        invariant
            n == data@.len(),
            find_top(data@, 0, fourcc@) == find_top(data@, o as int, fourcc@),
        decreases n - o,
    {
        if o > n || n - o < 8 {
            return None;
        }
        let rest = &data[o..n];
        assert(rest@ =~= data@.skip(o as int));
        match parse_box(rest) {
            Err(_) => {
                return None;
            },
            Ok((bx, size)) => {
                proof { crate::box_types::lemma_box_header_bounds(rest@); }
                if fourcc_eq(&bx.header.box_type, fourcc) {
                    return Some((o, o + size));
                }
                if size == 0 || size > n - o {
                    return None;
                }
                o = o + size;
            },
        }
    }
}

/// The builders after walking the top-level boxes from `off`: each `moof`
/// is held until the next `mdat`, whose arrival absorbs it; a header or
/// `moof` that does not parse stops the walk with its error.
pub open spec fn demux_walk(file: Seq<u8>, off: int, bs: Seq<BuilderV>, pending: Option<(int, MoofView)>) -> Result<Seq<BuilderV>, Error>
    decreases file.len() - off,
{
    if off < 0 || off + 8 > file.len() {
        Ok(bs)
    } else {
        match spec_box_header(file.skip(off)) {
            Err(e) => Err(e),
            Ok((typ, hl, size)) => {
                let body = file.subrange(off + hl, off + size);
                let step: Result<(Seq<BuilderV>, Option<(int, MoofView)>), Error> = if typ == MOOF@ {
                    match spec_parse_moof(body) {
                        Err(e) => Err(e),
                        Ok(mv) => Ok((bs, Some((off, mv)))),
                    }
                } else if typ == MDAT@ {
                    match pending {
                        None => Ok((bs, None)),
                        Some((mo, mv)) => match trafs_fold(file, mo, mv.1, 0, bs) {
                            Err(e) => Err(e),
                            Ok(b2) => Ok((b2, None)),
                        },
                    }
                } else {
                    Ok((bs, pending))
                };
                match step {
                    Err(e) => Err(e),
                    Ok((b2, p2)) => if size == 0 || off + size > file.len() {
                        Ok(b2)
                    } else {
                        demux_walk(file, off + size, b2, p2)
                    },
                }
            },
        }
    }
}

/// Whether a `trak` yields a track: its boxes are present and its first
/// sample entry gives a codec configuration.
pub open spec fn trak_kept(t: TrakView) -> bool {
    match trak_outcome(t) {
        Ok((_, _, e)) => exists|c: CodecConfig| entry_config_ok(e, Ok(c)),
        Err(_) => false,
    }
}

/// The first `n` `trak`s that yield tracks, in order.
pub open spec fn kept_traks(ts: Seq<TrakView>, n: nat) -> Seq<TrakView>
    decreases n,
{
    if n == 0 || n > ts.len() {
        Seq::empty()
    } else if trak_kept(ts[n - 1]) {
        kept_traks(ts, (n - 1) as nat).push(ts[n - 1])
    } else {
        kept_traks(ts, (n - 1) as nat)
    }
}

/// The initial builder of each kept `trak`: its track ID, no samples, no
/// start time, decode time 0.
pub open spec fn init_builders(ks: Seq<TrakView>) -> Seq<BuilderV> {
    ks.map_values(|t: TrakView| (t.0.4, Seq::<SampleV>::empty(), None::<u64>, 0i64))
}

/// Track `t` is the demuxed form of `trak` `k` with builder state `b`: the
/// `trak`'s ID, timescale and (refined) codec configuration, the gathered
/// samples, and the first `tfdt` (0 without one) as its start time.
pub open spec fn demuxed_track_ok(t: Track, k: TrakView, b: BuilderV) -> bool {
    &&& samples_v(t.samples@) == b.1
    &&& t.start_decode_time == (match b.2 {
        Some(x) => x,
        None => 0,
    })
    &&& t.encryption is None
    &&& match trak_outcome(k) {
        Ok((id, ts, e)) => t.spec.track_id == id && t.spec.timescale == ts && t.spec.source_pid is None
            && t.spec.es_info_descriptors@.len() == 0
            && exists|pre: CodecConfig| entry_config_ok(e, Ok(pre)) && refined(pre, t.spec.config, first_data(b.1)),
        Err(_) => false,
    }
}

/// `r` is the demux of a fragmented MP4 file: its `moov` gives the tracks
/// (a `trak` whose sample entry cannot be reconstructed is skipped), and
/// every `moof`/`mdat` pair their samples.
pub open spec fn demux_ok(input: Seq<u8>, r: Result<Media, Error>) -> bool {
    match find_top(input, 0, MOOV@) {
        None => r == Err::<Media, Error>(Error::UnexpectedBox { expected: "moov" }),
        Some((s, e)) => match spec_parse_moov(input.subrange(s, e)) {
            Err(x) => r == Err::<Media, Error>(x),
            Ok(mv) => {
                let ks = kept_traks(mv.1, mv.1.len());
                match demux_walk(input, 0, init_builders(ks), None) {
                    Err(x) => r matches Err(y) && y == x,
                    Ok(bs) => r matches Ok(m) && m.movie_timescale == mv.0.4 && m.pcr@.len() == 0
                        && m.tracks@.len() == ks.len() && bs.len() == ks.len()
                        && forall|i: int| 0 <= i < ks.len() ==> demuxed_track_ok(#[trigger] m.tracks@[i], ks[i], bs[i]),
                }
            },
        }
    }
}

proof fn lemma_entry_excl(e: EntryView, c: CodecConfig, x: Error)
    requires
        entry_config_ok(e, Ok(c)),
    ensures
        !entry_config_ok(e, Err(x)),
{
}

/// The plain values of a held `moof`.
pub open spec fn pending_v(p: Option<(usize, MovieFragmentBox)>) -> Option<(int, MoofView)> {
    match p {
        Some((o, m)) => Some((o as int, m@)),
        None => None,
    }
}

/// Demuxes a fragmented ISOBMFF/CMAF byte stream into the media IR.
#[derive(Debug, Clone, Copy)]
pub struct Fmp4Demux {}

impl Default for Fmp4Demux {
    fn default() -> (r: Self) {
        Fmp4Demux {}
    }
}

fn initial_builders(moov: &crate::init_segment::MovieBox) -> (r: Vec<TrackBuilder>)
    ensures
        builders_v(r@) == init_builders(kept_traks(moov@.1, moov@.1.len())),
        r@.len() == kept_traks(moov@.1, moov@.1.len()).len(),
        forall|k: int| 0 <= k < r@.len() ==> trak_spec_ok(kept_traks(moov@.1, moov@.1.len())[k], Ok(#[trigger] r@[k].spec)),
{
    let ghost mv = moov@;
    let mut builders: Vec<TrackBuilder> = Vec::new();
    let mut i: usize = 0;
    assert(builders_v(builders@) =~= init_builders(kept_traks(mv.1, 0)));
    while i < moov.tracks.len()
        invariant
            i <= moov.tracks@.len(),
            mv == moov@,
            mv.1.len() == moov.tracks@.len(),
            builders_v(builders@) == init_builders(kept_traks(mv.1, i as nat)),
            builders@.len() == kept_traks(mv.1, i as nat).len(),
            forall|k: int| 0 <= k < builders@.len() ==> trak_spec_ok(kept_traks(mv.1, i as nat)[k], Ok(#[trigger] builders@[k].spec)),
        decreases moov.tracks@.len() - i,
    {
        assert(mv.1[i as int] == moov.tracks@[i as int]@);
        let ghost ks = kept_traks(mv.1, i as nat);
        let ghost b0 = builders@;
        let ghost t = mv.1[i as int];
        match track_spec_from_trak(&moov.tracks[i]) {
            Ok(spec) => {
                proof {
                    assert(trak_kept(t)) by {
                        if let Ok((_, _, e)) = trak_outcome(t) {
                            assert(entry_config_ok(e, Ok(spec.config)));
                        }
                    }
                    assert(spec.track_id == t.0.4);
                }
                let empty: Vec<Sample> = Vec::new();
                assert(samples_v(empty@) =~= Seq::<SampleV>::empty());
                let ghost id = spec.track_id;
                builders.push(TrackBuilder { spec, samples: empty, start_decode_time: None, next_dts: 0 });
                proof {
                    assert(kept_traks(mv.1, (i + 1) as nat) == ks.push(t));
                    let nb: BuilderV = (id, Seq::<SampleV>::empty(), None::<u64>, 0i64);
                    assert(builders_v(builders@) =~= builders_v(b0).push(nb));
                    assert(init_builders(ks.push(t)) =~= init_builders(ks).push(nb));
                    assert(builders_v(builders@) =~= init_builders(ks.push(t)));
                    assert forall|k: int| 0 <= k < builders@.len() implies trak_spec_ok(ks.push(t)[k], Ok(#[trigger] builders@[k].spec)) by {
                        if k < b0.len() {
                            assert(builders@[k] == b0[k]);
                        }
                    }
                }
            },
            Err(x) => {
                proof {
                    if trak_kept(t) {
                        if let Ok((_, _, e)) = trak_outcome(t) {
                            let c = choose|c: CodecConfig| entry_config_ok(e, Ok(c));
                            lemma_entry_excl(e, c, x);
                        }
                    }
                    assert(kept_traks(mv.1, (i + 1) as nat) == ks);
                }
            },
        }
        i += 1;
    }
    builders
}

proof fn lemma_walk_err(file: Seq<u8>, off: int, bs: Seq<BuilderV>, p: Option<(int, MoofView)>, e: Error)
    requires
        0 <= off,
        off + 8 <= file.len(),
        spec_box_header(file.skip(off)) == Err::<(Seq<u8>, nat, nat), Error>(e),
    ensures
        demux_walk(file, off, bs, p) == Err::<Seq<BuilderV>, Error>(e),
{
}

fn walk_fragments(input: &[u8], builders: &mut Vec<TrackBuilder>) -> (r: Result<(), Error>)
    ensures
        match demux_walk(input@, 0, builders_v(old(builders)@), None) {
            Ok(bs) => r is Ok && builders_v(final(builders)@) == bs,
            Err(e) => r matches Err(x) && x == e,
        },
        r is Ok ==> final(builders)@.len() == old(builders)@.len(),
        r is Ok ==> forall|i: int| 0 <= i < old(builders)@.len() ==> (#[trigger] final(builders)@[i]).spec == old(builders)@[i].spec,
{
    let ghost bs0 = builders_v(builders@);
    let n = input.len();
    let mut off: usize = 0;
    let mut pending: Option<(usize, MovieFragmentBox)> = None;
    loop
        invariant
            n == input@.len(),
            off <= n,
            bs0 == builders_v(old(builders)@),
            demux_walk(input@, 0, bs0, None) == demux_walk(input@, off as int, builders_v(builders@), pending_v(pending)),
            builders@.len() == old(builders)@.len(),
            forall|i: int| 0 <= i < old(builders)@.len() ==> (#[trigger] builders@[i]).spec == old(builders)@[i].spec,
        ensures
            demux_walk(input@, 0, bs0, None) == Ok::<Seq<BuilderV>, Error>(builders_v(builders@)),
            builders@.len() == old(builders)@.len(),
            forall|i: int| 0 <= i < old(builders)@.len() ==> (#[trigger] builders@[i]).spec == old(builders)@[i].spec,
        decreases n - off,
    {
        if n - off < 8 {
            break;
        }
        let rest = &input[off..n];
        assert(rest@ =~= input@.skip(off as int));
        let (bx, size) = match parse_box(rest) {
            Ok(x) => x,
            Err(e) => {
                proof { lemma_walk_err(input@, off as int, builders_v(builders@), pending_v(pending), e); }
                return Err(e);
            },
        };
        proof { crate::box_types::lemma_box_header_bounds(rest@); }
        assert(bx.body@ =~= input@.subrange(off + bx.header.header_len, off + size));
        let ghost bv = builders_v(builders@);
        let ghost pv = pending_v(pending);
        if fourcc_eq(&bx.header.box_type, &MOOF) {
            let moof = match MovieFragmentBox::parse_body(bx.body) {
                Ok(m) => m,
                Err(e) => {
                    assert(demux_walk(input@, off as int, bv, pv) == Err::<Seq<BuilderV>, Error>(e));
                    return Err(e);
                },
            };
            pending = Some((off, moof));
        } else if fourcc_eq(&bx.header.box_type, &MDAT) {
            let held = pending;
            pending = None;
            match held {
                Some((mo, moof)) => {
                    match absorb_fragment(input, mo, &moof, builders) {
                        Ok(()) => {},
                        Err(e) => {
                            assert(demux_walk(input@, off as int, bv, pv) == Err::<Seq<BuilderV>, Error>(e));
                            return Err(e);
                        },
                    }
                },
                None => {},
            }
        }
        if size == 0 || size > n - off {
            break;
        }
        off = off + size;
    }
    Ok(())
}

fn finish_tracks(builders: Vec<TrackBuilder>, ks: Ghost<Seq<TrakView>>) -> (r: Vec<Track>)
    requires
        builders@.len() == ks@.len(),
        forall|j: int| 0 <= j < ks@.len() ==> trak_spec_ok(ks@[j], Ok(#[trigger] builders@[j].spec)),
    ensures
        r@.len() == ks@.len(),
        forall|j: int| 0 <= j < ks@.len() ==> demuxed_track_ok(#[trigger] r@[j], ks@[j], builders_v(builders@)[j]),
{
    let ghost bf = builders@;
    let ghost bsf = builders_v(bf);
    let mut builders = builders;
    let total = builders.len();
    let mut tracks: Vec<Track> = Vec::new();
    let mut k: usize = 0;
    while builders.len() > 0
        invariant
            k + builders@.len() == ks@.len(),
            total == ks@.len(),
            bf.len() == ks@.len(),
            bsf == builders_v(bf),
            builders@ == bf.skip(k as int),
            tracks@.len() == k,
            forall|j: int| 0 <= j < ks@.len() ==> trak_spec_ok(ks@[j], Ok(#[trigger] bf[j].spec)),
            forall|j: int| 0 <= j < k ==> demuxed_track_ok(#[trigger] tracks@[j], ks@[j], bsf[j]),
        decreases builders@.len(),
    {
        let b = builders.remove(0);
        assert(b == bf[k as int]);
        let t = finish_track(b, Ghost(ks@[k as int]));
        let ghost t0 = tracks@;
        tracks.push(t);
        proof {
            assert(bf.skip(k as int).skip(1) =~= bf.skip(k + 1));
            assert forall|j: int| 0 <= j < k + 1 implies demuxed_track_ok(#[trigger] tracks@[j], ks@[j], bsf[j]) by {
                if j < k {
                    assert(tracks@[j] == t0[j]);
                }
            }
        }
        k += 1;
    }
    tracks
}

fn finish_track(b: TrackBuilder, k: Ghost<TrakView>) -> (r: Track)
    requires
        trak_spec_ok(k@, Ok(b.spec)),
    ensures
        demuxed_track_ok(r, k@, (b.spec.track_id, samples_v(b.samples@), b.start_decode_time, b.next_dts)),
{
    let TrackBuilder { spec, samples, start_decode_time, next_dts } = b;
    let TrackSpec { track_id, timescale, config, source_pid, es_info_descriptors } = spec;
    let ghost pre = config;
    let config = refine_legacy_config(config, &samples);
    let spec = TrackSpec { track_id, timescale, config, source_pid, es_info_descriptors };
    let start = match start_decode_time {
        Some(x) => x,
        None => 0,
    };
    proof {
        if let Ok((id, ts, e)) = trak_outcome(k@) {
            assert(entry_config_ok(e, Ok(pre)));
        }
    }
    Track { spec, samples, start_decode_time: start, encryption: None }
}

impl Fmp4Demux {
    /// A new demuxer.
    pub fn new() -> (r: Self) {
        Fmp4Demux {}
    }

    /// Demuxes a fragmented MP4 file: the `moov` gives each track's ID,
    /// timescale and codec configuration (a track whose sample entry cannot
    /// be reconstructed is skipped), and each `moof`/`mdat` pair its
    /// samples, resolved from the `trun`s against the `tfhd` defaults, with
    /// absolute decode times re-seeded from every fragment's own `tfdt`.
    pub fn unpackage(&mut self, input: &[u8]) -> (r: Result<Media, Error>)
        ensures
            demux_ok(input@, r),
    {
        let (ms, me) = match find_top_span(input, &MOOV) {
            Some(x) => x,
            None => {
                return Err(Error::UnexpectedBox { expected: "moov" });
            },
        };
        let moov = match crate::init_segment::MovieBox::parse(&input[ms..me]) {
            Ok(m) => m,
            Err(e) => {
                return Err(e);
            },
        };
        let ghost ks = kept_traks(moov@.1, moov@.1.len());
        let mut builders = initial_builders(&moov);
        match walk_fragments(input, &mut builders) {
            Ok(()) => {},
            Err(e) => {
                return Err(e);
            },
        }
        let ghost bs = builders_v(builders@);
        let tracks = finish_tracks(builders, Ghost(ks));
        let m = Media::new(tracks, moov.mvhd.timescale);
        assert(m.tracks@.len() == ks.len());
        Ok(m)
    }
}

// ---------------------------------------------------------------------------
// Mux → demux agreement on sample entries
// ---------------------------------------------------------------------------

/// The configuration box a configuration carries, with the type its
/// sample entry must name for demux, when it carries one as-is.
pub open spec fn carried_box(c: CodecConfig) -> Option<(OpaqueBox, Seq<u8>)> {
    match c {
        CodecConfig::Avc { config, .. } => Some((config, FCC_AVCC@)),
        CodecConfig::Hevc { config, .. } => Some((config, FCC_HVCC@)),
        CodecConfig::Vvc { config, .. } => Some((config, FCC_VVCC@)),
        CodecConfig::Av1 { config, .. } => Some((config, FCC_AV1C@)),
        CodecConfig::Vp9 { config, .. } => Some((config, FCC_VPCC@)),
        CodecConfig::Ac3 { config, .. } => Some((config, FCC_DAC3@)),
        CodecConfig::Eac3 { config, .. } => Some((config, FCC_DEC3@)),
        CodecConfig::Flac { config, .. } => Some((config, FCC_DFLA@)),
        CodecConfig::Ac4 { config, .. } => Some((config, FCC_DAC4@)),
        _ => None,
    }
}

/// The audio rate of a configuration (0 for video).
pub open spec fn carried_rate(c: CodecConfig) -> u32 {
    match c {
        CodecConfig::Ac3 { sample_rate, .. } => sample_rate,
        CodecConfig::Eac3 { sample_rate, .. } => sample_rate,
        CodecConfig::Flac { sample_rate, .. } => sample_rate,
        CodecConfig::Ac4 { sample_rate, .. } => sample_rate,
        _ => 0,
    }
}

proof fn lemma_box_found(prefix: Seq<u8>, cfg: (Seq<u8>, Seq<u8>))
    requires
        cfg.0.len() == 4,
        cfg.0 != crate::box_types::UUID_TYPE@,
        8 + cfg.1.len() <= u32::MAX,
    ensures
        find_child(prefix + crate::init_segment::opaque_bytes(cfg), prefix.len() as int, cfg.0)
            == Some((prefix.len() + 8int, prefix.len() + 8int + cfg.1.len())),
        (prefix + crate::init_segment::opaque_bytes(cfg)).subrange(prefix.len() + 8int, prefix.len() + 8int + cfg.1.len()) == cfg.1,
{
    let b = prefix + crate::init_segment::opaque_bytes(cfg);
    let p = prefix.len() as int;
    crate::box_types::lemma_box_header_compact(cfg.0, cfg.1, Seq::empty());
    assert(crate::init_segment::opaque_bytes(cfg) + Seq::<u8>::empty() =~= crate::init_segment::opaque_bytes(cfg));
    assert(b.skip(p) =~= crate::init_segment::opaque_bytes(cfg));
    assert(b.subrange(p + 8, p + 8 + cfg.1.len()) =~= cfg.1);
}

proof fn lemma_fourccs()
    ensures
        crate::pipeline::AVC1@ == FCC_AVC1@,
        crate::pipeline::HVC1@ == FCC_HVC1@,
        crate::pipeline::VVC1@ == FCC_VVC1@,
        crate::pipeline::AV01@ == FCC_AV01@,
        crate::pipeline::VP09@ == FCC_VP09@,
        crate::pipeline::AC_3@ == FCC_AC_3@,
        crate::pipeline::EC_3@ == FCC_EC_3@,
        crate::pipeline::FLAC@ == FCC_FLAC@,
        crate::pipeline::AC_4@ == FCC_AC_4@,
{
    assert(crate::pipeline::AVC1@ =~= FCC_AVC1@);
    assert(crate::pipeline::HVC1@ =~= FCC_HVC1@);
    assert(crate::pipeline::VVC1@ =~= FCC_VVC1@);
    assert(crate::pipeline::AV01@ =~= FCC_AV01@);
    assert(crate::pipeline::VP09@ =~= FCC_VP09@);
    assert(crate::pipeline::AC_3@ =~= FCC_AC_3@);
    assert(crate::pipeline::EC_3@ =~= FCC_EC_3@);
    assert(crate::pipeline::FLAC@ =~= FCC_FLAC@);
    assert(crate::pipeline::AC_4@ =~= FCC_AC_4@);
}

proof fn lemma_not_uuid(t: Seq<u8>)
    requires
        t == FCC_AVCC@ || t == FCC_HVCC@ || t == FCC_VVCC@ || t == FCC_AV1C@ || t == FCC_VPCC@ || t == FCC_DAC3@
            || t == FCC_DEC3@ || t == FCC_DFLA@ || t == FCC_DAC4@,
    ensures
        t != crate::box_types::UUID_TYPE@,
        t.len() == 4,
{
    assert(t[0] != crate::box_types::UUID_TYPE@[0] || t[1] != crate::box_types::UUID_TYPE@[1]);
}

proof fn lemma_video_body(w: u16, h: u16, cfg: (Seq<u8>, Seq<u8>))
    requires
        cfg.0.len() == 4,
        cfg.0 != crate::box_types::UUID_TYPE@,
        8 + cfg.1.len() <= u32::MAX,
    ensures
        ({
            let b = crate::pipeline::visual_body(w, h) + crate::init_segment::opaque_bytes(cfg);
            &&& b.len() >= 78
            &&& find_child(b, 78, cfg.0) == Some((86int, 86int + cfg.1.len()))
            &&& b.subrange(86, 86int + cfg.1.len()) == cfg.1
            &&& get16(b, 24) == w
            &&& get16(b, 26) == h
        }),
{
    let vb = crate::pipeline::visual_body(w, h);
    assert(vb.len() == 78);
    lemma_box_found(vb, cfg);
    let b = vb + crate::init_segment::opaque_bytes(cfg);
    assert(b.subrange(24, 26) =~= crate::bytes::be16(w));
    assert(b.subrange(26, 28) =~= crate::bytes::be16(h));
    crate::bytes::lemma_be16_get16(w, b, 24);
    crate::bytes::lemma_be16_get16(h, b, 26);
}

#[verifier::spinoff_prover]
#[verifier::rlimit(100)]
proof fn lemma_audio_body(cc: u16, sr: u32, ss: u16, cfg: (Seq<u8>, Seq<u8>))
    requires
        cfg.0.len() == 4,
        cfg.0 != crate::box_types::UUID_TYPE@,
        8 + cfg.1.len() <= u32::MAX,
        sr <= 0xFFFF,
    ensures
        ({
            let b = crate::pipeline::audio_body(crate::pipeline::audio_fields(cc, sr, ss, cfg));
            &&& b.len() >= 28
            &&& find_child(b, 28, cfg.0) == Some((36int, 36int + cfg.1.len()))
            &&& b.subrange(36, 36int + cfg.1.len()) == cfg.1
            &&& get16(b, 16) == cc
            &&& get16(b, 18) == ss
            &&& get32(b, 24) >> 16u32 == sr
        }),
{
    let v = crate::pipeline::audio_fields(cc, sr, ss, cfg);
    let head = crate::init_segment::zeros(6) + crate::bytes::be16(v.0) + crate::init_segment::zeros(8)
        + crate::bytes::be16(v.1) + crate::bytes::be16(v.2) + crate::init_segment::zeros(4) + crate::bytes::be32(v.3);
    assert(head.len() == 28);
    assert(v.4 == seq![cfg]);
    assert(v.4.drop_last() =~= Seq::<(Seq<u8>, Seq<u8>)>::empty());
    assert(crate::init_segment::opaques_bytes(v.4.drop_last()) == Seq::<u8>::empty());
    assert(crate::init_segment::opaques_bytes(v.4) =~= crate::init_segment::opaque_bytes(cfg));
    assert(crate::pipeline::audio_body(v) =~= head + crate::init_segment::opaque_bytes(cfg));
    lemma_box_found(head, cfg);
    let b = head + crate::init_segment::opaque_bytes(cfg);
    assert(b.subrange(16, 18) =~= crate::bytes::be16(cc));
    assert(b.subrange(18, 20) =~= crate::bytes::be16(ss));
    assert(b.subrange(24, 28) =~= crate::bytes::be32(sr << 16u32));
    crate::bytes::lemma_be16_get16(cc, b, 16);
    crate::bytes::lemma_be16_get16(ss, b, 18);
    crate::bytes::lemma_be32_get32(sr << 16u32, b, 24);
    assert((sr << 16u32) >> 16u32 == sr) by (bit_vector)
        requires
            sr <= 0xFFFF,
    ;
}

proof fn lemma_spec_entry_carried(c: CodecConfig)
    ensures
        match c {
            CodecConfig::Avc { config, width, height } => crate::pipeline::spec_entry(c)
                == Ok::<EntryView, Error>(crate::pipeline::video_entry(FCC_AVC1@, width, height, config@)),
            CodecConfig::Hevc { config, width, height } => crate::pipeline::spec_entry(c)
                == Ok::<EntryView, Error>(crate::pipeline::video_entry(FCC_HVC1@, width, height, config@)),
            CodecConfig::Vvc { config, width, height } => crate::pipeline::spec_entry(c)
                == Ok::<EntryView, Error>(crate::pipeline::video_entry(FCC_VVC1@, width, height, config@)),
            CodecConfig::Av1 { config, width, height } => crate::pipeline::spec_entry(c)
                == Ok::<EntryView, Error>(crate::pipeline::video_entry(FCC_AV01@, width, height, config@)),
            CodecConfig::Vp9 { config, width, height } => crate::pipeline::spec_entry(c)
                == Ok::<EntryView, Error>(crate::pipeline::video_entry(FCC_VP09@, width, height, config@)),
            CodecConfig::Ac3 { config, channel_count, sample_rate, sample_size } => crate::pipeline::spec_entry(c)
                == Ok::<EntryView, Error>(crate::pipeline::audio_entry(FCC_AC_3@, channel_count, sample_rate, sample_size, config@)),
            CodecConfig::Eac3 { config, channel_count, sample_rate, sample_size } => crate::pipeline::spec_entry(c)
                == Ok::<EntryView, Error>(crate::pipeline::audio_entry(FCC_EC_3@, channel_count, sample_rate, sample_size, config@)),
            CodecConfig::Flac { config, channel_count, sample_rate, sample_size } => crate::pipeline::spec_entry(c)
                == Ok::<EntryView, Error>(crate::pipeline::audio_entry(FCC_FLAC@, channel_count, sample_rate, sample_size, config@)),
            CodecConfig::Ac4 { config, channel_count, sample_rate, sample_size } => crate::pipeline::spec_entry(c)
                == Ok::<EntryView, Error>(crate::pipeline::audio_entry(FCC_AC_4@, channel_count, sample_rate, sample_size, config@)),
            _ => true,
        },
{
    reveal(crate::pipeline::spec_entry);
    lemma_fourccs();
}

#[verifier::spinoff_prover]
#[verifier::rlimit(80)]
proof fn lemma_video_entry_round_trip(c: CodecConfig)
    requires
        c is Avc || c is Hevc || c is Vvc || c is Av1 || c is Vp9,
        carried_box(c) matches Some((o, t)) && o.box_type@ == t && 8 + o.data@.len() <= u32::MAX,
    ensures
        crate::pipeline::spec_entry(c) matches Ok(e) && entry_config_ok(e, Ok(c)),
{
    lemma_spec_entry_carried(c);
    let (o, t) = carried_box(c)->0;
    lemma_not_uuid(t);
    let (w, h) = match c {
        CodecConfig::Avc { width, height, .. } => (width, height),
        CodecConfig::Hevc { width, height, .. } => (width, height),
        CodecConfig::Vvc { width, height, .. } => (width, height),
        CodecConfig::Av1 { width, height, .. } => (width, height),
        CodecConfig::Vp9 { width, height, .. } => (width, height),
        _ => (0u16, 0u16),
    };
    lemma_video_body(w, h, o@);
}

#[verifier::spinoff_prover]
#[verifier::rlimit(100)]
proof fn lemma_audio_entry_round_trip(c: CodecConfig)
    requires
        c is Ac3 || c is Eac3 || c is Flac || c is Ac4,
        carried_box(c) matches Some((o, t)) && o.box_type@ == t && 8 + o.data@.len() <= u32::MAX,
        carried_rate(c) <= 0xFFFF,
    ensures
        crate::pipeline::spec_entry(c) matches Ok(e) && entry_config_ok(e, Ok(c)),
{
    lemma_spec_entry_carried(c);
    let (o, t) = carried_box(c)->0;
    lemma_not_uuid(t);
    let (cc, sr, ss) = match c {
        CodecConfig::Ac3 { channel_count, sample_rate, sample_size, .. } => (channel_count, sample_rate, sample_size),
        CodecConfig::Eac3 { channel_count, sample_rate, sample_size, .. } => (channel_count, sample_rate, sample_size),
        CodecConfig::Flac { channel_count, sample_rate, sample_size, .. } => (channel_count, sample_rate, sample_size),
        CodecConfig::Ac4 { channel_count, sample_rate, sample_size, .. } => (channel_count, sample_rate, sample_size),
        _ => (0u16, 0u32, 0u16),
    };
    lemma_audio_body(cc, sr, ss, o@);
}

/// Demuxing the sample entry the muxer writes for a video configuration,
/// or for an AC-3, E-AC-3, FLAC or AC-4 configuration whose rate fits the
/// 16-bit integer part of the 16.16 rate field, gives that configuration
/// back, when its configuration box has the type the entry calls for and
/// fits a 32-bit box size.
pub proof fn lemma_entry_round_trip(c: CodecConfig)
    requires
        carried_box(c) matches Some((o, t)) && o.box_type@ == t && 8 + o.data@.len() <= u32::MAX,
        carried_rate(c) <= 0xFFFF,
    ensures
        crate::pipeline::spec_entry(c) matches Ok(e) && entry_config_ok(e, Ok(c)),
{
    if c is Avc || c is Hevc || c is Vvc || c is Av1 || c is Vp9 {
        lemma_video_entry_round_trip(c);
    } else {
        lemma_audio_entry_round_trip(c);
    }
}

// ---------------------------------------------------------------------------
// CMAF mux
// ---------------------------------------------------------------------------

/// `mvhd.timescale` when the media names none.
pub const DEFAULT_MOVIE_TIMESCALE: u32 = 1000;

/// The single-segment fragment of a track: anchored at its absolute decode
/// time, with all its samples.
pub open spec fn track_frag(t: Track) -> FragView {
    (t.spec.track_id, t.start_decode_time, t.samples@)
}

pub open spec fn media_frags(m: Media) -> Seq<FragView> {
    m.tracks@.map_values(|t: Track| track_frag(t))
}

/// The movie timescale written: the media's own, or the default for 0.
pub open spec fn cmaf_timescale(m: Media) -> u32 {
    if m.movie_timescale == 0 {
        DEFAULT_MOVIE_TIMESCALE
    } else {
        m.movie_timescale
    }
}

/// What `CmafMux` produces for `m`: the initialisation segment of the
/// tracks' specs followed by one media segment with a fragment per track.
pub open spec fn spec_cmaf(sequence_number: u32, m: Media) -> Result<Seq<u8>, Error> {
    if m.tracks@.len() == 0 {
        Err(Error::InvalidInput("cannot package a Media with no tracks"))
    } else {
        match spec_init_segment(specs_of(m.tracks@), cmaf_timescale(m)) {
            Err(e) => Err(e),
            Ok(init) => Ok(init + spec_media_segment(sequence_number, media_frags(m))),
        }
    }
}

/// The machine limits `CmafMux` works within: track IDs below `u32::MAX`,
/// boxes and offsets that fit their fields.
pub open spec fn cmaf_fits(sequence_number: u32, m: Media) -> bool {
    &&& max_track_id(specs_of(m.tracks@)) < u32::MAX
    &&& forall|i: int| 0 <= i < m.tracks@.len() ==> config_fits(#[trigger] specs_of(m.tracks@)[i].config)
    &&& seg_fits(sequence_number, media_frags(m))
}

/// Mux a [`Media`] into a CMAF initialisation segment followed by one media
/// segment.
#[derive(Debug, Clone)]
pub struct CmafMux {
    /// `mfhd` sequence number of the emitted media segment.
    pub sequence_number: u32,
}

impl Default for CmafMux {
    fn default() -> (r: Self)
        ensures
            r.sequence_number == 1,
    {
        CmafMux { sequence_number: 1 }
    }
}

impl CmafMux {
    /// A muxer that numbers its media segment `sequence_number`.
    pub fn new(sequence_number: u32) -> (r: Self)
        ensures
            r.sequence_number == sequence_number,
    {
        CmafMux { sequence_number }
    }

    /// The initialisation segment of the tracks' specs (movie timescale
    /// defaulting to 1000), then the media segment with one fragment per
    /// track at its start decode time; a media without tracks is refused.
    pub fn package(&mut self, media: &Media) -> (r: Result<Vec<u8>, Error>)
        requires
            cmaf_fits(old(self).sequence_number, *media),
        ensures
            final(self).sequence_number == old(self).sequence_number,
            match spec_cmaf(old(self).sequence_number, *media) {
                Ok(b) => r matches Ok(x) && x@ == b,
                Err(e) => r == Err::<Vec<u8>, Error>(e),
            },
    {
        if media.tracks.len() == 0 {
            return Err(Error::InvalidInput("cannot package a Media with no tracks"));
        }
        let movie_timescale = if media.movie_timescale == 0 {
            DEFAULT_MOVIE_TIMESCALE
        } else {
            media.movie_timescale
        };
        let mut out = match init_segment_of(media.tracks.as_slice(), movie_timescale) {
            Ok(b) => b,
            Err(e) => {
                return Err(e);
            },
        };
        let ghost fs = media_frags(*media);
        let mut frags: Vec<FragmentTrackData> = Vec::new();
        let n = media.tracks.len();
        let mut i: usize = 0;
        while i < n
            invariant
                n == media.tracks@.len(),
                i <= n,
                fs == media_frags(*media),
                fs.len() == n,
                frags@.len() == i,
                frags@.map_values(|f: FragmentTrackData| frag_view(f)) == fs.take(i as int),
            decreases n - i,
        {
            let t = &media.tracks[i];
            let sl = t.samples.as_slice();
            assert(sl@ == t.samples@);
            let fd = FragmentTrackData::new(t.spec.track_id, t.start_decode_time, sl);
            assert(frag_view(fd) == fs[i as int]);
            frags.push(fd);
            assert(frags@.map_values(|f: FragmentTrackData| frag_view(f))[i as int] == frag_view(fd));
            assert(frags@.map_values(|f: FragmentTrackData| frag_view(f)) =~= fs.take(i + 1int));
            i += 1;
        }
        assert(fs.take(n as int) =~= fs);
        let seg = match build_media_segment(self.sequence_number, frags.as_slice()) {
            Ok(b) => b,
            Err(e) => {
                return Err(e);
            },
        };
        push_all(&mut out, seg.as_slice());
        Ok(out)
    }
}

// ---------------------------------------------------------------------------
// CMAF-HLS media playlist plan
// ---------------------------------------------------------------------------

/// Some sample of the track has a duration.
pub open spec fn timed(t: Track) -> bool {
    exists|k: int| 0 <= k < t.samples@.len() && (#[trigger] t.samples@[k]).duration is Some
}

/// The tracks that become playlist segments: those with a timed sample.
pub open spec fn hls_kept(ts: Seq<Track>) -> Seq<Track>
    decreases ts.len(),
{
    if ts.len() == 0 {
        Seq::empty()
    } else if timed(ts.last()) {
        hls_kept(ts.drop_last()).push(ts.last())
    } else {
        hls_kept(ts.drop_last())
    }
}

/// The track's timescale, 1 in place of 0.
pub open spec fn eff_timescale(t: Track) -> nat {
    if t.spec.timescale == 0 { 1 } else { t.spec.timescale as nat }
}

/// A track's duration in whole seconds, rounded up.
pub open spec fn ceil_secs(t: Track) -> u32 {
    ((sum_dur(t.samples@) + eff_timescale(t) - 1) / (eff_timescale(t) as int)) as u32
}

/// `#EXT-X-TARGETDURATION`: the largest rounded-up track duration.
pub open spec fn hls_target(ks: Seq<Track>) -> u32
    decreases ks.len(),
{
    if ks.len() == 0 {
        0
    } else {
        let m = hls_target(ks.drop_last());
        if ceil_secs(ks.last()) > m { ceil_secs(ks.last()) } else { m }
    }
}

/// `{uri_prefix}{track_id}.m4s`.
pub open spec fn hls_uri(prefix: Seq<char>, id: u32) -> Seq<char> {
    prefix + dec(id as nat) + ".m4s"@
}

/// One playlist segment of a track: its URI, duration in ticks and
/// (non-zero) timescale.
pub struct HlsSegmentPlan {
    pub uri: String,
    pub ticks: u64,
    pub timescale: u32,
}

pub struct HlsSegmentView {
    pub uri: Seq<char>,
    pub ticks: u64,
    pub timescale: u32,
}

impl View for HlsSegmentPlan {
    type V = HlsSegmentView;

    open spec fn view(&self) -> HlsSegmentView {
        HlsSegmentView { uri: self.uri@, ticks: self.ticks, timescale: self.timescale }
    }
}

/// Everything of a CMAF-HLS media playlist but its decimal durations.
pub struct HlsPlan {
    /// `#EXT-X-TARGETDURATION`.
    pub target_duration: u32,
    /// Length of the initialisation section each segment starts with.
    pub init_len: u64,
    /// One segment per timed track.
    pub segments: Vec<HlsSegmentPlan>,
}

pub struct HlsPlanView {
    pub target_duration: u32,
    pub init_len: u64,
    pub segments: Seq<HlsSegmentView>,
}

impl View for HlsPlan {
    type V = HlsPlanView;

    open spec fn view(&self) -> HlsPlanView {
        HlsPlanView {
            target_duration: self.target_duration,
            init_len: self.init_len,
            segments: self.segments@.map_values(|s: HlsSegmentPlan| s@),
        }
    }
}

pub open spec fn hls_segment(prefix: Seq<char>, t: Track) -> HlsSegmentView {
    HlsSegmentView {
        uri: hls_uri(prefix, t.spec.track_id),
        ticks: sum_dur(t.samples@) as u64,
        timescale: eff_timescale(t) as u32,
    }
}

/// What the CMAF-HLS packager decides for `m`: a segment per timed track,
/// each a self-initialising CMAF file whose initialisation section is the
/// init segment of the timed tracks; a media without tracks, or without a
/// timed one, is refused.
pub open spec fn spec_hls_plan(m: Media, prefix: Seq<char>) -> Result<HlsPlanView, Error> {
    let ks = hls_kept(m.tracks@);
    if m.tracks@.len() == 0 {
        Err(Error::InvalidInput("cannot package a Media with no tracks"))
    } else if ks.len() == 0 {
        Err(Error::InvalidInput(
            "cannot package a Media whose every track is timestamp-less (section-carried): an HLS media playlist needs at least one segment with a real EXTINF duration",
        ))
    } else {
        match spec_init_segment(specs_of(ks), cmaf_timescale(m)) {
            Err(e) => Err(e),
            Ok(init) => Ok(
                HlsPlanView {
                    target_duration: hls_target(ks),
                    init_len: init.len() as u64,
                    segments: ks.map_values(|t: Track| hls_segment(prefix, t)),
                },
            ),
        }
    }
}

/// The limits the plan is made within: the timed tracks' IDs below
/// `u32::MAX`, their configurations within their fields, their duration
/// sums within `u64`.
pub open spec fn hls_fits(m: Media) -> bool {
    let ks = hls_kept(m.tracks@);
    &&& max_track_id(specs_of(ks)) < u32::MAX
    &&& forall|j: int| 0 <= j < ks.len() ==> config_fits(#[trigger] specs_of(ks)[j].config)
    &&& forall|j: int| 0 <= j < ks.len() ==> sum_dur((#[trigger] ks[j]).samples@) <= u64::MAX
}

fn is_timed(t: &Track) -> (r: bool)
    ensures
        r == timed(*t),
{
    let n = t.samples.len();
    let mut k: usize = 0;
    while k < n
        invariant
            k <= n == t.samples@.len(),
            forall|i: int| 0 <= i < k ==> (#[trigger] t.samples@[i]).duration is None,
        decreases n - k,
    {
        if t.samples[k].duration.is_some() {
            return true;
        }
        k += 1;
    }
    false
}

proof fn lemma_sum_dur_monotone(ss: Seq<Sample>, k: int)
    requires
        0 <= k <= ss.len(),
    ensures
        sum_dur(ss.take(k)) <= sum_dur(ss),
    decreases ss.len() - k,
{
    if k < ss.len() {
        lemma_sum_dur_monotone(ss, k + 1);
        assert(ss.take(k + 1).drop_last() =~= ss.take(k));
    } else {
        assert(ss.take(k) =~= ss);
    }
}

fn track_ticks(t: &Track) -> (r: u64)
    requires
        sum_dur(t.samples@) <= u64::MAX,
    ensures
        r == sum_dur(t.samples@),
{
    let ghost ss = t.samples@;
    let n = t.samples.len();
    let mut sum: u64 = 0;
    let mut k: usize = 0;
    assert(ss.take(0) =~= Seq::<Sample>::empty());
    while k < n
        invariant
            k <= n == ss.len(),
            ss == t.samples@,
            sum_dur(ss) <= u64::MAX,
            sum == sum_dur(ss.take(k as int)),
        decreases n - k,
    {
        assert(ss.take(k + 1int).drop_last() =~= ss.take(k as int));
        proof {
            lemma_sum_dur_monotone(ss, k + 1);
        }
        let d: u64 = match t.samples[k].duration {
            Some(d) => d as u64,
            None => 0,
        };
        sum = sum + d;
        k += 1;
    }
    assert(ss.take(n as int) =~= ss);
    sum
}

/// Plan the CMAF-HLS media playlist of `media`: the segment of each timed
/// track (URI `{uri_prefix}{track_id}.m4s`, its duration in ticks), the
/// target duration and the initialisation section's length.
pub fn hls_plan(media: &Media, uri_prefix: &str) -> (r: Result<HlsPlan, Error>)
    requires
        hls_fits(*media),
    ensures
        match spec_hls_plan(*media, uri_prefix@) {
            Ok(p) => r matches Ok(x) && x@ == p,
            Err(e) => r == Err::<HlsPlan, Error>(e),
        },
{
    if media.tracks.len() == 0 {
        return Err(Error::InvalidInput("cannot package a Media with no tracks"));
    }
    let ghost ts = media.tracks@;
    let mut kept: Vec<&Track> = Vec::new();
    let n = media.tracks.len();
    let mut i: usize = 0;
    assert(kept@.map_values(|t: &Track| *t) =~= hls_kept(ts.take(0)));
    while i < n
        invariant
            i <= n == ts.len(),
            ts == media.tracks@,
            kept@.map_values(|t: &Track| *t) == hls_kept(ts.take(i as int)),
        decreases n - i,
    {
        assert(ts.take(i + 1int).drop_last() =~= ts.take(i as int));
        assert(ts.take(i + 1int).last() == ts[i as int]);
        let t = &media.tracks[i];
        if is_timed(t) {
            let ghost before = kept@.map_values(|t: &Track| *t);
            kept.push(t);
            assert(kept@.map_values(|t: &Track| *t) =~= before.push(*t));
        }
        i += 1;
    }
    assert(ts.take(n as int) =~= ts);
    let ghost ks = hls_kept(ts);
    assert(specs_of(kept@) =~= specs_of(ks));
    if kept.len() == 0 {
        return Err(Error::InvalidInput(
            "cannot package a Media whose every track is timestamp-less (section-carried): an HLS media playlist needs at least one segment with a real EXTINF duration",
        ));
    }
    let movie_timescale = if media.movie_timescale == 0 {
        DEFAULT_MOVIE_TIMESCALE
    } else {
        media.movie_timescale
    };
    let init_len = match init_segment_of(kept.as_slice(), movie_timescale) {
        Ok(b) => b.len() as u64,
        Err(e) => {
            return Err(e);
        },
    };
    let m = kept.len();
    let mut segments: Vec<HlsSegmentPlan> = Vec::new();
    let mut target: u32 = 0;
    let mut j: usize = 0;
    assert(ks.take(0) =~= Seq::<Track>::empty());
    while j < m
        invariant
            j <= m == ks.len(),
            ks == hls_kept(media.tracks@),
            kept@.map_values(|t: &Track| *t) == ks,
            hls_fits(*media),
            target == hls_target(ks.take(j as int)),
            segments@.len() == j,
            segments@.map_values(|s: HlsSegmentPlan| s@) == ks.take(j as int).map_values(
                |t: Track| hls_segment(uri_prefix@, t),
            ),
        decreases m - j,
    {
        let t = kept[j];
        assert(*t == ks[j as int]);
        assert(ks.take(j + 1int).drop_last() =~= ks.take(j as int));
        assert(ks.take(j + 1int).last() == ks[j as int]);
        let ticks = track_ticks(t);
        let tsc: u64 = if t.spec.timescale == 0 {
            1
        } else {
            t.spec.timescale as u64
        };
        #[verifier::truncate]
        let c = ((ticks as u128 + tsc as u128 - 1) / tsc as u128) as u32;
        if c > target {
            target = c;
        }
        let mut uri = String::new();
        uri.append(uri_prefix);
        let d = dec_string(t.spec.track_id as u64);
        uri.append(d.as_str());
        uri.append(".m4s");
        let seg = HlsSegmentPlan { uri, ticks, timescale: tsc as u32 };
        let ghost sv = seg@;
        assert(sv == hls_segment(uri_prefix@, ks[j as int]));
        let ghost before = segments@;
        segments.push(seg);
        assert(segments@ == before.push(seg));
        let ghost lhs = segments@.map_values(|s: HlsSegmentPlan| s@);
        let ghost rhs = ks.take(j + 1int).map_values(|t: Track| hls_segment(uri_prefix@, t));
        let ghost prev = ks.take(j as int).map_values(|t: Track| hls_segment(uri_prefix@, t));
        assert forall|i: int| 0 <= i < j + 1 implies lhs[i] == rhs[i] by {
            if i < j {
                assert(lhs[i] == before.map_values(|s: HlsSegmentPlan| s@)[i]);
                assert(prev[i] == rhs[i]);
            }
        }
        assert(segments@.map_values(|s: HlsSegmentPlan| s@) =~= ks.take(j + 1int).map_values(
            |t: Track| hls_segment(uri_prefix@, t),
        ));
        j += 1;
    }
    assert(ks.take(m as int) =~= ks);
    Ok(HlsPlan { target_duration: target, init_len, segments })
}

} // verus!
