//! The CMAF/fMP4 segment builders above the box codecs: a samples-in API
//! that turns per-track codec configuration into an initialisation segment
//! (`ftyp` + fragmented-init `moov`) and already-encoded access units into
//! media segments (`styp` + `moof` + `mdat`), ISO/IEC 14496-12:2015 §8.8.
use vstd::prelude::*;
use crate::box_types::box_head;
use crate::bytes::{be16, be32, get32, push16, push32, push_all, read32, copy_range, size_field};
use crate::error::Error;
use crate::init_segment::{
    audio_entry_bytes, full_head, opaque_bytes, opaques_bytes, zeros, EntryView, Mp4aSampleEntry, Mp4aView,
    OpaqueBox, SampleEntryVariant, SoundMediaHeaderBox, DataEntryUrlBox, DataInformationBox,
    DataReferenceBox, HandlerBox, MediaBox, MediaHeaderBox, MediaInformationBox, SampleDescriptionBox,
    SampleSizeBox, SampleTableBox, SampleToChunkBox, StblChild, StblChildView, ChunkOffsetBox,
    TrackBox, TrackHeaderBox, VideoMediaHeaderBox, TrakView, MdiaView, MinfView, DinfView, TkhdView,
    MP4A, MovieBox, MovieExtendsBox, MovieHeaderBox, MoovView, MvhdView, TrackExtendsBox, moov_bytes,
};
use crate::ir::codec::CodecConfig;
use crate::ir::sample::{FragmentTrackData, Sample};
use crate::movie_fragment::{
    moof_bytes, MoofView, MovieFragmentBox, MovieFragmentHeaderBox, TrackFragmentBaseMediaDecodeTimeBox, TrackFragmentBox,
    TrackFragmentHeaderBox, TrackFragmentRunBox, TrafView, TrunSample, TrunView, TFHD_DEFAULT_BASE_IS_MOOF,
};
use crate::ir::track::TrackSpec;
use crate::mp4esds::{esds_bytes, EsdsBox};
use crate::mpegh::{MHA1_FOURCC, MHAC_FOURCC};
use crate::opus::{dops_bytes, DOPS_FOURCC, OPUS_FOURCC};

verus! {

/// Sample flags of a sync sample (§8.8.3.1): depends on no other sample.
pub const SAMPLE_FLAGS_SYNC: u32 = 0x0200_0000;
/// Sample flags of a non-sync sample: depends on others, non-sync.
pub const SAMPLE_FLAGS_NON_SYNC: u32 = 0x0101_0000;
/// ISO-639-2 packed language `und`.
pub const LANG_UND: u16 = 0x55C4;
/// The identity transformation matrix (§6.2.2).
pub const IDENTITY_MATRIX: [i32; 9] = [0x0001_0000, 0, 0, 0, 0x0001_0000, 0, 0, 0, 0x4000_0000];
/// `tkhd` flags: enabled, in movie, in preview.
pub const TKHD_ENABLED_IN_MOVIE: u32 = 0x0000_0007;

/// Sample entry and configuration box types.
pub const AVC1: [u8; 4] = [0x61, 0x76, 0x63, 0x31];
pub const HVC1: [u8; 4] = [0x68, 0x76, 0x63, 0x31];
pub const VVC1: [u8; 4] = [0x76, 0x76, 0x63, 0x31];
pub const AV01: [u8; 4] = [0x61, 0x76, 0x30, 0x31];
pub const VP09: [u8; 4] = [0x76, 0x70, 0x30, 0x39];
pub const MP4V: [u8; 4] = [0x6D, 0x70, 0x34, 0x76];
pub const AC_3: [u8; 4] = [0x61, 0x63, 0x2D, 0x33];
pub const EC_3: [u8; 4] = [0x65, 0x63, 0x2D, 0x33];
pub const FLAC: [u8; 4] = [0x66, 0x4C, 0x61, 0x43];
pub const AC_4: [u8; 4] = [0x61, 0x63, 0x2D, 0x34];
pub const ESDS_BOX: [u8; 4] = [0x65, 0x73, 0x64, 0x73];
pub const STTS: [u8; 4] = [0x73, 0x74, 0x74, 0x73];
pub const VIDE: [u8; 4] = [0x76, 0x69, 0x64, 0x65];
pub const SOUN: [u8; 4] = [0x73, 0x6F, 0x75, 0x6E];
/// `VideoHandler` with its terminating NUL.
pub const VIDEO_HANDLER_NAME: [u8; 13] = [0x56, 0x69, 0x64, 0x65, 0x6F, 0x48, 0x61, 0x6E, 0x64, 0x6C, 0x65, 0x72, 0x00];
/// `SoundHandler` with its terminating NUL.
pub const SOUND_HANDLER_NAME: [u8; 13] = [0x53, 0x6F, 0x75, 0x6E, 0x64, 0x48, 0x61, 0x6E, 0x64, 0x6C, 0x65, 0x72, 0x00];

// ---------------------------------------------------------------------------
// Sample entries
// ---------------------------------------------------------------------------

/// The VisualSampleEntry fields (§12.1.3) of a `width` x `height` entry with
/// data reference 1, 72 dpi, one frame per sample, no compressor name and
/// depth 24.
pub open spec fn visual_body(width: u16, height: u16) -> Seq<u8> {
    zeros(6) + be16(1) + zeros(16) + be16(width) + be16(height) + be32(0x0048_0000) + be32(0x0048_0000) + zeros(4)
        + be16(1) + zeros(32) + be16(0x0018) + be16(0xFFFF)
}

/// The AudioSampleEntry fields (§12.2.3) and configuration boxes of an
/// `mp4a`-layout entry, without its box header.
pub open spec fn audio_body(v: Mp4aView) -> Seq<u8> {
    zeros(6) + be16(v.0) + zeros(8) + be16(v.1) + be16(v.2) + zeros(4) + be32(v.3) + opaques_bytes(v.4)
}

/// Append `n` zero bytes.
fn push_zeros(out: &mut Vec<u8>, n: usize)
    ensures
        final(out)@ == old(out)@ + zeros(n as nat),
{
    let mut i: usize = 0;
    while i < n
        invariant
            i <= n,
            out@ == old(out)@ + zeros(i as nat),
        decreases n - i,
    {
        out.push(0u8);
        i += 1;
        assert(out@ =~= old(out)@ + zeros(i as nat));
    }
}

/// A video sample entry of type `typ`: the visual fields, then the
/// configuration box.
pub open spec fn video_entry(typ: Seq<u8>, width: u16, height: u16, cfg: (Seq<u8>, Seq<u8>)) -> EntryView {
    EntryView::Unknown((typ, visual_body(width, height) + opaque_bytes(cfg)))
}

/// The audio fields of an entry carrying one configuration box: data
/// reference 1 and the rate in 16.16 fixed point (its low 16 bits).
pub open spec fn audio_fields(cc: u16, sr: u32, ss: u16, cfg: (Seq<u8>, Seq<u8>)) -> Mp4aView {
    (1u16, cc, ss, sr << 16u32, seq![cfg])
}

/// An audio sample entry of type `typ` with the `mp4a` layout.
pub open spec fn audio_entry(typ: Seq<u8>, cc: u16, sr: u32, ss: u16, cfg: (Seq<u8>, Seq<u8>)) -> EntryView {
    EntryView::Unknown((typ, audio_body(audio_fields(cc, sr, ss, cfg))))
}

/// The `esds` box of `e`, carried as a configuration box.
pub open spec fn esds_cfg(e: EsdsBox) -> (Seq<u8>, Seq<u8>) {
    (ESDS_BOX@, esds_bytes(e.es_descriptor@).skip(8))
}

/// Every configuration the sample entry of `c` serialises fits in memory.
pub open spec fn config_fits(c: CodecConfig) -> bool {
    match c {
        CodecConfig::Aac { esds, .. } => esds_bytes(esds.es_descriptor@).len() <= usize::MAX,
        CodecConfig::Mpeg2Video { esds, .. } => esds_bytes(esds.es_descriptor@).len() <= usize::MAX,
        CodecConfig::MpegAudio { esds, .. } => esds_bytes(esds.es_descriptor@).len() <= usize::MAX,
        _ => true,
    }
}

/// The sample entry of `c`, or the error for a codec with no ISOBMFF sample
/// entry here.
#[verifier::opaque]
pub open spec fn spec_entry(c: CodecConfig) -> Result<EntryView, Error> {
    match c {
        CodecConfig::Avc { config, width, height } => Ok(video_entry(AVC1@, width, height, config@)),
        CodecConfig::Hevc { config, width, height } => Ok(video_entry(HVC1@, width, height, config@)),
        CodecConfig::Vvc { config, width, height } => Ok(video_entry(VVC1@, width, height, config@)),
        CodecConfig::Av1 { config, width, height } => Ok(video_entry(AV01@, width, height, config@)),
        CodecConfig::Vp9 { config, width, height } => Ok(video_entry(VP09@, width, height, config@)),
        CodecConfig::Mpeg2Video { esds, width, height } => Ok(video_entry(MP4V@, width, height, esds_cfg(esds))),
        CodecConfig::Aac { esds, channel_count, sample_rate, sample_size } => Ok(
            EntryView::Mp4a(audio_fields(channel_count, sample_rate, sample_size, esds_cfg(esds))),
        ),
        CodecConfig::MpegAudio { esds, channel_count, sample_rate, sample_size, .. } => Ok(
            EntryView::Mp4a(audio_fields(channel_count, sample_rate, sample_size, esds_cfg(esds))),
        ),
        CodecConfig::Ac3 { config, channel_count, sample_rate, sample_size } => Ok(
            audio_entry(AC_3@, channel_count, sample_rate, sample_size, config@),
        ),
        CodecConfig::Eac3 { config, channel_count, sample_rate, sample_size } => Ok(
            audio_entry(EC_3@, channel_count, sample_rate, sample_size, config@),
        ),
        CodecConfig::Opus { config, channel_count, sample_rate, sample_size } => Ok(
            audio_entry(OPUS_FOURCC@, channel_count, sample_rate, sample_size, (DOPS_FOURCC@, dops_bytes(config@))),
        ),
        CodecConfig::Flac { config, channel_count, sample_rate, sample_size } => Ok(
            audio_entry(FLAC@, channel_count, sample_rate, sample_size, config@),
        ),
        CodecConfig::Ac4 { config, channel_count, sample_rate, sample_size } => Ok(
            audio_entry(AC_4@, channel_count, sample_rate, sample_size, config@),
        ),
        CodecConfig::MpegH { config, channel_count, sample_rate, sample_size } => Ok(
            audio_entry(MHA1_FOURCC@, channel_count, sample_rate, sample_size, (MHAC_FOURCC@, config.spec_bytes())),
        ),
        CodecConfig::Dts { config, codec_fourcc, channel_count, sample_rate, sample_size } => Ok(
            audio_entry(codec_fourcc@, channel_count, sample_rate, sample_size, config@),
        ),
        CodecConfig::Vp8 { .. } => Err(Error::UnsupportedCodec { codec: "VP8" }),
        CodecConfig::Vorbis { .. } => Err(Error::UnsupportedCodec { codec: "Vorbis" }),
        CodecConfig::Data { .. } => Err(Error::UnsupportedCodec { codec: "Data" }),
        CodecConfig::Subtitle { .. } => Err(Error::UnsupportedCodec { codec: "Subtitle" }),
    }
}

/// The entry of `c` is a visual sample entry.
pub open spec fn visual_entry(c: CodecConfig) -> bool {
    c is Avc || c is Hevc || c is Vvc || c is Av1 || c is Vp9 || c is Mpeg2Video
}

/// The coded width and height of a video configuration (0 otherwise).
pub open spec fn entry_dims(c: CodecConfig) -> (u16, u16) {
    match c {
        CodecConfig::Avc { width, height, .. } => (width, height),
        CodecConfig::Hevc { width, height, .. } => (width, height),
        CodecConfig::Vvc { width, height, .. } => (width, height),
        CodecConfig::Av1 { width, height, .. } => (width, height),
        CodecConfig::Vp9 { width, height, .. } => (width, height),
        CodecConfig::Mpeg2Video { width, height, .. } => (width, height),
        _ => (0u16, 0u16),
    }
}

/// Append the VisualSampleEntry fields.
fn push_visual_body(out: &mut Vec<u8>, width: u16, height: u16)
    ensures
        final(out)@ == old(out)@ + visual_body(width, height),
{
    let ghost start = out@;
    push_zeros(out, 6);
    push16(out, 1);
    push_zeros(out, 16);
    push16(out, width);
    push16(out, height);
    push32(out, 0x0048_0000);
    push32(out, 0x0048_0000);
    push_zeros(out, 4);
    push16(out, 1);
    push_zeros(out, 32);
    push16(out, 0x0018);
    push16(out, 0xFFFF);
    assert(out@ =~= start + visual_body(width, height));
}

/// A video sample entry of type `typ` carrying `cfg`.
fn make_video_entry(typ: [u8; 4], width: u16, height: u16, cfg: &OpaqueBox) -> (r: SampleEntryVariant)
    ensures
        r@ == video_entry(typ@, width, height, cfg@),
{
    let mut data: Vec<u8> = Vec::new();
    push_visual_body(&mut data, width, height);
    cfg.write_to(&mut data);
    SampleEntryVariant::Unknown(OpaqueBox { box_type: typ, data })
}

/// The audio fields of an entry carrying `cfg`.
fn make_audio_fields(cc: u16, sr: u32, ss: u16, cfg: OpaqueBox) -> (r: Mp4aSampleEntry)
    ensures
        r@ == audio_fields(cc, sr, ss, cfg@),
{
    let ghost cv = cfg@;
    let mut config_boxes: Vec<OpaqueBox> = Vec::new();
    config_boxes.push(cfg);
    assert(config_boxes@.map_values(|o: OpaqueBox| o@) =~= seq![cv]);
    Mp4aSampleEntry { data_reference_index: 1, channelcount: cc, samplesize: ss, samplerate: sr << 16u32, config_boxes }
}

/// An audio sample entry of type `typ` with the `mp4a` layout, carrying
/// `cfg`.
fn make_audio_entry(typ: [u8; 4], cc: u16, sr: u32, ss: u16, cfg: OpaqueBox) -> (r: SampleEntryVariant)
    ensures
        r@ == audio_entry(typ@, cc, sr, ss, cfg@),
{
    let e = make_audio_fields(cc, sr, ss, cfg);
    let mut data: Vec<u8> = Vec::new();
    push_zeros(&mut data, 6);
    push16(&mut data, e.data_reference_index);
    push_zeros(&mut data, 8);
    push16(&mut data, e.channelcount);
    push16(&mut data, e.samplesize);
    push_zeros(&mut data, 4);
    push32(&mut data, e.samplerate);
    let ghost mid = data@;
    crate::init_segment::push_opaques_pub(&mut data, &e.config_boxes);
    assert(data@ =~= audio_body(e@));
    SampleEntryVariant::Unknown(OpaqueBox { box_type: typ, data })
}

/// The `esds` box of `e` as a configuration box.
fn make_esds_cfg(e: &EsdsBox) -> (r: OpaqueBox)
    requires
        esds_bytes(e.es_descriptor@).len() <= usize::MAX,
    ensures
        r@ == esds_cfg(*e),
{
    let b = e.to_bytes();
    assert(b@.len() >= 8) by {
        reveal_with_fuel(crate::box_types::box_head, 1);
    }
    let data = copy_range(b.as_slice(), 8, b.len());
    assert(b@.subrange(8, b@.len() as int) =~= b@.skip(8));
    OpaqueBox { box_type: ESDS_BOX, data }
}

/// The sample entry of a codec configuration.
fn make_entry(c: &CodecConfig) -> (r: Result<SampleEntryVariant, Error>)
    requires
        config_fits(*c),
    ensures
        match spec_entry(*c) {
            Ok(v) => r matches Ok(x) && x@ == v,
            Err(e) => r == Err::<SampleEntryVariant, Error>(e),
        },
{
    reveal(spec_entry);
    match c {
        CodecConfig::Avc { config, width, height } => Ok(make_video_entry(AVC1, *width, *height, config)),
        CodecConfig::Hevc { config, width, height } => Ok(make_video_entry(HVC1, *width, *height, config)),
        CodecConfig::Vvc { config, width, height } => Ok(make_video_entry(VVC1, *width, *height, config)),
        CodecConfig::Av1 { config, width, height } => Ok(make_video_entry(AV01, *width, *height, config)),
        CodecConfig::Vp9 { config, width, height } => Ok(make_video_entry(VP09, *width, *height, config)),
        CodecConfig::Mpeg2Video { esds, width, height } => {
            let cfg = make_esds_cfg(esds);
            Ok(make_video_entry(MP4V, *width, *height, &cfg))
        },
        CodecConfig::Aac { esds, channel_count, sample_rate, sample_size } => {
            let cfg = make_esds_cfg(esds);
            Ok(SampleEntryVariant::Mp4a(Box::new(make_audio_fields(*channel_count, *sample_rate, *sample_size, cfg))))
        },
        CodecConfig::MpegAudio { esds, channel_count, sample_rate, sample_size, .. } => {
            let cfg = make_esds_cfg(esds);
            Ok(SampleEntryVariant::Mp4a(Box::new(make_audio_fields(*channel_count, *sample_rate, *sample_size, cfg))))
        },
        CodecConfig::Ac3 { config, channel_count, sample_rate, sample_size } => Ok(
            make_audio_entry(AC_3, *channel_count, *sample_rate, *sample_size, config.clone_box()),
        ),
        CodecConfig::Eac3 { config, channel_count, sample_rate, sample_size } => Ok(
            make_audio_entry(EC_3, *channel_count, *sample_rate, *sample_size, config.clone_box()),
        ),
        CodecConfig::Opus { config, channel_count, sample_rate, sample_size } => Ok(
            make_audio_entry(OPUS_FOURCC, *channel_count, *sample_rate, *sample_size, OpaqueBox::new(DOPS_FOURCC, config.to_bytes())),
        ),
        CodecConfig::Flac { config, channel_count, sample_rate, sample_size } => Ok(
            make_audio_entry(FLAC, *channel_count, *sample_rate, *sample_size, config.clone_box()),
        ),
        CodecConfig::Ac4 { config, channel_count, sample_rate, sample_size } => Ok(
            make_audio_entry(AC_4, *channel_count, *sample_rate, *sample_size, config.clone_box()),
        ),
        CodecConfig::MpegH { config, channel_count, sample_rate, sample_size } => Ok(
            make_audio_entry(MHA1_FOURCC, *channel_count, *sample_rate, *sample_size, OpaqueBox::new(MHAC_FOURCC, config.to_bytes())),
        ),
        CodecConfig::Dts { config, codec_fourcc, channel_count, sample_rate, sample_size } => Ok(
            make_audio_entry(*codec_fourcc, *channel_count, *sample_rate, *sample_size, config.clone_box()),
        ),
        CodecConfig::Vp8 { .. } => Err(Error::UnsupportedCodec { codec: "VP8" }),
        CodecConfig::Vorbis { .. } => Err(Error::UnsupportedCodec { codec: "Vorbis" }),
        CodecConfig::Data { .. } => Err(Error::UnsupportedCodec { codec: "Data" }),
        CodecConfig::Subtitle { .. } => Err(Error::UnsupportedCodec { codec: "Subtitle" }),
    }
}

// ---------------------------------------------------------------------------
// trak
// ---------------------------------------------------------------------------

/// An empty `stts` (version 0, no entries), as written.
pub open spec fn empty_stts_bytes() -> Seq<u8> {
    full_head(16, STTS@, 0, 0) + be32(0)
}

/// The sample table of a fragmented-init track: its one sample entry, then
/// empty `stts`, `stsc`, `stsz` and `stco`.
pub open spec fn stbl_view(entry: EntryView) -> Seq<StblChildView> {
    seq![
        StblChildView::Stsd((0u8, 0u32, seq![entry])),
        StblChildView::Opaque(empty_stts_bytes()),
        StblChildView::Stsc((0u8, 0u32, Seq::empty())),
        StblChildView::Stsz((0u8, 0u32, 0u32, Seq::empty())),
        StblChildView::Stco((0u8, 0u32, Seq::empty())),
    ]
}

/// A `dinf` with one self-contained `url ` data reference.
pub open spec fn dinf_view() -> DinfView {
    (Some((0u8, 0u32, seq![(0u8, 1u32, Seq::<u8>::empty())])), Seq::empty())
}

/// The media information of a track: `vmhd` for a visual entry, `smhd`
/// otherwise, then `dinf` and the sample table.
pub open spec fn minf_view(visual: bool, entry: EntryView) -> MinfView {
    (
        if visual { Some((0u8, 1u32, 0u16, seq![0u16, 0u16, 0u16])) } else { None },
        if visual { None } else { Some(SoundMediaHeaderBox { version: 0, flags: 0, balance: 0 }) },
        Some(dinf_view()),
        Some(stbl_view(entry)),
        Seq::empty(),
    )
}

/// The media box of a track.
pub open spec fn mdia_view(timescale: u32, visual: bool, entry: EntryView) -> MdiaView {
    (
        Some(MediaHeaderBox {
            version: 0,
            flags: 0,
            creation_time: 0,
            modification_time: 0,
            timescale,
            duration: 0,
            language: LANG_UND,
        }),
        Some((0u8, 0u32, if visual { VIDE@ } else { SOUN@ }, if visual { VIDEO_HANDLER_NAME@ } else { SOUND_HANDLER_NAME@ })),
        Some(minf_view(visual, entry)),
        Seq::empty(),
    )
}

/// The track header of a track: enabled in movie and preview, full volume
/// for audio, the coded size in 16.16 for a visual entry.
pub open spec fn tkhd_view(t: TrackSpec) -> TkhdView {
    let d = entry_dims(t.config);
    let visual = visual_entry(t.config);
    (
        0u8,
        TKHD_ENABLED_IN_MOVIE,
        0u64,
        0u64,
        t.track_id,
        0u64,
        0i16,
        0i16,
        if t.config.spec_is_audio() { 0x0100i16 } else { 0i16 },
        IDENTITY_MATRIX@,
        if visual { (d.0 as u32) << 16u32 } else { 0u32 },
        if visual { (d.1 as u32) << 16u32 } else { 0u32 },
    )
}

/// The fragmented-init `trak` of a track spec, or the error for a codec
/// with no ISOBMFF sample entry.
#[verifier::opaque]
pub open spec fn spec_trak(t: TrackSpec) -> Result<TrakView, Error> {
    match spec_entry(t.config) {
        Err(e) => Err(e),
        Ok(entry) => Ok((tkhd_view(t), None, Some(mdia_view(t.timescale, visual_entry(t.config), entry)), Seq::empty())),
    }
}

fn identity_matrix() -> (r: [i32; 9])
    ensures
        r@ == IDENTITY_MATRIX@,
{
    IDENTITY_MATRIX
}

fn handler_name(visual: bool) -> (r: Vec<u8>)
    ensures
        r@ == (if visual { VIDEO_HANDLER_NAME@ } else { SOUND_HANDLER_NAME@ }),
{
    let mut out: Vec<u8> = Vec::new();
    if visual {
        push_all(&mut out, &VIDEO_HANDLER_NAME);
    } else {
        push_all(&mut out, &SOUND_HANDLER_NAME);
    }
    assert(out@ =~= (if visual { VIDEO_HANDLER_NAME@ } else { SOUND_HANDLER_NAME@ }));
    out
}

fn empty_stts() -> (r: Vec<u8>)
    ensures
        r@ == empty_stts_bytes(),
{
    let mut out: Vec<u8> = Vec::new();
    push32(&mut out, 16);
    push_all(&mut out, &STTS);
    out.push(0u8);
    crate::bytes::push24(&mut out, 0);
    push32(&mut out, 0);
    assert(out@ =~= empty_stts_bytes());
    out
}

fn build_stbl(entry: SampleEntryVariant) -> (r: SampleTableBox)
    ensures
        r@ == stbl_view(entry@),
{
    let ghost ev = entry@;
    let mut entries: Vec<SampleEntryVariant> = Vec::new();
    entries.push(entry);
    assert(entries@.map_values(|e: SampleEntryVariant| e@) =~= seq![ev]);
    let stsd = SampleDescriptionBox { version: 0, flags: 0, entries };
    let stsc = SampleToChunkBox { version: 0, flags: 0, entries: Vec::new() };
    let stsz = SampleSizeBox { version: 0, flags: 0, sample_size: 0, entries: Vec::new() };
    let stco = ChunkOffsetBox { version: 0, flags: 0, entries: Vec::new() };
    let mut children: Vec<StblChild> = Vec::new();
    children.push(StblChild::Stsd(stsd));
    children.push(StblChild::Opaque(empty_stts()));
    children.push(StblChild::Stsc(stsc));
    children.push(StblChild::Stsz(stsz));
    children.push(StblChild::Stco(stco));
    let r = SampleTableBox { children };
    assert(r@ =~= stbl_view(ev));
    r
}

fn build_dinf() -> (r: DataInformationBox)
    ensures
        r@ == dinf_view(),
{
    let url = DataEntryUrlBox { version: 0, flags: 1, location: Vec::new() };
    let ghost uv = url@;
    assert(uv.2 =~= Seq::<u8>::empty());
    let mut entries: Vec<DataEntryUrlBox> = Vec::new();
    entries.push(url);
    assert(entries@.map_values(|e: DataEntryUrlBox| e@) =~= seq![(0u8, 1u32, Seq::<u8>::empty())]);
    let r = DataInformationBox { dref: Some(DataReferenceBox { version: 0, flags: 0, entries }), opaque: Vec::new() };
    assert(r@.1 =~= Seq::<(Seq<u8>, Seq<u8>)>::empty());
    r
}

/// Build one fragmented-init `trak`: empty sample tables and a single
/// sample entry for the track's codec.
pub fn build_trak(t: &TrackSpec) -> (r: Result<TrackBox, Error>)
    requires
        config_fits(t.config),
    ensures
        match spec_trak(*t) {
            Ok(v) => r matches Ok(x) && x@ == v,
            Err(e) => r == Err::<TrackBox, Error>(e),
        },
{
    reveal(spec_trak);
    let entry = match make_entry(&t.config) {
        Ok(e) => e,
        Err(e) => {
            return Err(e);
        },
    };
    let ghost ev = entry@;
    let audio = t.config.is_audio();
    let visual = match &t.config {
        CodecConfig::Avc { .. } | CodecConfig::Hevc { .. } | CodecConfig::Vvc { .. } | CodecConfig::Av1 { .. }
        | CodecConfig::Vp9 { .. } | CodecConfig::Mpeg2Video { .. } => true,
        _ => false,
    };
    let (w, h): (u16, u16) = match &t.config {
        CodecConfig::Avc { width, height, .. } => (*width, *height),
        CodecConfig::Hevc { width, height, .. } => (*width, *height),
        CodecConfig::Vvc { width, height, .. } => (*width, *height),
        CodecConfig::Av1 { width, height, .. } => (*width, *height),
        CodecConfig::Vp9 { width, height, .. } => (*width, *height),
        CodecConfig::Mpeg2Video { width, height, .. } => (*width, *height),
        _ => (0, 0),
    };
    let stbl = build_stbl(entry);
    let minf = MediaInformationBox {
        vmhd: if visual {
            Some(VideoMediaHeaderBox { version: 0, flags: 1, graphicsmode: 0, opcolor: [0, 0, 0] })
        } else {
            None
        },
        smhd: if visual {
            None
        } else {
            Some(SoundMediaHeaderBox { version: 0, flags: 0, balance: 0 })
        },
        dinf: Some(build_dinf()),
        stbl: Some(stbl),
        opaque: Vec::new(),
    };
    proof {
        if visual {
            let vm = minf.vmhd->0;
            assert(vm.opcolor@ =~= seq![0u16, 0u16, 0u16]);
        }
    }
    let hdlr = HandlerBox {
        version: 0,
        flags: 0,
        handler_type: if visual { VIDE } else { SOUN },
        name: handler_name(visual),
    };
    let mdhd = MediaHeaderBox {
        version: 0,
        flags: 0,
        creation_time: 0,
        modification_time: 0,
        timescale: t.timescale,
        duration: 0,
        language: LANG_UND,
    };
    let mdia = MediaBox { mdhd: Some(mdhd), hdlr: Some(hdlr), minf: Some(minf), opaque: Vec::new() };
    let tkhd = TrackHeaderBox {
        version: 0,
        flags: TKHD_ENABLED_IN_MOVIE,
        creation_time: 0,
        modification_time: 0,
        track_id: t.track_id,
        duration: 0,
        layer: 0,
        alternate_group: 0,
        volume: if audio { 0x0100 } else { 0 },
        matrix: identity_matrix(),
        width: if visual { (w as u32) << 16u32 } else { 0 },
        height: if visual { (h as u32) << 16u32 } else { 0 },
    };
    let r = TrackBox { tkhd, edts: None, mdia: Some(mdia), opaque: Vec::new() };
    proof {
        let rv = r@;
        assert(rv.3 =~= Seq::<(Seq<u8>, Seq<u8>)>::empty());
        let md = rv.2->0;
        assert(md.3 =~= Seq::<(Seq<u8>, Seq<u8>)>::empty());
        let mi = md.2->0;
        assert(mi.4 =~= Seq::<(Seq<u8>, Seq<u8>)>::empty());
        assert(r@.2 == Some(mdia_view(t.timescale, visual_entry(t.config), ev)));
    }
    Ok(r)
}

// ---------------------------------------------------------------------------
// Initialisation segment
// ---------------------------------------------------------------------------

/// Box type `ftyp`.
pub const FTYP: [u8; 4] = [0x66, 0x74, 0x79, 0x70];
/// Brands `iso5`, `iso6`, `mp41`.
pub const ISO5: [u8; 4] = [0x69, 0x73, 0x6F, 0x35];
pub const ISO6: [u8; 4] = [0x69, 0x73, 0x6F, 0x36];
pub const MP41: [u8; 4] = [0x6D, 0x70, 0x34, 0x31];

/// The `ftyp` of an initialisation segment: major brand `iso5`, minor
/// version 512, compatible `iso5`, `iso6`, `mp41`.
pub open spec fn init_ftyp_bytes() -> Seq<u8> {
    box_head(28, FTYP@) + ISO5@ + be32(512) + ISO5@ + ISO6@ + MP41@
}

/// The largest track ID of `ts` (0 for none).
pub open spec fn max_track_id(ts: Seq<TrackSpec>) -> nat
    decreases ts.len(),
{
    if ts.len() == 0 {
        0
    } else {
        let m = max_track_id(ts.drop_last());
        if ts.last().track_id > m { ts.last().track_id as nat } else { m }
    }
}

/// The `trex` defaults written for a track: description 1, everything else 0.
pub open spec fn trex_for(track_id: u32) -> TrackExtendsBox {
    TrackExtendsBox {
        version: 0,
        flags: 0,
        track_id,
        default_sample_description_index: 1,
        default_sample_duration: 0,
        default_sample_size: 0,
        default_sample_flags: 0,
    }
}

/// The `trak`s and `trex`es of `ts`, in order, opaque data tracks left out;
/// the first track whose codec has no sample entry fails the whole.
pub open spec fn init_traks(ts: Seq<TrackSpec>) -> Result<(Seq<TrakView>, Seq<TrackExtendsBox>), Error>
    decreases ts.len(),
{
    if ts.len() == 0 {
        Ok((Seq::empty(), Seq::empty()))
    } else {
        match init_traks(ts.drop_last()) {
            Err(e) => Err(e),
            Ok((a, b)) => {
                let t = ts.last();
                if t.config is Data {
                    Ok((a, b))
                } else {
                    match spec_trak(t) {
                        Err(e) => Err(e),
                        Ok(v) => Ok((a.push(v), b.push(trex_for(t.track_id)))),
                    }
                }
            },
        }
    }
}

/// The movie header of an initialisation segment.
pub open spec fn init_mvhd(movie_timescale: u32, next_track_id: u32) -> MvhdView {
    (0u8, 0u32, 0u64, 0u64, movie_timescale, 0u64, 0x0001_0000u32, 0x0100u16, IDENTITY_MATRIX@, next_track_id)
}

/// The initialisation segment of `ts`: `ftyp`, then a `moov` with the movie
/// header, one `trak` per carriable track and an `mvex` with their `trex`es.
pub open spec fn spec_init_segment(ts: Seq<TrackSpec>, movie_timescale: u32) -> Result<Seq<u8>, Error> {
    match init_traks(ts) {
        Err(e) => Err(e),
        Ok((traks, trexs)) => Ok(init_ftyp_bytes() + moov_bytes(
            (init_mvhd(movie_timescale, (max_track_id(ts) + 1) as u32), traks, Some((trexs, Seq::empty())), Seq::empty()),
        )),
    }
}

proof fn lemma_max_track_id_bound(ts: Seq<TrackSpec>, i: int)
    requires
        0 <= i < ts.len(),
    ensures
        ts[i].track_id <= max_track_id(ts),
    decreases ts.len(),
{
    if i < ts.len() - 1 {
        lemma_max_track_id_bound(ts.drop_last(), i);
    }
}

/// A value that carries a track's identity and codec configuration.
pub trait HasTrackSpec {
    spec fn spec_of(&self) -> TrackSpec;

    fn track_spec(&self) -> (r: &TrackSpec)
        ensures
            *r == self.spec_of(),
    ;
}

impl HasTrackSpec for TrackSpec {
    open spec fn spec_of(&self) -> TrackSpec {
        *self
    }

    fn track_spec(&self) -> (r: &TrackSpec) {
        self
    }
}

impl HasTrackSpec for crate::ir::track::Track {
    open spec fn spec_of(&self) -> TrackSpec {
        self.spec
    }

    fn track_spec(&self) -> (r: &TrackSpec) {
        &self.spec
    }
}

impl<'a> HasTrackSpec for &'a crate::ir::track::Track {
    open spec fn spec_of(&self) -> TrackSpec {
        self.spec
    }

    fn track_spec(&self) -> (r: &TrackSpec) {
        &self.spec
    }
}

/// The track specs that the values of `s` carry.
pub open spec fn specs_of<T: HasTrackSpec>(s: Seq<T>) -> Seq<TrackSpec> {
    s.map_values(|t: T| t.spec_of())
}

/// The largest track ID of `tracks` (0 for none).
fn max_id<T: HasTrackSpec>(tracks: &[T]) -> (r: u32)
    ensures
        r == max_track_id(specs_of(tracks@)),
{
    let ghost ss = specs_of(tracks@);
    let mut m: u32 = 0;
    let mut i: usize = 0;
    while i < tracks.len()
        invariant
            i <= tracks@.len(),
            ss == specs_of(tracks@),
            m == max_track_id(ss.take(i as int)),
        decreases tracks@.len() - i,
    {
        assert(ss.take(i + 1int).drop_last() =~= ss.take(i as int));
        let t = tracks[i].track_spec();
        assert(ss.take(i + 1int).last() == *t);
        if t.track_id > m {
            m = t.track_id;
        }
        i += 1;
    }
    assert(ss.take(i as int) =~= ss);
    m
}

fn build_traks<T: HasTrackSpec>(tracks: &[T]) -> (r: Result<(Vec<TrackBox>, Vec<TrackExtendsBox>), Error>)
    requires
        forall|i: int| 0 <= i < tracks@.len() ==> config_fits(#[trigger] specs_of(tracks@)[i].config),
    ensures
        match init_traks(specs_of(tracks@)) {
            Ok((a, b)) => r matches Ok((x, y)) && x@.map_values(|t: TrackBox| t@) == a && y@ == b,
            Err(e) => r is Err && r->Err_0 == e,
        },
{
    let ghost ss = specs_of(tracks@);
    let mut traks: Vec<TrackBox> = Vec::new();
    let mut trex: Vec<TrackExtendsBox> = Vec::new();
    let mut k: usize = 0;
    assert(traks@.map_values(|x: TrackBox| x@) =~= Seq::<TrakView>::empty());
    assert(trex@ =~= Seq::<TrackExtendsBox>::empty());
    while k < tracks.len()
        invariant
            k <= tracks@.len(),
            ss == specs_of(tracks@),
            forall|j: int| 0 <= j < tracks@.len() ==> config_fits(#[trigger] ss[j].config),
            init_traks(ss.take(k as int)) == Ok::<(Seq<TrakView>, Seq<TrackExtendsBox>), Error>(
                (traks@.map_values(|x: TrackBox| x@), trex@),
            ),
        decreases tracks@.len() - k,
    {
        let t = tracks[k].track_spec();
        assert(ss.take(k + 1int).drop_last() =~= ss.take(k as int));
        assert(ss.take(k + 1int).last() == ss[k as int]);
        if t.config.is_opaque_data() {
            k += 1;
            continue;
        }
        assert(config_fits(ss[k as int].config));
        match build_trak(t) {
            Ok(tb) => {
                let ghost prev = traks@;
                let ghost tv = tb@;
                traks.push(tb);
                assert(traks@.map_values(|x: TrackBox| x@) =~= prev.map_values(|x: TrackBox| x@).push(tv));
                trex.push(TrackExtendsBox {
                    version: 0,
                    flags: 0,
                    track_id: t.track_id,
                    default_sample_description_index: 1,
                    default_sample_duration: 0,
                    default_sample_size: 0,
                    default_sample_flags: 0,
                });
            },
            Err(e) => {
                proof {
                    assert(init_traks(ss.take(k + 1int)) == Err::<(Seq<TrakView>, Seq<TrackExtendsBox>), Error>(e));
                    lemma_init_traks_err(ss, k + 1, e);
                }
                return Err(e);
            },
        }
        k += 1;
    }
    assert(ss.take(k as int) =~= ss);
    Ok((traks, trex))
}

/// Append the initialisation segment's `ftyp`.
fn write_init_ftyp(out: &mut Vec<u8>)
    ensures
        final(out)@ == old(out)@ + init_ftyp_bytes(),
{
    let ghost start = out@;
    push32(out, 28);
    push_all(out, &FTYP);
    push_all(out, &ISO5);
    push32(out, 512);
    push_all(out, &ISO5);
    push_all(out, &ISO6);
    push_all(out, &MP41);
    assert(out@ =~= start + init_ftyp_bytes());
}

/// Build a CMAF initialisation segment for `tracks`: `ftyp` plus a
/// fragmented-init `moov` (empty sample tables, one `trex` per track).
/// Opaque data tracks are left out; a VP8 or Vorbis track is refused.
pub fn build_init_segment(tracks: &[TrackSpec], movie_timescale: u32) -> (r: Result<Vec<u8>, Error>)
    requires
        max_track_id(tracks@) < u32::MAX,
        forall|i: int| 0 <= i < tracks@.len() ==> config_fits(#[trigger] tracks@[i].config),
    ensures
        match spec_init_segment(tracks@, movie_timescale) {
            Ok(b) => r matches Ok(x) && x@ == b,
            Err(e) => r == Err::<Vec<u8>, Error>(e),
        },
{
    assert(specs_of(tracks@) =~= tracks@);
    init_segment_of(tracks, movie_timescale)
}

/// The initialisation segment of the track specs that `tracks` carry.
pub(crate) fn init_segment_of<T: HasTrackSpec>(tracks: &[T], movie_timescale: u32) -> (r: Result<Vec<u8>, Error>)
    requires
        max_track_id(specs_of(tracks@)) < u32::MAX,
        forall|i: int| 0 <= i < tracks@.len() ==> config_fits(#[trigger] specs_of(tracks@)[i].config),
    ensures
        match spec_init_segment(specs_of(tracks@), movie_timescale) {
            Ok(b) => r matches Ok(x) && x@ == b,
            Err(e) => r == Err::<Vec<u8>, Error>(e),
        },
{
    let m = max_id(tracks);
    let next_track_id = m + 1;
    let (traks, trex) = match build_traks(tracks) {
        Ok(p) => p,
        Err(e) => {
            return Err(e);
        },
    };
    let mvhd = MovieHeaderBox {
        version: 0,
        flags: 0,
        creation_time: 0,
        modification_time: 0,
        timescale: movie_timescale,
        duration: 0,
        rate: 0x0001_0000,
        volume: 0x0100,
        matrix: identity_matrix(),
        next_track_id,
    };
    let moov = MovieBox {
        mvhd,
        tracks: traks,
        mvex: Some(MovieExtendsBox { trex, opaque: Vec::new() }),
        opaque: Vec::new(),
    };
    let mut out: Vec<u8> = Vec::new();
    write_init_ftyp(&mut out);
    moov.write_to(&mut out);
    proof {
        let mv = moov@;
        assert(mv.3 =~= Seq::<(Seq<u8>, Seq<u8>)>::empty());
        let ex = mv.2->0;
        assert(ex.1 =~= Seq::<(Seq<u8>, Seq<u8>)>::empty());
        assert(mv.0 =~~= init_mvhd(movie_timescale, (max_track_id(specs_of(tracks@)) + 1) as u32));
        let it = init_traks(specs_of(tracks@))->Ok_0;
        assert(mv =~~= (init_mvhd(movie_timescale, (max_track_id(specs_of(tracks@)) + 1) as u32), it.0, Some((it.1, Seq::<(Seq<u8>, Seq<u8>)>::empty())), Seq::<(Seq<u8>, Seq<u8>)>::empty()));
    }
    Ok(out)
}

/// A failure on a prefix is the failure of the whole.
proof fn lemma_init_traks_err(ts: Seq<TrackSpec>, k: int, e: Error)
    requires
        0 <= k <= ts.len(),
        init_traks(ts.take(k)) == Err::<(Seq<TrakView>, Seq<TrackExtendsBox>), Error>(e),
    ensures
        init_traks(ts) == Err::<(Seq<TrakView>, Seq<TrackExtendsBox>), Error>(e),
    decreases ts.len() - k,
{
    if k < ts.len() {
        assert(ts.take(k + 1).drop_last() =~= ts.take(k));
        lemma_init_traks_err(ts, k + 1, e);
    } else {
        assert(ts.take(k) =~= ts);
    }
}

// ---------------------------------------------------------------------------
// Media segments
// ---------------------------------------------------------------------------

/// Box types `styp`, `mdat` and brands `msdh`, `msix`.
pub const STYP: [u8; 4] = [0x73, 0x74, 0x79, 0x70];
pub const MDAT: [u8; 4] = [0x6D, 0x64, 0x61, 0x74];
/// The `emsg` box type (ISO/IEC 23009-1 §5.10.3.3).
pub const EMSG: [u8; 4] = [0x65, 0x6D, 0x73, 0x67];
pub const MSDH: [u8; 4] = [0x6D, 0x73, 0x64, 0x68];
pub const MSIX: [u8; 4] = [0x6D, 0x73, 0x69, 0x78];

/// The `styp` of a media segment: major brand `msdh`, minor version 0,
/// compatible `msdh`, `msix`.
pub open spec fn seg_styp_bytes() -> Seq<u8> {
    box_head(24, STYP@) + MSDH@ + be32(0) + MSDH@ + MSIX@
}

/// A track's samples for one segment: `(track_id, base decode time,
/// samples)`.
pub type FragView = (u32, u64, Seq<Sample>);

/// The model of a fragment's track data.
pub open spec fn frag_view(f: FragmentTrackData) -> FragView {
    (f.track_id, f.base_media_decode_time, f.samples@)
}

/// A sample's composition offset: presentation minus decode time when it
/// has both, 0 otherwise.
pub open spec fn comp_offset(s: Sample) -> int {
    match (s.dts, s.pts) {
        (Some(d), Some(p)) => p - d,
        _ => 0,
    }
}

/// Some sample of the run has a non-zero composition offset.
pub open spec fn any_cts(ss: Seq<Sample>) -> bool {
    exists|i: int| 0 <= i < ss.len() && comp_offset(#[trigger] ss[i]) != 0
}

/// The `trun` record of a sample: duration (0 when unknown), size, sync
/// flags, and the composition offset when any sample of the run has one.
pub open spec fn trun_record(s: Sample, cts: bool) -> TrunSample {
    TrunSample {
        sample_duration: Some(match s.duration { Some(d) => d, None => 0u32 }),
        sample_size: Some(s.data@.len() as u32),
        sample_flags: Some(if s.is_sync { SAMPLE_FLAGS_SYNC } else { SAMPLE_FLAGS_NON_SYNC }),
        sample_composition_time_offset: if cts { Some(comp_offset(s) as i32) } else { None },
    }
}

/// The `trun` flags: data offset, duration, size and flags present, plus
/// composition offsets when any sample has one.
pub open spec fn seg_trun_flags(cts: bool) -> u32 {
    if cts { 0x0000_0F01 } else { 0x0000_0701 }
}

/// The run of a fragment's samples with data offset `off`: version 1
/// (signed offsets) when composition offsets are carried.
pub open spec fn seg_trun(ss: Seq<Sample>, off: i32) -> TrunView {
    let cts = any_cts(ss);
    (if cts { 1u8 } else { 0u8 }, seg_trun_flags(cts), Some(off), None, ss.map_values(|s: Sample| trun_record(s, cts)))
}

/// The track fragment of `f` with data offset `off`.
pub open spec fn seg_traf(f: FragView, off: i32) -> TrafView {
    (
        TrackFragmentHeaderBox {
            flags: TFHD_DEFAULT_BASE_IS_MOOF,
            track_id: f.0,
            base_data_offset: None,
            sample_description_index: None,
            default_sample_duration: None,
            default_sample_size: None,
            default_sample_flags: None,
        },
        Some((1u8, f.1)),
        seq![seg_trun(f.2, off)],
    )
}

/// The bytes of a run of samples, concatenated.
pub open spec fn samples_data(ss: Seq<Sample>) -> Seq<u8>
    decreases ss.len(),
{
    if ss.len() == 0 {
        Seq::empty()
    } else {
        samples_data(ss.drop_last()) + ss.last().data@
    }
}

/// The sample bytes of the first `i` fragments, concatenated in order.
pub open spec fn frags_data(fs: Seq<FragView>, i: int) -> Seq<u8>
    decreases i,
{
    if i <= 0 {
        Seq::empty()
    } else {
        frags_data(fs, i - 1) + samples_data(fs[i - 1].2)
    }
}

/// The `moof` with every data offset 0, whose size fixes the real offsets.
pub open spec fn placeholder_moof(seq: u32, fs: Seq<FragView>) -> MoofView {
    (seq, Seq::new(fs.len(), |i: int| seg_traf(fs[i], 0)))
}

/// The `moof` whose runs point into the `mdat` that follows it: fragment
/// `i`'s data starts after the `moof`, the `mdat` header and the data of
/// the fragments before it.
pub open spec fn seg_moof(seq: u32, fs: Seq<FragView>) -> MoofView {
    let base = moof_bytes(placeholder_moof(seq, fs)).len() + 8;
    (seq, Seq::new(fs.len(), |i: int| seg_traf(fs[i], (base + frags_data(fs, i).len()) as i32)))
}

/// A media segment: `styp`, the `moof`, then one `mdat` holding every
/// sample's bytes in track order.
pub open spec fn spec_media_segment(seq: u32, fs: Seq<FragView>) -> Seq<u8> {
    spec_media_segment_with_events(seq, fs, Seq::empty())
}

/// The first `k` byte strings of `es`, concatenated.
pub open spec fn concat_boxes(es: Seq<Seq<u8>>, k: int) -> Seq<u8>
    decreases k,
{
    if k <= 0 {
        Seq::empty()
    } else {
        concat_boxes(es, k - 1) + es[k - 1]
    }
}

/// Whether `e` is exactly one `emsg` box: its 32-bit size is its length and
/// its type is `emsg`.
pub open spec fn is_emsg_box(e: Seq<u8>) -> bool {
    &&& e.len() >= 8
    &&& get32(e, 0) == e.len()
    &&& e.subrange(4, 8) == EMSG@
}

/// A media segment with inband events: `styp`, the `emsg` boxes in the
/// given order, the `moof`, then one `mdat` holding every sample's bytes in
/// track order.
pub open spec fn spec_media_segment_with_events(seq: u32, fs: Seq<FragView>, es: Seq<Seq<u8>>) -> Seq<u8> {
    let payload = frags_data(fs, fs.len() as int);
    seg_styp_bytes() + concat_boxes(es, es.len() as int) + moof_bytes(seg_moof(seq, fs)) + box_head(8 + payload.len(), MDAT@) + payload
}

/// The segment's offsets, composition offsets and sizes fit their fields
/// and memory.
pub open spec fn seg_fits(seq: u32, fs: Seq<FragView>) -> bool {
    &&& forall|i: int, k: int| 0 <= i < fs.len() && 0 <= k < fs[i].2.len() ==> i32::MIN <= #[trigger] comp_offset(fs[i].2[k]) <= i32::MAX
    &&& moof_bytes(placeholder_moof(seq, fs)).len() + 8 + frags_data(fs, fs.len() as int).len() <= usize::MAX
    &&& moof_bytes(seg_moof(seq, fs)).len() <= usize::MAX
}

/// The `trun` records of a run.
fn trun_records(ss: &[Sample]) -> (r: (Vec<TrunSample>, bool))
    requires
        forall|k: int| 0 <= k < ss@.len() ==> i32::MIN <= #[trigger] comp_offset(ss@[k]) <= i32::MAX,
    ensures
        r.1 == any_cts(ss@),
        r.0@ == ss@.map_values(|s: Sample| trun_record(s, any_cts(ss@))),
{
    let mut cts = false;
    let mut i: usize = 0;
    while i < ss.len()
        invariant
            i <= ss@.len(),
            cts == exists|j: int| 0 <= j < i && comp_offset(#[trigger] ss@[j]) != 0,
        decreases ss@.len() - i,
    {
        let s = &ss[i];
        let nz = match (s.dts, s.pts) {
            (Some(d), Some(p)) => d != p,
            _ => false,
        };
        if nz {
            cts = true;
        }
        i += 1;
        proof {
            if cts {
                assert(exists|j: int| 0 <= j < i && comp_offset(#[trigger] ss@[j]) != 0) by {
                    if nz {
                        assert(comp_offset(ss@[i - 1]) != 0);
                    }
                }
            } else {
                assert(comp_offset(ss@[i - 1]) == 0);
            }
        }
    }
    let mut out: Vec<TrunSample> = Vec::new();
    let mut k: usize = 0;
    while k < ss.len()
        invariant
            k <= ss@.len(),
            cts == any_cts(ss@),
            forall|q: int| 0 <= q < ss@.len() ==> i32::MIN <= #[trigger] comp_offset(ss@[q]) <= i32::MAX,
            out@ == ss@.take(k as int).map_values(|s: Sample| trun_record(s, cts)),
        decreases ss@.len() - k,
    {
        let s = &ss[k];
        let off: Option<i32> = if cts {
            assert(i32::MIN <= comp_offset(ss@[k as int]) <= i32::MAX);
            match (s.dts, s.pts) {
                (Some(d), Some(p)) => Some((p as i128 - d as i128) as i32),
                _ => Some(0),
            }
        } else {
            None
        };
        out.push(TrunSample {
            sample_duration: Some(match s.duration {
                Some(d) => d,
                None => 0,
            }),
            sample_size: Some(s.data.len() as u32),
            sample_flags: Some(if s.is_sync { SAMPLE_FLAGS_SYNC } else { SAMPLE_FLAGS_NON_SYNC }),
            sample_composition_time_offset: off,
        });
        k += 1;
        assert(out@ =~= ss@.take(k as int).map_values(|s: Sample| trun_record(s, cts)));
    }
    assert(ss@.take(k as int) =~= ss@);
    (out, cts)
}

/// Append the bytes of a run of samples.
fn push_samples_data(out: &mut Vec<u8>, ss: &[Sample])
    ensures
        final(out)@ == old(out)@ + samples_data(ss@),
{
    let ghost start = out@;
    let mut k: usize = 0;
    while k < ss.len()
        invariant
            k <= ss@.len(),
            out@ == start + samples_data(ss@.take(k as int)),
        decreases ss@.len() - k,
    {
        push_all(out, ss[k].data.as_slice());
        assert(ss@.take(k + 1int).drop_last() =~= ss@.take(k as int));
        k += 1;
        assert(out@ =~= start + samples_data(ss@.take(k as int)));
    }
    assert(ss@.take(k as int) =~= ss@);
}

/// The track fragment of `f` with data offset `off`.
fn build_traf(f: &FragmentTrackData, off: i32) -> (r: TrackFragmentBox)
    requires
        forall|k: int| 0 <= k < f.samples@.len() ==> i32::MIN <= #[trigger] comp_offset(f.samples@[k]) <= i32::MAX,
    ensures
        r@ == seg_traf(frag_view(*f), off),
{
    let (samples, cts) = trun_records(f.samples);
    let trun = TrackFragmentRunBox {
        version: if cts { 1 } else { 0 },
        tr_flags: if cts { 0x0000_0F01 } else { 0x0000_0701 },
        data_offset: Some(off),
        first_sample_flags: None,
        samples,
    };
    let ghost rv = trun@;
    let mut runs: Vec<TrackFragmentRunBox> = Vec::new();
    runs.push(trun);
    assert(runs@.map_values(|r: TrackFragmentRunBox| r@) =~= seq![rv]);
    TrackFragmentBox {
        tfhd: TrackFragmentHeaderBox {
            flags: TFHD_DEFAULT_BASE_IS_MOOF,
            track_id: f.track_id,
            base_data_offset: None,
            sample_description_index: None,
            default_sample_duration: None,
            default_sample_size: None,
            default_sample_flags: None,
        },
        tfdt: Some(TrackFragmentBaseMediaDecodeTimeBox::new_v1(f.base_media_decode_time)),
        trun: runs,
    }
}

/// The `moof` of the fragments, every run pointing at `base` plus the data
/// of the fragments before it.
fn build_moof(sequence_number: u32, tracks: &[FragmentTrackData], base: usize, zero: bool) -> (r: MovieFragmentBox)
    requires
        forall|i: int, k: int| 0 <= i < tracks@.len() && 0 <= k < tracks@[i].samples@.len() ==> i32::MIN <= #[trigger] comp_offset(tracks@[i].samples@[k]) <= i32::MAX,
        !zero ==> base + frags_data(tracks@.map_values(|f: FragmentTrackData| frag_view(f)), tracks@.len() as int).len() <= usize::MAX,
    ensures
        r@ == (sequence_number, Seq::new(tracks@.len(), |i: int| seg_traf(frag_view(tracks@[i]), if zero { 0i32 } else { (base + frags_data(tracks@.map_values(|f: FragmentTrackData| frag_view(f)), i).len()) as i32 }))),
{
    let ghost fs = tracks@.map_values(|f: FragmentTrackData| frag_view(f));
    let mut trafs: Vec<TrackFragmentBox> = Vec::new();
    let mut cursor = base;
    let mut i: usize = 0;
    while i < tracks.len()
        invariant
            i <= tracks@.len(),
            fs == tracks@.map_values(|f: FragmentTrackData| frag_view(f)),
            forall|a: int, k: int| 0 <= a < tracks@.len() && 0 <= k < tracks@[a].samples@.len() ==> i32::MIN <= #[trigger] comp_offset(tracks@[a].samples@[k]) <= i32::MAX,
            !zero ==> base + frags_data(fs, tracks@.len() as int).len() <= usize::MAX,
            !zero ==> cursor == base + frags_data(fs, i as int).len(),
            trafs@.map_values(|t: TrackFragmentBox| t@) == Seq::new(i as nat, |j: int| seg_traf(frag_view(tracks@[j]), if zero { 0i32 } else { (base + frags_data(fs, j).len()) as i32 })),
        decreases tracks@.len() - i,
    {
        let f = &tracks[i];
        assert forall|k: int| 0 <= k < f.samples@.len() implies i32::MIN <= #[trigger] comp_offset(f.samples@[k]) <= i32::MAX by {
            assert(i32::MIN <= comp_offset(tracks@[i as int].samples@[k]) <= i32::MAX);
        }
        let off: i32 = if zero { 0 } else { cursor as i32 };
        let t = build_traf(f, off);
        let ghost prev = trafs@;
        let ghost tv = t@;
        trafs.push(t);
        assert(trafs@.map_values(|t: TrackFragmentBox| t@) =~= prev.map_values(|t: TrackFragmentBox| t@).push(tv));
        if !zero {
            proof {
                lemma_frags_data_mono(fs, i as int + 1, tracks@.len() as int);
                assert(fs[i as int] == frag_view(tracks@[i as int]));
                lemma_samples_data_len(f.samples@);
            }
            cursor = cursor + samples_len(f.samples);
        }
        i += 1;
        assert(trafs@.map_values(|t: TrackFragmentBox| t@) =~= Seq::new(i as nat, |j: int| seg_traf(frag_view(tracks@[j]), if zero { 0i32 } else { (base + frags_data(fs, j).len()) as i32 })));
    }
    MovieFragmentBox { mfhd: MovieFragmentHeaderBox::new(sequence_number), traf: trafs }
}

/// Total bytes of a run of samples.
fn samples_len(ss: &[Sample]) -> (r: usize)
    requires
        samples_data(ss@).len() <= usize::MAX,
    ensures
        r == samples_data(ss@).len(),
{
    let mut n: usize = 0;
    let mut k: usize = 0;
    while k < ss.len()
        invariant
            k <= ss@.len(),
            samples_data(ss@).len() <= usize::MAX,
            n == samples_data(ss@.take(k as int)).len(),
        decreases ss@.len() - k,
    {
        assert(ss@.take(k + 1int).drop_last() =~= ss@.take(k as int));
        proof {
            lemma_samples_data_prefix(ss@, k as int + 1);
        }
        n = n + ss[k].data.len();
        k += 1;
    }
    assert(ss@.take(k as int) =~= ss@);
    n
}

proof fn lemma_samples_data_len(ss: Seq<Sample>)
    ensures
        samples_data(ss).len() >= 0,
{
}

/// A prefix of a run carries no more bytes than the run.
proof fn lemma_samples_data_prefix(ss: Seq<Sample>, k: int)
    requires
        0 <= k <= ss.len(),
    ensures
        samples_data(ss.take(k)).len() <= samples_data(ss).len(),
    decreases ss.len() - k,
{
    if k < ss.len() {
        lemma_samples_data_prefix(ss, k + 1);
        assert(ss.take(k + 1).drop_last() =~= ss.take(k));
    } else {
        assert(ss.take(k) =~= ss);
    }
}

/// The data of the first `i` fragments is no more than that of the first
/// `j`.
proof fn lemma_frags_data_mono(fs: Seq<FragView>, i: int, j: int)
    requires
        0 <= i <= j <= fs.len(),
    ensures
        frags_data(fs, i).len() <= frags_data(fs, j).len(),
    decreases j - i,
{
    if i < j {
        lemma_frags_data_mono(fs, i, j - 1);
    }
}

/// Build one CMAF media segment (`styp` + `moof` + `mdat`) carrying the
/// given per-track samples; each run's data offset is computed from the
/// finished `moof` size, against the `default-base-is-moof` base. The same
/// bytes as [`build_media_segment_with_events`] with no events.
pub fn build_media_segment(sequence_number: u32, tracks: &[FragmentTrackData]) -> (r: Result<Vec<u8>, Error>)
    requires
        seg_fits(sequence_number, tracks@.map_values(|f: FragmentTrackData| frag_view(f))),
    ensures
        r matches Ok(x) && x@ == spec_media_segment(sequence_number, tracks@.map_values(|f: FragmentTrackData| frag_view(f))),
{
    let none: Vec<Vec<u8>> = Vec::new();
    assert(none@.map_values(|e: Vec<u8>| e@) =~= Seq::<Seq<u8>>::empty());
    build_media_segment_with_events(sequence_number, tracks, none.as_slice())
}

/// A segment built with no events is exactly the plain media segment.
pub proof fn lemma_no_events_plain_segment(seq: u32, fs: Seq<FragView>)
    ensures
        spec_media_segment_with_events(seq, fs, Seq::empty()) == spec_media_segment(seq, fs),
{
}

/// Build one CMAF media segment carrying inband events: `styp`, then each
/// encoded `emsg` box of `emsgs` in the given order (ahead of the `moof`,
/// ISO/IEC 14496-12 §8.8, DASH-IF IOP Part 10 §6.1), then `moof` + `mdat`.
/// A byte string that is not exactly one `emsg` box is refused.
pub fn build_media_segment_with_events(sequence_number: u32, tracks: &[FragmentTrackData], emsgs: &[Vec<u8>]) -> (r: Result<Vec<u8>, Error>)
    requires
        seg_fits(sequence_number, tracks@.map_values(|f: FragmentTrackData| frag_view(f))),
    ensures
        ({
            let es = emsgs@.map_values(|e: Vec<u8>| e@);
            &&& (forall|i: int| 0 <= i < es.len() ==> is_emsg_box(#[trigger] es[i])) ==> (r matches Ok(x)
                && x@ == spec_media_segment_with_events(sequence_number, tracks@.map_values(|f: FragmentTrackData| frag_view(f)), es))
            &&& !(forall|i: int| 0 <= i < es.len() ==> is_emsg_box(#[trigger] es[i])) ==> r == Err::<Vec<u8>, Error>(Error::UnexpectedBox { expected: "emsg" })
        }),
{
    let ghost fs = tracks@.map_values(|f: FragmentTrackData| frag_view(f));
    let ghost es = emsgs@.map_values(|e: Vec<u8>| e@);
    let mut j: usize = 0;
    while j < emsgs.len()
        invariant
            j <= emsgs@.len(),
            es == emsgs@.map_values(|e: Vec<u8>| e@),
            forall|i: int| 0 <= i < j ==> is_emsg_box(#[trigger] es[i]),
        decreases emsgs@.len() - j,
    {
        let e = emsgs[j].as_slice();
        assert(es[j as int] == e@);
        let ok = e.len() >= 8 && (read32(e, 0) as usize) == e.len() && e[4] == EMSG[0] && e[5] == EMSG[1] && e[6] == EMSG[2] && e[7] == EMSG[3];
        if !ok {
            proof {
                if is_emsg_box(e@) {
                    assert(e@.subrange(4, 8)[0] == e@[4]);
                    assert(e@.subrange(4, 8)[1] == e@[5]);
                    assert(e@.subrange(4, 8)[2] == e@[6]);
                    assert(e@.subrange(4, 8)[3] == e@[7]);
                }
            }
            return Err(Error::UnexpectedBox { expected: "emsg" });
        }
        assert(e@.subrange(4, 8) =~= EMSG@);
        j += 1;
    }
    assert forall|i: int, k: int| 0 <= i < tracks@.len() && 0 <= k < tracks@[i].samples@.len() implies i32::MIN <= #[trigger] comp_offset(tracks@[i].samples@[k]) <= i32::MAX by {
        assert(fs[i].2[k] == tracks@[i].samples@[k]);
    }
    let placeholder = build_moof(sequence_number, tracks, 0, true);
    assert(placeholder@ =~= placeholder_moof(sequence_number, fs));
    let size = placeholder.serialized_len();
    let moof = build_moof(sequence_number, tracks, size + 8, false);
    assert(moof@ =~= seg_moof(sequence_number, fs));
    let mut out: Vec<u8> = Vec::new();
    push32(&mut out, 24);
    push_all(&mut out, &STYP);
    push_all(&mut out, &MSDH);
    push32(&mut out, 0);
    push_all(&mut out, &MSDH);
    push_all(&mut out, &MSIX);
    assert(out@ =~= seg_styp_bytes());
    let mut k: usize = 0;
    while k < emsgs.len()
        invariant
            k <= emsgs@.len(),
            es == emsgs@.map_values(|e: Vec<u8>| e@),
            out@ == seg_styp_bytes() + concat_boxes(es, k as int),
        decreases emsgs@.len() - k,
    {
        push_all(&mut out, emsgs[k].as_slice());
        assert(es[k as int] == emsgs@[k as int]@);
        assert(out@ =~= seg_styp_bytes() + concat_boxes(es, k + 1));
        k += 1;
    }
    let mb = moof.to_bytes();
    push_all(&mut out, mb.as_slice());
    let mut payload: Vec<u8> = Vec::new();
    let mut i: usize = 0;
    while i < tracks.len()
        invariant
            i <= tracks@.len(),
            fs == tracks@.map_values(|f: FragmentTrackData| frag_view(f)),
            payload@ == frags_data(fs, i as int),
        decreases tracks@.len() - i,
    {
        push_samples_data(&mut payload, tracks[i].samples);
        assert(fs[i as int].2 == tracks@[i as int].samples@);
        i += 1;
    }
    push32(&mut out, size_field(payload.len(), 8));
    push_all(&mut out, &MDAT);
    push_all(&mut out, payload.as_slice());
    assert(out@ =~= spec_media_segment_with_events(sequence_number, fs, es));
    Ok(out)
}


/// A media segment keeps each sample's presentation time: in the `moof` of
/// `build_media_segment`, the run of track `i` has one record per sample, and
/// the record of a sample with decode time `d` and presentation time `p`
/// carries the composition offset `p - d` (so `d` plus the offset read back
/// is `p`), in a version-1 run (signed offsets) whenever `p` differs from `d`;
/// a record without an offset belongs to a sample whose times agree, and a
/// sample missing either time records no offset or 0.
pub proof fn lemma_segment_composition_offsets(seq: u32, fs: Seq<FragView>, i: int, k: int)
    requires
        seg_fits(seq, fs),
        0 <= i < fs.len(),
        0 <= k < fs[i].2.len(),
    ensures
        seg_moof(seq, fs).1[i].2.len() == 1,
        seg_moof(seq, fs).1[i].2[0].4.len() == fs[i].2.len(),
        match (fs[i].2[k].dts, fs[i].2[k].pts) {
            (Some(d), Some(p)) => match seg_moof(seq, fs).1[i].2[0].4[k].sample_composition_time_offset {
                Some(o) => d + o == p,
                None => d == p,
            },
            _ => true,
        },
        match (fs[i].2[k].dts, fs[i].2[k].pts) {
            (Some(d), Some(p)) => p != d ==> seg_moof(seq, fs).1[i].2[0].0 == 1
                && seg_moof(seq, fs).1[i].2[0].4[k].sample_composition_time_offset is Some,
            _ => true,
        },
        !(fs[i].2[k].dts is Some && fs[i].2[k].pts is Some) ==> match seg_moof(seq, fs).1[i].2[0].4[k].sample_composition_time_offset {
            Some(o) => o == 0,
            None => true,
        },
{
    let ss = fs[i].2;
    let base = moof_bytes(placeholder_moof(seq, fs)).len() + 8;
    let off = (base + frags_data(fs, i).len()) as i32;
    assert(seg_moof(seq, fs).1[i] == seg_traf(fs[i], off));
    let run = seg_trun(ss, off);
    assert(seg_moof(seq, fs).1[i].2[0] == run);
    assert(run.4[k] == trun_record(ss[k], any_cts(ss)));
    assert(i32::MIN <= comp_offset(ss[k]) <= i32::MAX);
    if comp_offset(ss[k]) != 0 {
        assert(any_cts(ss));
    }
    match (ss[k].dts, ss[k].pts) {
        (Some(d), Some(p)) => {
            assert(comp_offset(ss[k]) == p - d);
            if any_cts(ss) {
                let o = (p - d) as i32;
                assert(o as int == p - d);
                assert(run.4[k].sample_composition_time_offset == Some(o));
            } else {
                assert(comp_offset(ss[k]) == 0);
            }
        },
        _ => {},
    }
}

/// Video `x` times 65536 is `x` shifted into the integer half of 16.16.
proof fn lemma_fixed_16_16(x: u16)
    ensures
        ((x as u32) << 16u32) == (x as u32) * 65536,
{
    assert(((x as u32) << 16u32) == (x as u32) * 65536) by (bit_vector);
}

/// The track header of an initialisation segment's video track gives the
/// coded width and height in 16.16 fixed point (each times 65536); an audio
/// track's gives 0 by 0.
pub proof fn lemma_tkhd_dimensions(t: TrackSpec)
    ensures
        spec_trak(t) matches Ok(tv) ==> ({
            match t.config {
                CodecConfig::Avc { width, height, .. } => tv.0.10 == width * 65536 && tv.0.11 == height * 65536,
                CodecConfig::Hevc { width, height, .. } => tv.0.10 == width * 65536 && tv.0.11 == height * 65536,
                CodecConfig::Vvc { width, height, .. } => tv.0.10 == width * 65536 && tv.0.11 == height * 65536,
                CodecConfig::Av1 { width, height, .. } => tv.0.10 == width * 65536 && tv.0.11 == height * 65536,
                CodecConfig::Vp9 { width, height, .. } => tv.0.10 == width * 65536 && tv.0.11 == height * 65536,
                CodecConfig::Mpeg2Video { width, height, .. } => tv.0.10 == width * 65536 && tv.0.11 == height
                    * 65536,
                _ => t.config.spec_is_audio() ==> tv.0.10 == 0 && tv.0.11 == 0,
            }
        }),
{
    reveal(spec_trak);
    let d = entry_dims(t.config);
    lemma_fixed_16_16(d.0);
    lemma_fixed_16_16(d.1);
}

} // verus!
