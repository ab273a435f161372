use transmux::error::Error;
use transmux::init_segment::{OpaqueBox, SampleEntryVariant};
use transmux::ir::{CodecConfig, DataCarriage, FragmentTrackData, Sample, SubtitleFormat, TrackSpec};
use transmux::ir::{Media, Track};
use transmux::media::{codec_config_from_entry, hls_plan, CmafMux, Fmp4Demux};
use transmux::pipeline::{build_init_segment, build_media_segment};

/// A `wvtt` sample entry body: the 8-byte SampleEntry fields, then a `vttC`
/// configuration box holding the WebVTT header.
fn wvtt_entry() -> SampleEntryVariant {
    let mut body = vec![0u8; 6];
    body.extend_from_slice(&[0, 1]);
    let header = b"WEBVTT\n";
    body.extend_from_slice(&((8 + header.len()) as u32).to_be_bytes());
    body.extend_from_slice(b"vttC");
    body.extend_from_slice(header);
    SampleEntryVariant::Unknown(OpaqueBox::new(*b"wvtt", body))
}

#[test]
fn wvtt_sample_entry_demuxes_to_subtitle_webvtt() {
    let entry = wvtt_entry();
    let config = codec_config_from_entry(&entry).expect("wvtt must now demux");
    assert!(
        matches!(config, CodecConfig::Subtitle { format: SubtitleFormat::WebVtt }),
        "wvtt must map to CodecConfig::Subtitle{{format: SubtitleFormat::WebVtt}}, got {config:?}"
    );
}

/// A genuinely unrecognised sample entry must be named in the error.
#[test]
fn unknown_sample_entry_errors_naming_the_fourcc() {
    let unknown = OpaqueBox::new(*b"xyz9", vec![1, 2, 3]);
    let entry = SampleEntryVariant::Unknown(unknown);
    let err = codec_config_from_entry(&entry).unwrap_err();
    match err {
        Error::UnsupportedSampleEntry { fourcc } => assert_eq!(fourcc, "xyz9"),
        other => panic!("expected UnsupportedSampleEntry, got {other:?}"),
    }
}

/// A minimal `avcC`: Baseline SPS/PPS pair.
fn minimal_avc_config() -> OpaqueBox {
    OpaqueBox::new(
        *b"avcC",
        vec![1, 66, 0, 0x1E, 0xFF, 0xE1, 0, 6, 0x67, 0x42, 0x00, 0x1E, 0xAB, 0x40, 1, 0, 4, 0x68, 0xCE, 0x3C, 0x80],
    )
}

fn frames(base: i64, count: u32, frame_dur: u32) -> Vec<Sample> {
    (0..count)
        .map(|i| {
            // One length-prefixed non-IDR NAL; content is irrelevant here.
            let nal = [0x41u8, 0xAA, 0xBB];
            let mut data = (nal.len() as u32).to_be_bytes().to_vec();
            data.extend_from_slice(&nal);
            let dts = base + i64::from(i) * i64::from(frame_dur);
            Sample::new(data, Some(dts), Some(dts), Some(frame_dur), i == 0)
        })
        .collect()
}

#[test]
fn gapped_fmp4_reseeds_absolute_dts_from_each_fragments_own_tfdt() {
    const TIMESCALE: u32 = 90_000;
    const FRAME_DUR: u32 = 3_000;
    const FRAMES_PER_FRAGMENT: u32 = 4;
    const GAP_TICKS: u64 = FRAME_DUR as u64;

    let spec = TrackSpec::new(
        1,
        TIMESCALE,
        CodecConfig::Avc { config: minimal_avc_config(), width: 16, height: 16 },
    );
    let init = build_init_segment(std::slice::from_ref(&spec), TIMESCALE).expect("init segment builds");

    let first_base = 0u64;
    let contiguous_second_base = u64::from(FRAMES_PER_FRAGMENT * FRAME_DUR);
    let gapped_second_base = contiguous_second_base + GAP_TICKS;

    let f1 = frames(first_base as i64, FRAMES_PER_FRAGMENT, FRAME_DUR);
    let f2 = frames(gapped_second_base as i64, FRAMES_PER_FRAGMENT, FRAME_DUR);
    let seg1 = build_media_segment(1, &[FragmentTrackData::new(1, first_base, &f1)]).expect("fragment 1 builds");
    let seg2 = build_media_segment(2, &[FragmentTrackData::new(1, gapped_second_base, &f2)]).expect("fragment 2 builds");

    let mut file = init;
    file.extend_from_slice(&seg1);
    file.extend_from_slice(&seg2);

    let media = Fmp4Demux::new().unpackage(&file).expect("demux gapped fMP4");
    let track = &media.tracks[0];
    assert_eq!(track.samples.len(), (FRAMES_PER_FRAGMENT * 2) as usize, "both fragments' samples must be present");
    assert_eq!(track.start_decode_time, first_base, "start_decode_time stays the FIRST fragment's anchor, not the last");

    let first_post_gap = &track.samples[FRAMES_PER_FRAGMENT as usize];
    assert_eq!(
        first_post_gap.dts,
        Some(gapped_second_base as i64),
        "post-gap dts must come from the second fragment's tfdt ({gapped_second_base}), not the running duration sum ({contiguous_second_base})"
    );
    for (i, s) in track.samples[FRAMES_PER_FRAGMENT as usize..].iter().enumerate() {
        let expected = gapped_second_base as i64 + (i as i64) * i64::from(FRAME_DUR);
        assert_eq!(s.dts, Some(expected), "sample {i} after the gap");
    }
}

#[test]
fn contiguous_fmp4_dts_is_unchanged_by_the_per_fragment_tfdt_reseed() {
    const TIMESCALE: u32 = 90_000;
    const FRAME_DUR: u32 = 3_000;
    const FRAMES: u32 = 3;

    let spec = TrackSpec::new(
        7,
        TIMESCALE,
        CodecConfig::Avc { config: minimal_avc_config(), width: 16, height: 16 },
    );
    let init = build_init_segment(std::slice::from_ref(&spec), TIMESCALE).unwrap();
    let second_base = u64::from(FRAMES * FRAME_DUR);
    let f1 = frames(0, FRAMES, FRAME_DUR);
    let f2 = frames(second_base as i64, FRAMES, FRAME_DUR);
    let mut file = init;
    file.extend_from_slice(&build_media_segment(1, &[FragmentTrackData::new(7, 0, &f1)]).unwrap());
    file.extend_from_slice(&build_media_segment(2, &[FragmentTrackData::new(7, second_base, &f2)]).unwrap());

    let media = Fmp4Demux::new().unpackage(&file).unwrap();
    let got: Vec<i64> = media.tracks[0].samples.iter().filter_map(|s| s.dts).collect();
    let want: Vec<i64> = (0..FRAMES * 2).map(|i| i64::from(i) * i64::from(FRAME_DUR)).collect();
    assert_eq!(got, want, "a gapless stream must be unaffected by the fix");
}

#[test]
fn demux_recovers_track_spec_and_sample_bytes() {
    let spec = TrackSpec::new(3, 90_000, CodecConfig::Avc { config: minimal_avc_config(), width: 320, height: 240 });
    let init = build_init_segment(std::slice::from_ref(&spec), 1000).unwrap();
    let f = frames(0, 2, 3000);
    let mut file = init;
    file.extend_from_slice(&build_media_segment(1, &[FragmentTrackData::new(3, 0, &f)]).unwrap());
    let media = Fmp4Demux::new().unpackage(&file).unwrap();
    assert_eq!(media.movie_timescale, 1000);
    assert_eq!(media.tracks.len(), 1);
    let t = &media.tracks[0];
    assert_eq!(t.spec.track_id, 3);
    assert_eq!(t.spec.timescale, 90_000);
    match &t.spec.config {
        CodecConfig::Avc { config, width, height } => {
            assert_eq!((*width, *height), (320, 240));
            assert_eq!(config.data, minimal_avc_config().data);
        }
        other => panic!("expected AVC, got {other:?}"),
    }
    assert_eq!(t.samples[1].data, f[1].data);
    assert!(t.samples[0].is_sync);
    assert!(!t.samples[1].is_sync);
    assert_eq!(t.samples[1].duration, Some(3000));
}

#[test]
fn demux_without_moov_is_refused() {
    assert_eq!(Fmp4Demux::new().unpackage(&[0, 0, 0, 8, b'f', b'r', b'e', b'e']).err(), Some(Error::UnexpectedBox { expected: "moov" }));
}

#[test]
fn audio_entry_without_config_box_is_refused() {
    let entry = SampleEntryVariant::Unknown(OpaqueBox::new(*b"ac-3", vec![0u8; 28]));
    assert_eq!(
        codec_config_from_entry(&entry).err(),
        Some(Error::UnexpectedBox { expected: "config box in audio sample entry" })
    );
}

#[test]
fn cmaf_mux_is_init_segment_then_media_segment() {
    let spec = TrackSpec::new(1, 90_000, CodecConfig::Avc { config: minimal_avc_config(), width: 16, height: 16 });
    let samples = frames(9_000, 3, 3_000);
    let track = Track::new_at(spec.clone(), samples.clone(), 9_000);
    let media = Media::new(vec![track], 0);
    let out = CmafMux::new(7).package(&media).expect("one AVC track packages");
    let mut expected = build_init_segment(&[spec], 1000).unwrap();
    let frag = FragmentTrackData::new(1, 9_000, &samples);
    expected.extend_from_slice(&build_media_segment(7, &[frag]).unwrap());
    assert_eq!(out, expected);
    // The packaged bytes demux back to the same samples.
    let back = Fmp4Demux::new().unpackage(&out).expect("CMAF output demuxes");
    assert_eq!(back.tracks.len(), 1);
    assert_eq!(back.tracks[0].samples.len(), 3);
    assert_eq!(back.tracks[0].samples[1].data, samples[1].data);
}

#[test]
fn cmaf_mux_refuses_a_media_without_tracks() {
    let media = Media::new(vec![], 1000);
    assert_eq!(
        CmafMux::default().package(&media),
        Err(Error::InvalidInput("cannot package a Media with no tracks"))
    );
}

/// A timestamp-less (section-carried) track has no truthful duration: it
/// gets no playlist segment rather than a zero-length one.
#[test]
fn hls_packager_omits_a_timestampless_track_instead_of_emitting_extinf_zero() {
    const TIMESCALE: u32 = 90_000;
    const FRAME_DUR: u32 = 3_000;

    let timed = Track::new(
        TrackSpec::new(1, TIMESCALE, CodecConfig::Avc { config: minimal_avc_config(), width: 16, height: 16 }),
        (0..3)
            .map(|i| {
                Sample::new(
                    vec![0u8; 4],
                    Some(i64::from(i) * i64::from(FRAME_DUR)),
                    Some(i64::from(i) * i64::from(FRAME_DUR)),
                    Some(FRAME_DUR),
                    true,
                )
            })
            .collect::<Vec<_>>(),
    );
    let sections = Track::new(
        TrackSpec::new(
            2,
            TIMESCALE,
            CodecConfig::Data { stream_type: 0x86, descriptors: Vec::new(), carriage: DataCarriage::Sections },
        ),
        vec![Sample::new(vec![0xFCu8; 8], None, None, None, true)],
    );

    let plan = hls_plan(&Media::new(vec![timed, sections], TIMESCALE), "seg")
        .expect("a Media with one timed track still packages");
    assert!(plan.segments.iter().all(|s| s.ticks > 0), "no zero-duration EXTINF may be emitted");
    assert!(
        !plan.segments.iter().any(|s| s.uri == "seg2.m4s"),
        "the timestamp-less track must be omitted entirely"
    );
    assert!(plan.segments.iter().any(|s| s.uri == "seg1.m4s"), "the timed track must still be present");
    assert_eq!(plan.segments.len(), 1);
    assert_eq!(plan.segments[0].ticks, 9_000);
    assert_eq!(plan.segments[0].timescale, TIMESCALE);
    assert_eq!(plan.target_duration, 1);

    let only_sections = Track::new(
        TrackSpec::new(
            2,
            TIMESCALE,
            CodecConfig::Data { stream_type: 0x86, descriptors: Vec::new(), carriage: DataCarriage::Sections },
        ),
        vec![Sample::new(vec![0xFCu8; 8], None, None, None, true)],
    );
    assert!(
        hls_plan(&Media::new(vec![only_sections], TIMESCALE), "seg").is_err(),
        "an all-timestamp-less Media must error, not render an empty playlist"
    );
}

#[test]
fn hls_plan_init_length_and_target_duration() {
    let spec = TrackSpec::new(7, 1_000, CodecConfig::Avc { config: minimal_avc_config(), width: 16, height: 16 });
    let samples = vec![
        Sample::new(vec![1], Some(0), Some(0), Some(1_500), true),
        Sample::new(vec![2], Some(1_500), Some(1_500), None, false),
    ];
    let media = Media::new(vec![Track::new(spec.clone(), samples)], 0);
    let plan = hls_plan(&media, "v/").unwrap();
    assert_eq!(plan.segments[0].uri, "v/7.m4s");
    assert_eq!(plan.segments[0].ticks, 1_500);
    assert_eq!(plan.target_duration, 2);
    assert_eq!(plan.init_len, build_init_segment(&[spec], 1000).unwrap().len() as u64);
    assert!(matches!(
        hls_plan(&Media::new(vec![], 1000), "v/"),
        Err(Error::InvalidInput("cannot package a Media with no tracks"))
    ));
}
