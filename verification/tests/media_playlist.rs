use transmux::error::Error;
use transmux::hls::{ByteRange, MapTag, PreloadHintType, RenditionReport, SkipInfo};
use transmux::media_playlist::{
    mark_init_discontinuities, parse_media_playlist, render_media_playlist, LowLatencyDoc,
    MediaPlaylistDoc, PartDoc, SegmentDoc,
};

fn seg(uri: &str, duration: &str) -> SegmentDoc {
    SegmentDoc { uri: uri.into(), duration: duration.into(), ..Default::default() }
}

fn seg_disc(uri: &str, duration: &str) -> SegmentDoc {
    SegmentDoc { discontinuous: true, ..seg(uri, duration) }
}

fn playlist(segments: Vec<SegmentDoc>) -> MediaPlaylistDoc {
    MediaPlaylistDoc {
        version: 3,
        target_duration: 10,
        media_sequence: 0,
        discontinuity_sequence: 0,
        segments,
        endlist: true,
        ..Default::default()
    }
}

fn part(uri: &str, duration: &str, independent: bool) -> PartDoc {
    PartDoc { uri: uri.into(), duration: duration.into(), independent, ..Default::default() }
}

fn ll_config() -> LowLatencyDoc {
    LowLatencyDoc {
        part_target: Some("0.5".into()),
        part_hold_back: Some("1.5".into()),
        ..Default::default()
    }
}

#[test]
fn media_playlist_basic() {
    let pl = MediaPlaylistDoc {
        segments: vec![seg("seg0.m4s", "9.009"), seg("seg1.m4s", "9.009"), seg("seg2.m4s", "3.003")],
        extra_tags: vec![
            "#EXT-X-DATERANGE:ID=\"ad-1\",START-DATE=\"2024-01-01T00:00:00.000Z\",DURATION=15.0".into(),
        ],
        ..playlist(vec![])
    };
    let out = render_media_playlist(&pl);
    assert!(out.starts_with("#EXTM3U\n"));
    assert!(out.contains("#EXT-X-TARGETDURATION:10\n"));
    assert!(out.contains("#EXT-X-MEDIA-SEQUENCE:0\n"));
    assert_eq!(out.matches("#EXTINF:").count(), 3);
    assert!(out.ends_with("#EXT-X-ENDLIST\n"));
    assert!(out.contains("#EXT-X-DATERANGE:ID=\"ad-1\""));
    assert!(!out.contains("#EXT-X-DISCONTINUITY-SEQUENCE"));
}

#[test]
fn media_playlist_no_endlist() {
    let pl = MediaPlaylistDoc {
        version: 7,
        target_duration: 6,
        media_sequence: 42,
        segments: vec![seg("seg.m4s", "6.000")],
        endlist: false,
        ..Default::default()
    };
    let out = render_media_playlist(&pl);
    assert!(out.starts_with("#EXTM3U\n"));
    assert!(out.contains("#EXT-X-VERSION:7\n"));
    assert!(!out.contains("#EXT-X-ENDLIST"));
}

#[test]
fn extinf_three_decimals() {
    let out = render_media_playlist(&playlist(vec![seg("s.m4s", "9.000")]));
    assert!(out.contains("#EXTINF:9.000,\n"));
}

#[test]
fn discontinuity_tag_emitted_before_extinf() {
    let pl = playlist(vec![seg("s0.m4s", "5.000"), seg_disc("s1.m4s", "5.000"), seg("s2.m4s", "5.000")]);
    let out = render_media_playlist(&pl);
    assert_eq!(out.matches("#EXT-X-DISCONTINUITY\n").count(), 1);
    let disc_pos = out.find("#EXT-X-DISCONTINUITY\n").unwrap();
    let s1_pos = out.find("s1.m4s\n").unwrap();
    let extinf_pos = out[..s1_pos].rfind("#EXTINF:").unwrap();
    assert!(disc_pos < extinf_pos, "#EXT-X-DISCONTINUITY must appear before #EXTINF of s1");
    let tag_end = disc_pos + "#EXT-X-DISCONTINUITY\n".len();
    assert!(out[tag_end..].starts_with("#EXTINF:"));
}

#[test]
fn no_discontinuity_tag_when_all_continuous() {
    let pl = playlist(vec![seg("s0.m4s", "5.000"), seg("s1.m4s", "5.000"), seg("s2.m4s", "5.000")]);
    let out = render_media_playlist(&pl);
    assert!(!out.contains("#EXT-X-DISCONTINUITY\n"), "no tag when all segments are continuous");
}

#[test]
fn discontinuity_sequence_emitted_when_nonzero() {
    let pl = MediaPlaylistDoc {
        version: 3,
        target_duration: 6,
        media_sequence: 5,
        discontinuity_sequence: 2,
        segments: vec![seg("s5.m4s", "6.000")],
        ..Default::default()
    };
    let out = render_media_playlist(&pl);
    assert!(out.contains("#EXT-X-DISCONTINUITY-SEQUENCE:2\n"), "header must be present when n>0");
}

#[test]
fn discontinuity_sequence_absent_when_zero() {
    let out = render_media_playlist(&playlist(vec![seg("s0.m4s", "6.000")]));
    assert!(!out.contains("#EXT-X-DISCONTINUITY-SEQUENCE"), "header must be absent when n==0");
}

#[test]
fn ll_hls_renders_server_control_part_inf_and_parts() {
    let pl = MediaPlaylistDoc {
        version: 9,
        target_duration: 4,
        segments: vec![SegmentDoc { parts: vec![part("part-1-1.m4s", "0.5", true)], ..seg("seg-1-4.m4s", "4.000") }],
        low_latency: Some(ll_config()),
        ..Default::default()
    };
    let out = render_media_playlist(&pl);
    assert!(out.contains("#EXT-X-SERVER-CONTROL:CAN-BLOCK-RELOAD=YES"));
    assert!(out.contains("#EXT-X-PART-INF:PART-TARGET="));
    assert!(out.contains("#EXT-X-PART:DURATION=0.5,URI=\"part-1-1.m4s\""));
}

#[test]
fn open_segment_renders_parts_without_extinf() {
    let pl = MediaPlaylistDoc {
        version: 9,
        target_duration: 4,
        segments: vec![seg("seg-1-4.m4s", "4.000")],
        low_latency: Some(ll_config()),
        open_segment: Some(vec![part("part-1-5.0.m4s", "0.5", true)]),
        ..Default::default()
    };
    let out = render_media_playlist(&pl);
    assert!(
        out.contains("#EXT-X-PART:DURATION=0.5,URI=\"part-1-5.0.m4s\",INDEPENDENT=YES"),
        "open segment's part must render:\n{out}"
    );
    assert!(out.contains("#EXTINF:4.000,\n"));
    assert!(out.contains("seg-1-4.m4s"));
    assert!(!out.contains("#EXTINF:0.500,\npart-1-5.0.m4s"));
    assert_eq!(out.matches("#EXTINF:").count(), 1);
    let lines: Vec<&str> = out.lines().collect();
    for (i, line) in lines.iter().enumerate() {
        assert_ne!(*line, "part-1-5.0.m4s", "open part URI must not appear on its own URI line: {out}");
        if line.starts_with("#EXTINF") && i + 1 < lines.len() {
            assert_ne!(lines[i + 1], "part-1-5.0.m4s");
        }
    }
}

#[test]
fn open_segment_not_rendered_without_low_latency() {
    let pl = MediaPlaylistDoc {
        version: 9,
        target_duration: 4,
        segments: vec![seg("seg-1-4.m4s", "4.000")],
        open_segment: Some(vec![part("part-1-5.0.m4s", "0.5", true)]),
        ..Default::default()
    };
    let out = render_media_playlist(&pl);
    assert!(!out.contains("part-1-5.0.m4s"), "open segment parts must not render without low_latency:\n{out}");
    assert!(!out.contains("#EXT-X-PART:"));
}

#[test]
fn preload_hint_rendered_from_low_latency() {
    let ll = LowLatencyDoc { preload_hint: Some("part-1-5.1.m4s".into()), ..ll_config() };
    let pl = MediaPlaylistDoc {
        version: 9,
        target_duration: 4,
        segments: vec![seg("seg-1-4.m4s", "4.000")],
        low_latency: Some(ll),
        ..Default::default()
    };
    let out = render_media_playlist(&pl);
    assert!(out.contains("#EXT-X-PRELOAD-HINT:TYPE=PART,URI=\"part-1-5.1.m4s\""));
}

#[test]
fn open_segment_parts_precede_preload_hint() {
    let ll = LowLatencyDoc { preload_hint: Some("part-1-5.1.m4s".into()), ..ll_config() };
    let pl = MediaPlaylistDoc {
        version: 9,
        target_duration: 4,
        segments: vec![seg("seg-1-4.m4s", "4.000")],
        low_latency: Some(ll),
        open_segment: Some(vec![part("part-1-5.0.m4s", "0.5", true)]),
        ..Default::default()
    };
    let out = render_media_playlist(&pl);
    let part_pos = out
        .find("#EXT-X-PART:DURATION=0.5,URI=\"part-1-5.0.m4s\",INDEPENDENT=YES")
        .expect("open-segment part line not found");
    let preload_pos =
        out.find("#EXT-X-PRELOAD-HINT:TYPE=PART,URI=\"part-1-5.1.m4s\"").expect("preload-hint line not found");
    assert!(part_pos < preload_pos);
}

fn ll_config_full() -> LowLatencyDoc {
    LowLatencyDoc {
        part_target: Some("0.5".into()),
        part_hold_back: Some("1.5".into()),
        preload_hint: Some("part-9.2.m4s".into()),
        preload_hint_type: PreloadHintType::Part,
        preload_hint_byte_range_start: Some(0),
        preload_hint_byte_range_length: Some(1000),
        can_skip_until: Some("24".into()),
    }
}

#[test]
fn round_trip_live_ll_playlist_with_parts_preload_and_server_control() {
    let map = MapTag { uri: "init.mp4".into(), byte_range: Some(ByteRange { length: 800, offset: Some(0) }) };
    let pl = MediaPlaylistDoc {
        version: 9,
        target_duration: 4,
        media_sequence: 100,
        discontinuity_sequence: 0,
        segments: vec![SegmentDoc {
            uri: "seg-9.m4s".into(),
            duration: "4.000".into(),
            discontinuous: false,
            parts: vec![
                PartDoc { uri: "part-9.0.m4s".into(), duration: "0.5".into(), independent: true, byte_range: None, gap: false },
                PartDoc {
                    uri: "part-9.1.m4s".into(),
                    duration: "0.5".into(),
                    independent: false,
                    byte_range: Some(ByteRange { length: 500, offset: Some(1000) }),
                    gap: false,
                },
            ],
            byte_range: None,
            map: Some(map.clone()),
        }],
        open_segment: Some(vec![PartDoc {
            uri: "part-10.0.m4s".into(),
            duration: "0.5".into(),
            independent: true,
            byte_range: None,
            gap: true,
        }]),
        endlist: false,
        extra_tags: vec![],
        low_latency: Some(ll_config_full()),
        iframes_only: false,
        rendition_reports: vec![RenditionReport { uri: "../audio/playlist.m3u8".into(), last_msn: 100, last_part: Some(1) }],
        skip: None,
    };
    let text = render_media_playlist(&pl);
    let parsed = parse_media_playlist(&text).expect("parse must succeed");
    assert_eq!(parsed, pl, "round trip must be lossless:\n{text}");
}

#[test]
fn round_trip_vod_playlist_with_byteranges_map_and_endlist() {
    let map = MapTag { uri: "init.mp4".into(), byte_range: None };
    let pl = MediaPlaylistDoc {
        version: 6,
        target_duration: 10,
        segments: vec![
            SegmentDoc {
                byte_range: Some(ByteRange { length: 500_000, offset: Some(0) }),
                map: Some(map.clone()),
                ..seg("media.ts", "10.000")
            },
            SegmentDoc {
                byte_range: Some(ByteRange { length: 500_000, offset: None }),
                map: Some(map.clone()),
                ..seg("media.ts", "10.000")
            },
        ],
        endlist: true,
        extra_tags: vec![
            "#EXT-X-DATERANGE:ID=\"ad-1\",START-DATE=\"2024-01-01T00:00:00.000Z\",DURATION=15.0".into(),
        ],
        ..Default::default()
    };
    let text = render_media_playlist(&pl);
    assert_eq!(text.matches("#EXT-X-MAP:").count(), 1, "identical map on consecutive segments must render once:\n{text}");
    let parsed = parse_media_playlist(&text).expect("parse must succeed");
    assert_eq!(parsed, pl, "round trip must be lossless:\n{text}");
}

#[test]
fn real_world_sample_ll_playlist_from_rfc8216bis_appendix() {
    let text = "\
#EXTM3U
#EXT-X-VERSION:9
#EXT-X-TARGETDURATION:4
#EXT-X-MEDIA-SEQUENCE:266
#EXT-X-PART-INF:PART-TARGET=2.00002
#EXT-X-SERVER-CONTROL:CAN-BLOCK-RELOAD=YES,PART-HOLD-BACK=6.00006
#EXTINF:4.00008,
fileSequence268.mp4
#EXTINF:4.00008,
fileSequence269.mp4
#EXTINF:4.00008,
fileSequence270.mp4
#EXT-X-PART:DURATION=2.00004,INDEPENDENT=YES,URI=\"filePart271.0.mp4\"
#EXT-X-PART:DURATION=2.00004,URI=\"filePart271.1.mp4\"
#EXTINF:4.00008,
fileSequence271.mp4
#EXT-X-PART:DURATION=2.00004,INDEPENDENT=YES,URI=\"filePart272.0.mp4\"
#EXT-X-PART:DURATION=0.50001,URI=\"filePart272.1.mp4\"
#EXTINF:2.50005,
fileSequence272.mp4
#EXT-X-DISCONTINUITY
#EXT-X-PART:DURATION=2.00004,INDEPENDENT=YES,URI=\"midRoll273.0.mp4\"
#EXT-X-PART:DURATION=2.00004,URI=\"midRoll273.1.mp4\"
#EXTINF:4.00008,
midRoll273.mp4
#EXT-X-PART:DURATION=2.00004,INDEPENDENT=YES,URI=\"midRoll274.0.mp4\"
#EXT-X-PRELOAD-HINT:TYPE=PART,URI=\"midRoll274.1.mp4\"
#EXT-X-RENDITION-REPORT:URI=\"/1M/LL-HLS.m3u8\",LAST-MSN=274,LAST-PART=1
";
    let pl = parse_media_playlist(text).expect("real-world LL sample must parse");
    assert_eq!(pl.version, 9);
    assert_eq!(pl.target_duration, 4);
    assert_eq!(pl.media_sequence, 266);
    assert_eq!(pl.segments.len(), 6, "{:?}", pl.segments);
    assert_eq!(pl.segments[4].uri, "fileSequence272.mp4");
    assert_eq!(pl.segments[4].parts.len(), 2);
    assert!(pl.segments[4].parts[0].independent);
    assert!(!pl.segments[4].parts[1].independent);
    assert_eq!(pl.segments[5].uri, "midRoll273.mp4");
    assert!(pl.segments[5].discontinuous, "midRoll273 follows #EXT-X-DISCONTINUITY");
    let open = pl.open_segment.as_ref().expect("midRoll274 is open");
    assert_eq!(open.len(), 1);
    assert_eq!(open[0].uri, "midRoll274.0.mp4");
    let ll = pl.low_latency.as_ref().expect("LL config must be present");
    assert_eq!(ll.preload_hint.as_deref(), Some("midRoll274.1.mp4"));
    assert_eq!(pl.rendition_reports.len(), 1);
    assert_eq!(pl.rendition_reports[0].uri, "/1M/LL-HLS.m3u8");
    assert_eq!(pl.rendition_reports[0].last_msn, 274);
    assert_eq!(pl.rendition_reports[0].last_part, Some(1));
}

#[test]
fn real_world_sample_delta_update_with_skip() {
    let text = "#EXTM3U\n\
#EXT-X-VERSION:9\n\
#EXT-X-TARGETDURATION:4\n\
#EXT-X-MEDIA-SEQUENCE:1000\n\
#EXT-X-PART-INF:PART-TARGET=0.5\n\
#EXT-X-SERVER-CONTROL:CAN-BLOCK-RELOAD=YES,CAN-SKIP-UNTIL=24.0,PART-HOLD-BACK=1.5\n\
#EXT-X-SKIP:SKIPPED-SEGMENTS=996,RECENTLY-REMOVED-DATERANGES=\"ad-1\tad-2\"\n\
#EXTINF:4.00000,\n\
fileSequence1996.mp4\n\
#EXTINF:4.00000,\n\
fileSequence1997.mp4\n";
    let pl = parse_media_playlist(text).expect("delta update sample must parse");
    assert_eq!(pl.media_sequence, 1000);
    assert_eq!(pl.segments.len(), 2);
    assert_eq!(pl.segments[0].uri, "fileSequence1996.mp4");
    let skip = pl.skip.as_ref().expect("EXT-X-SKIP must be captured");
    assert_eq!(skip.skipped_segments, 996);
    assert_eq!(skip.recently_removed_daterange_ids, vec!["ad-1", "ad-2"]);
    let ll = pl.low_latency.as_ref().expect("LL config must be present");
    assert_eq!(ll.can_skip_until.as_deref(), Some("24.0"));
    assert!(!pl.endlist);
}

#[test]
fn parse_ignores_unrecognized_tag_by_preserving_it_into_extra_tags() {
    let text = "#EXTM3U\n\
#EXT-X-VERSION:3\n\
#EXT-X-TARGETDURATION:6\n\
#EXT-X-MEDIA-SEQUENCE:0\n\
#EXT-X-PROGRAM-DATE-TIME:2024-01-01T00:00:00.000Z\n\
#EXTINF:6.000,\n\
s0.m4s\n\
#EXT-X-ENDLIST\n";
    let pl = parse_media_playlist(text).expect("unrecognized tag must not error");
    assert!(pl.extra_tags.iter().any(|t| t.starts_with("#EXT-X-PROGRAM-DATE-TIME:")));
}

#[test]
fn parse_rejects_missing_targetduration() {
    let text = "#EXTM3U\n#EXT-X-MEDIA-SEQUENCE:0\n#EXTINF:6.000,\ns0.m4s\n";
    let err = parse_media_playlist(text).expect_err("missing TARGETDURATION must error");
    assert!(matches!(err, Error::HlsParse { .. }));
}

#[test]
fn parse_rejects_malformed_part_missing_duration() {
    let text = "#EXTM3U\n\
#EXT-X-VERSION:9\n\
#EXT-X-TARGETDURATION:4\n\
#EXT-X-PART-INF:PART-TARGET=0.5\n\
#EXT-X-SERVER-CONTROL:CAN-BLOCK-RELOAD=YES,PART-HOLD-BACK=1.5\n\
#EXT-X-PART:URI=\"part.m4s\"\n\
#EXTINF:4.000,\n\
seg.m4s\n";
    let err = parse_media_playlist(text).expect_err("EXT-X-PART without DURATION must error");
    assert_eq!(err, Error::HlsParse { line_no: 6 });
}

#[test]
fn parse_rejects_uri_without_extinf_and_missing_header() {
    assert_eq!(
        parse_media_playlist("#EXTM3U\n#EXT-X-TARGETDURATION:4\ns0.m4s\n"),
        Err(Error::HlsParse { line_no: 3 })
    );
    assert_eq!(parse_media_playlist("#EXT-X-TARGETDURATION:4\n"), Err(Error::HlsParse { line_no: 1 }));
    assert_eq!(
        parse_media_playlist("#EXTM3U\n#EXT-X-TARGETDURATION:4\n#EXTINF:1.2.3,\ns.ts\n"),
        Err(Error::HlsParse { line_no: 3 })
    );
}

#[test]
fn parse_reads_decimal_float_forms() {
    let text = "#EXTM3U\n#EXT-X-TARGETDURATION:4\n#EXTINF: 4.5e0 ,title\na.ts\n#EXTINF:.5,\nb.ts\n#EXTINF:INF,\nc.ts\n";
    let pl = parse_media_playlist(text).expect("decimal floats must parse");
    let durations: Vec<&str> = pl.segments.iter().map(|s| s.duration.as_str()).collect();
    assert_eq!(durations, vec!["4.5e0", ".5", "INF"]);
    assert_eq!(pl.version, 1);
    assert_eq!(pl.low_latency, None);
}

#[test]
fn map_carries_forward_and_renders_only_on_change() {
    let a = MapTag { uri: "a.mp4".into(), byte_range: None };
    let b = MapTag { uri: "b.mp4".into(), byte_range: Some(ByteRange { length: 10, offset: Some(5) }) };
    let pl = playlist(vec![
        SegmentDoc { map: Some(a.clone()), ..seg("s0.m4s", "2.000") },
        SegmentDoc { map: Some(a.clone()), ..seg("s1.m4s", "2.000") },
        SegmentDoc { map: Some(b.clone()), ..seg("s2.m4s", "2.000") },
    ]);
    let text = render_media_playlist(&pl);
    assert_eq!(text.matches("#EXT-X-MAP:").count(), 2);
    assert!(text.contains("#EXT-X-MAP:URI=\"b.mp4\",BYTERANGE=\"10@5\"\n"));
    assert_eq!(parse_media_playlist(&text), Ok(pl));
}

#[test]
fn iframes_only_raises_version_and_skip_renders() {
    let pl = MediaPlaylistDoc {
        version: 3,
        target_duration: 2,
        iframes_only: true,
        skip: Some(SkipInfo { skipped_segments: 7, recently_removed_daterange_ids: vec!["x".into(), "y".into()] }),
        segments: vec![seg("i.ts", "1.000")],
        ..Default::default()
    };
    let text = render_media_playlist(&pl);
    assert!(text.starts_with("#EXTM3U\n#EXT-X-VERSION:4\n#EXT-X-I-FRAMES-ONLY\n"));
    assert!(text.contains("#EXT-X-SKIP:SKIPPED-SEGMENTS=7,RECENTLY-REMOVED-DATERANGES=\"x\ty\"\n"));
    let parsed = parse_media_playlist(&text).unwrap();
    assert_eq!(parsed.version, 4);
    assert_eq!(parsed.skip, pl.skip);
}

#[test]
fn mark_init_discontinuities_marks_init_changes() {
    let init_a: &[u8] = b"moov_a";
    let init_b: &[u8] = b"moov_b";
    let mut segs = vec![seg("s0.m4s", "5.000"), seg("s1.m4s", "5.000"), seg("s2.m4s", "5.000")];
    mark_init_discontinuities(&[init_a, init_b, init_b], &mut segs);
    assert!(!segs[0].discontinuous);
    assert!(segs[1].discontinuous);
    assert!(!segs[2].discontinuous);
    assert_eq!(segs[2].uri, "s2.m4s");
}
