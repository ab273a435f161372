use transmux::error::Error;
use transmux::hls::{
    cenc_ext_x_key, ByteRange, CencScheme, IFrameVariant, MapTag, MasterPlaylist, PreloadHintType,
    Variant, push_map_line,
};

#[test]
fn master_playlist_basic() {
    let pl = MasterPlaylist {
        version: 6,
        variants: vec![
            Variant {
                bandwidth: 300_000,
                codecs: "avc1.64001e,mp4a.40.2".into(),
                resolution: Some((640, 360)),
                uri: "v300/index.m3u8".into(),
            },
            Variant {
                bandwidth: 800_000,
                codecs: "avc1.640028,mp4a.40.2".into(),
                resolution: Some((1280, 720)),
                uri: "v800/index.m3u8".into(),
            },
        ],
        iframe_variants: vec![],
    };
    let out = pl.to_m3u8();
    assert!(out.starts_with("#EXTM3U\n"));
    assert_eq!(out.matches("#EXT-X-STREAM-INF:").count(), 2);
    assert!(out.contains("v300/index.m3u8"));
    assert!(out.contains("v800/index.m3u8"));
    assert!(out.contains("RESOLUTION=640x360"));
    assert!(out.contains("RESOLUTION=1280x720"));
}

#[test]
fn master_playlist_no_resolution() {
    let pl = MasterPlaylist {
        version: 6,
        variants: vec![Variant {
            bandwidth: 1_000_000,
            codecs: "avc1.640028".into(),
            resolution: None,
            uri: "v1k/index.m3u8".into(),
        }],
        iframe_variants: vec![],
    };
    let out = pl.to_m3u8();
    assert!(!out.contains("RESOLUTION"));
    assert!(out.contains("#EXT-X-STREAM-INF:BANDWIDTH=1000000,CODECS=\"avc1.640028\""));
}

#[test]
fn round_trip_multivariant_playlist() {
    let pl = MasterPlaylist {
        version: 7,
        variants: vec![
            Variant {
                bandwidth: 300_000,
                codecs: "avc1.64001e,mp4a.40.2".into(),
                resolution: Some((640, 360)),
                uri: "v300/index.m3u8".into(),
            },
            Variant {
                bandwidth: 800_000,
                codecs: "avc1.640028,mp4a.40.2".into(),
                resolution: Some((1280, 720)),
                uri: "v800/index.m3u8".into(),
            },
        ],
        iframe_variants: vec![IFrameVariant {
            bandwidth: 50_000,
            codecs: Some("avc1.64001e".into()),
            resolution: Some((640, 360)),
            uri: "v300/iframe.m3u8".into(),
        }],
    };
    let text = pl.to_m3u8();
    let parsed = MasterPlaylist::parse(&text).expect("parse must succeed");
    assert_eq!(parsed, pl, "round trip must be lossless:\n{text}");
}

#[test]
fn parse_rejects_variant_uri_with_no_preceding_stream_inf() {
    let text = "#EXTM3U\n#EXT-X-VERSION:6\nv300/index.m3u8\n";
    let err = MasterPlaylist::parse(text).expect_err("orphan variant URI must error");
    assert!(matches!(err, Error::HlsParse { .. }));
}

#[test]
fn parse_master_playlist_ignores_ext_x_media() {
    let text = "#EXTM3U\n\
#EXT-X-VERSION:7\n\
#EXT-X-MEDIA:TYPE=AUDIO,GROUP-ID=\"aac\",NAME=\"English\",DEFAULT=YES,URI=\"eng.m3u8\"\n\
#EXT-X-STREAM-INF:BANDWIDTH=300000,CODECS=\"avc1.64001e,mp4a.40.2\"\n\
v300/index.m3u8\n";
    let pl = MasterPlaylist::parse(text).expect("EXT-X-MEDIA must be ignored, not error");
    assert_eq!(pl.variants.len(), 1);
    assert_eq!(pl.variants[0].uri, "v300/index.m3u8");
}

#[test]
fn master_playlist_exact_text() {
    let pl = MasterPlaylist {
        version: 7,
        variants: vec![Variant {
            bandwidth: 300_000,
            codecs: "avc1.64001e".into(),
            resolution: Some((640, 360)),
            uri: "v300/index.m3u8".into(),
        }],
        iframe_variants: vec![IFrameVariant {
            bandwidth: 50_000,
            codecs: None,
            resolution: None,
            uri: "i.m3u8".into(),
        }],
    };
    assert_eq!(
        pl.to_m3u8(),
        "#EXTM3U\n#EXT-X-VERSION:7\n\
#EXT-X-STREAM-INF:BANDWIDTH=300000,CODECS=\"avc1.64001e\",RESOLUTION=640x360\n\
v300/index.m3u8\n\
#EXT-X-I-FRAME-STREAM-INF:BANDWIDTH=50000,URI=\"i.m3u8\"\n"
    );
}

#[test]
fn master_parse_tolerates_bom_crlf_and_blank_lines() {
    let text = "\u{feff}#EXTM3U\r\n\r\n#EXT-X-VERSION: 4 \r\n#EXT-X-STREAM-INF:RESOLUTION=1x2, BANDWIDTH=+10\r\n  a.m3u8  \r\n";
    let pl = MasterPlaylist::parse(text).expect("must parse");
    assert_eq!(pl.version, 4);
    assert_eq!(pl.variants.len(), 1);
    assert_eq!(pl.variants[0].bandwidth, 10);
    assert_eq!(pl.variants[0].codecs, "");
    assert_eq!(pl.variants[0].resolution, Some((1, 2)));
    assert_eq!(pl.variants[0].uri, "a.m3u8");
}

#[test]
fn master_parse_reports_the_faulty_line() {
    let missing_header = "#EXT-X-VERSION:3\n";
    assert_eq!(MasterPlaylist::parse(missing_header), Err(Error::HlsParse { line_no: 1 }));
    let bad_bandwidth = "#EXTM3U\n#EXT-X-STREAM-INF:BANDWIDTH=12a\nx.m3u8\n";
    assert_eq!(MasterPlaylist::parse(bad_bandwidth), Err(Error::HlsParse { line_no: 2 }));
    let too_big_version = "#EXTM3U\n\n#EXT-X-VERSION:256\n";
    assert_eq!(MasterPlaylist::parse(too_big_version), Err(Error::HlsParse { line_no: 3 }));
    let iframe_without_uri = "#EXTM3U\n#EXT-X-I-FRAME-STREAM-INF:BANDWIDTH=1\n";
    assert_eq!(MasterPlaylist::parse(iframe_without_uri), Err(Error::HlsParse { line_no: 2 }));
    let bad_resolution = "#EXTM3U\n#EXT-X-STREAM-INF:BANDWIDTH=1,RESOLUTION=640\n";
    assert_eq!(MasterPlaylist::parse(bad_resolution), Err(Error::HlsParse { line_no: 2 }));
}

#[test]
fn master_parse_last_attribute_wins() {
    let text = "#EXTM3U\n#EXT-X-STREAM-INF:BANDWIDTH=1,BANDWIDTH=2\nu\n";
    let pl = MasterPlaylist::parse(text).unwrap();
    assert_eq!(pl.variants[0].bandwidth, 2);
    assert_eq!(pl.version, 1);
}

#[test]
fn cenc_key_line_only_for_cbcs() {
    let kid = [0xABu8; 16];
    assert_eq!(cenc_ext_x_key(CencScheme::Cenc, &kid, "skd://k"), None);
    assert_eq!(cenc_ext_x_key(CencScheme::Cens, &kid, "skd://k"), None);
    assert_eq!(
        cenc_ext_x_key(CencScheme::Cbcs, &kid, "skd://k").unwrap(),
        "#EXT-X-KEY:METHOD=SAMPLE-AES,URI=\"skd://k\",KEYFORMAT=\"urn:mpeg:dash:mp4protection:2011\",KEYFORMATVERSIONS=\"1\",KEYID=0xabababababababababababababababab"
    );
}

#[test]
fn byte_range_render_and_parse() {
    let br = ByteRange { length: 500, offset: Some(1000) };
    assert_eq!(br.render(), "500@1000");
    assert_eq!(ByteRange::parse("500@1000", 7).unwrap(), br);
    let plain = ByteRange { length: u64::MAX, offset: None };
    assert_eq!(ByteRange::parse(&plain.render(), 1).unwrap(), plain);
    assert_eq!(ByteRange::parse("5@x", 9), Err(Error::HlsParse { line_no: 9 }));
    assert_eq!(ByteRange::parse("18446744073709551616", 4), Err(Error::HlsParse { line_no: 4 }));
}

#[test]
fn map_line_and_preload_names() {
    let mut s = String::new();
    push_map_line(
        &mut s,
        &MapTag { uri: "init.mp4".into(), byte_range: Some(ByteRange { length: 10, offset: Some(0) }) },
    );
    assert_eq!(s, "#EXT-X-MAP:URI=\"init.mp4\",BYTERANGE=\"10@0\"\n");
    assert_eq!(PreloadHintType::Part.name(), "PART");
    assert_eq!(PreloadHintType::InitSection.name(), "MAP");
    assert_eq!(PreloadHintType::default(), PreloadHintType::Part);
}
