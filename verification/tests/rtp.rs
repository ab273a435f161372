use transmux::init_segment::OpaqueBox;
use transmux::ir::{CodecConfig, Media, Sample, Track, TrackSpec};
use transmux::mp4esds::{
    DecoderConfigDescriptor, DecoderSpecificInfo, ESDescriptor, EsdsBox, ObjectTypeIndication, StreamType,
};
use transmux::rtp::{
    base64_decode, base64_encode, depacketise_klv, hex_decode, hex_encode, packetise_klv, parse_rtp_header,
    reassemble_audio, reassemble_video, rtp_header, RtpDepacketiser, RtpInput, RtpInputStream, RtpMediaKind,
    RtpPacketiser, DEFAULT_AUDIO_PT, DEFAULT_KLV_PT, DEFAULT_MTU, DEFAULT_VIDEO_PT, KLV_ENCODING_NAME,
    RTP_HEADER_LEN, VIDEO_CLOCK_RATE,
};
use transmux::error::Error;

#[test]
fn reassemble_video_reports_timestamp_and_sync() {
    // Two single-NAL AUs at different RTP timestamps; first is an IDR (type 5),
    // second a non-IDR slice (type 1). Marker bit ends each AU.
    // RTP fixed header: V=2 (0x80), PT=96; seq; timestamp; ssrc=0.
    fn pkt(seq: u16, ts: u32, marker: bool, nal: &[u8]) -> Vec<u8> {
        let mut p = vec![0x80u8, if marker { 0x80 | 96 } else { 96 }];
        p.extend_from_slice(&seq.to_be_bytes());
        p.extend_from_slice(&ts.to_be_bytes());
        p.extend_from_slice(&[0, 0, 0, 0]); // ssrc
        p.extend_from_slice(nal);
        p
    }
    let idr = [0x65u8, 0xAA]; // nal_ref_idc=3, type=5 (IDR)
    let non = [0x41u8, 0xBB]; // nal_ref_idc=2, type=1 (non-IDR)
    let packets = vec![pkt(1, 1000, true, &idr), pkt(2, 4000, true, &non)];
    let aus = reassemble_video(&packets).unwrap();
    assert_eq!(aus.len(), 2);
    assert_eq!(aus[0].timestamp, 1000);
    assert!(aus[0].is_sync, "IDR AU must be sync");
    assert_eq!(aus[1].timestamp, 4000);
    assert!(!aus[1].is_sync, "non-IDR AU must not be sync");
    // data is length-prefixed NAL (4-byte length + NAL)
    assert_eq!(&aus[0].data[..4], &[0, 0, 0, 2]);
    assert_eq!(&aus[0].data[4..], &idr);
}

#[test]
fn base64_round_trip() {
    let data = b"\x67\x42\xc0\x1e\xd9";
    let enc = base64_encode(data);
    assert_eq!(base64_decode(&enc).unwrap(), data);
}

#[test]
fn base64_known_vector() {
    // RFC 4648 test vector.
    assert_eq!(base64_encode(b"foobar"), "Zm9vYmFy");
    assert_eq!(base64_encode(b"fo"), "Zm8=");
    assert_eq!(base64_decode("Zm9vYmFy").unwrap(), b"foobar");
}

#[test]
fn hex_round_trip() {
    let data = b"\x12\x08\x56\xe5\x00";
    let enc = hex_encode(data);
    assert_eq!(enc, "12085 6e500".replace(' ', ""));
    assert_eq!(hex_decode(&enc).unwrap(), data);
}

#[test]
fn rtp_header_layout() {
    let h = rtp_header(96, true, 7, 0x0001_0000, 0xDEAD_BEEF);
    assert_eq!(h.len(), RTP_HEADER_LEN);
    assert_eq!(h[0], 0x80); // V=2
    assert_eq!(h[1], 0x80 | 96); // marker + PT
    assert_eq!(u16::from_be_bytes([h[2], h[3]]), 7);
    assert_eq!(u32::from_be_bytes([h[4], h[5], h[6], h[7]]), 0x0001_0000);
    let parsed = parse_rtp_header(&h).unwrap();
    assert!(parsed.marker);
    assert_eq!(parsed.payload_type, 96);
}

fn pkt(seq: u16, ts: u32, marker: bool, payload: &[u8]) -> Vec<u8> {
    let mut p = rtp_header(96, marker, seq, ts, 0);
    p.extend_from_slice(payload);
    p
}

#[test]
fn base64_all_padding_lengths() {
    assert_eq!(base64_encode(b""), "");
    assert_eq!(base64_encode(b"f"), "Zg==");
    assert_eq!(base64_encode(b"foo"), "Zm9v");
    assert_eq!(base64_decode("Zg==").unwrap(), b"f");
    assert_eq!(base64_decode("Zm8=").unwrap(), b"fo");
}

#[test]
fn base64_decode_rejects_bad_character() {
    assert!(base64_decode("Zm9*").is_err());
}

#[test]
fn hex_decode_rejects_odd_length_and_non_digit() {
    assert_eq!(
        hex_decode("abc"),
        Err(Error::InvalidValue { field: "hex", value: 3, reason: "odd-length hex string" })
    );
    assert_eq!(
        hex_decode("zz"),
        Err(Error::InvalidValue { field: "hex", value: b'z' as u64, reason: "not a hex digit" })
    );
    assert_eq!(hex_decode("0A0b").unwrap(), vec![0x0A, 0x0B]);
}

#[test]
fn parse_rtp_header_rejects_version_one() {
    let mut h = rtp_header(96, false, 1, 2, 3);
    h[0] = 0x40;
    assert_eq!(
        parse_rtp_header(&h).err(),
        Some(Error::InvalidValue { field: "rtp_version", value: 1, reason: "must be 2" })
    );
}

#[test]
fn parse_rtp_header_rejects_short_packet() {
    assert_eq!(
        parse_rtp_header(&[0x80, 96, 0, 1]).err(),
        Some(Error::BufferTooShort { need: 12, have: 4, what: "RTP fixed header" })
    );
}

#[test]
fn parse_rtp_header_skips_csrc_extension_and_padding() {
    // V=2, P=1, X=1, CC=1.
    let mut p = vec![0x80 | 0x20 | 0x10 | 0x01, 0x80 | 97, 0, 5, 0, 0, 0, 9, 0, 0, 0, 1];
    p.extend_from_slice(&[0xAA, 0xBB, 0xCC, 0xDD]); // one CSRC
    p.extend_from_slice(&[0xBE, 0xDE, 0x00, 0x01, 1, 2, 3, 4]); // extension, one word
    p.extend_from_slice(&[0x11, 0x22, 0x33]); // payload
    p.extend_from_slice(&[0x00, 0x02]); // two padding bytes, count last
    let h = parse_rtp_header(&p).unwrap();
    assert!(h.marker);
    assert_eq!(h.payload_type, 97);
    assert_eq!(h.sequence, 5);
    assert_eq!(h.timestamp, 9);
    assert_eq!(h.ssrc, 1);
    assert_eq!(h.payload, &[0x11, 0x22, 0x33]);
}

#[test]
fn klv_packetise_then_depacketise_round_trips() {
    let unit: Vec<u8> = (0..100u8).collect();
    let packets = packetise_klv(&unit, DEFAULT_KLV_PT, 65534, 1234, 0xABCD, 12 + 30).unwrap();
    assert_eq!(packets.len(), 4);
    // Sequence numbers wrap at 16 bits; the marker is on the last packet only.
    let seqs: Vec<u16> = packets.iter().map(|p| parse_rtp_header(p).unwrap().sequence).collect();
    assert_eq!(seqs, vec![65534, 65535, 0, 1]);
    let markers: Vec<bool> = packets.iter().map(|p| parse_rtp_header(p).unwrap().marker).collect();
    assert_eq!(markers, vec![false, false, false, true]);
    assert_eq!(packets[3].len(), 12 + 10);
    assert_eq!(depacketise_klv(&packets).unwrap(), vec![unit]);
}

#[test]
fn klv_packetise_refuses_empty_unit_and_tiny_mtu() {
    assert_eq!(
        packetise_klv(&[], 98, 0, 0, 0, 1400),
        Err(Error::InvalidInput("cannot packetise an empty KLV unit"))
    );
    assert_eq!(packetise_klv(&[1], 98, 0, 0, 0, 12), Err(Error::InvalidInput("MTU too small for KLV-over-RTP")));
}

#[test]
fn klv_depacketise_splits_on_timestamp_change() {
    let packets = vec![pkt(1, 10, false, &[1, 2]), pkt(2, 20, false, &[3]), pkt(3, 20, true, &[4])];
    assert_eq!(depacketise_klv(&packets).unwrap(), vec![vec![1, 2], vec![3, 4]]);
    assert_eq!(KLV_ENCODING_NAME, "smpte336m");
}

#[test]
fn reassemble_video_fu_a_and_stap_a() {
    // STAP-A carrying two NALs, then an IDR split into FU-A start/end.
    let stap = [24u8, 0, 2, 0x67, 0x42, 0, 1, 0x68];
    let fu_start = [0x60 | 28, 0x80 | 5, 0xAA];
    let fu_end = [0x60 | 28, 0x40 | 5, 0xBB];
    let packets = vec![pkt(1, 90, false, &stap), pkt(2, 90, false, &fu_start), pkt(3, 90, true, &fu_end)];
    let aus = reassemble_video(&packets).unwrap();
    assert_eq!(aus.len(), 1);
    assert!(aus[0].is_sync);
    assert_eq!(aus[0].timestamp, 90);
    assert_eq!(aus[0].data, vec![0, 0, 0, 2, 0x67, 0x42, 0, 0, 0, 1, 0x68, 0, 0, 0, 3, 0x65, 0xAA, 0xBB]);
}

#[test]
fn reassemble_video_rejects_fragment_before_start() {
    let packets = vec![pkt(1, 90, true, &[0x7C, 0x45, 0x01])];
    assert!(matches!(reassemble_video(&packets), Err(Error::InvalidInput("FU-A fragment before start"))));
}

#[test]
fn reassemble_audio_strips_au_headers() {
    // AU-headers-length 16 bits, one header: size 3 (3 << 3 = 0x0018).
    let packets = vec![pkt(1, 1024, true, &[0x00, 0x10, 0x00, 0x18, 7, 8, 9])];
    let aus = reassemble_audio(&packets).unwrap();
    assert_eq!(aus.len(), 1);
    assert_eq!(aus[0].timestamp, 1024);
    assert!(aus[0].is_sync);
    assert_eq!(aus[0].data, vec![7, 8, 9]);
}

#[test]
fn reassemble_audio_rejects_short_payload() {
    let packets = vec![pkt(1, 0, true, &[0x00])];
    assert!(matches!(
        reassemble_audio(&packets),
        Err(Error::BufferTooShort { need: 2, have: 1, what: "AAC AU-headers-length" })
    ));
}

fn avc_track(samples: Vec<Sample>) -> Track {
    let avcc = vec![1, 66, 0, 30, 0xFF, 0xE1, 0, 2, 0x67, 0x42, 1, 0, 1, 0x68];
    Track::new(
        TrackSpec::new(1, 90_000, CodecConfig::Avc { config: OpaqueBox::new(*b"avcC", avcc), width: 16, height: 16 }),
        samples,
    )
}

fn aac_track(samples: Vec<Sample>) -> Track {
    let es = ESDescriptor {
        es_id: 2,
        stream_dependence_flag: false,
        url_flag: false,
        ocr_stream_flag: false,
        stream_priority: 0,
        depends_on_es_id: None,
        url: None,
        ocr_es_id: None,
        decoder_config: Some(DecoderConfigDescriptor {
            object_type_indication: ObjectTypeIndication(0x40),
            stream_type: StreamType(5),
            up_stream: false,
            buffer_size_db: 0,
            max_bitrate: 0,
            avg_bitrate: 0,
            decoder_specific_info: Some(DecoderSpecificInfo { data: vec![0x12, 0x08] }),
        }),
        sl_config: None,
    };
    Track::new(
        TrackSpec::new(
            2,
            44_100,
            CodecConfig::Aac { esds: EsdsBox::new(es), channel_count: 1, sample_rate: 44_100, sample_size: 16 },
        ),
        samples,
    )
}

#[test]
fn packetiser_defaults() {
    let p = RtpPacketiser::new();
    assert_eq!(p.mtu, DEFAULT_MTU);
    assert_eq!(p.video_pt, DEFAULT_VIDEO_PT);
    assert_eq!(p.audio_pt, DEFAULT_AUDIO_PT);
    assert!(p.stap_a_parameter_sets);
    assert_eq!(VIDEO_CLOCK_RATE, 90_000);
    assert_eq!(RtpMediaKind::H264.name(), "video");
    assert_eq!(RtpMediaKind::Aac.name(), "audio");
}

#[test]
fn package_refuses_media_without_tracks() {
    let mut p = RtpPacketiser::new();
    assert!(matches!(
        p.package(&Media::new(vec![], 1000)),
        Err(Error::InvalidInput("cannot packetise a Media with no tracks"))
    ));
}

#[test]
fn package_avc_and_aac_then_unpackage_round_trips_samples() {
    let v0 = vec![0, 0, 0, 2, 0x65, 0x88];
    let v1 = vec![0, 0, 0, 2, 0x41, 0x9A];
    let video = avc_track(vec![
        Sample::new(v0.clone(), Some(0), Some(0), Some(3000), true),
        Sample::new(v1.clone(), Some(3000), Some(3000), Some(3000), false),
    ]);
    let audio = aac_track(vec![
        Sample::new(vec![1, 2, 3], Some(0), Some(0), Some(1024), true),
        Sample::new(vec![4, 5], Some(1024), Some(1024), Some(1024), true),
    ]);
    let mut p = RtpPacketiser::new();
    let out = p.package(&Media::new(vec![video, audio], 1000)).unwrap();
    assert_eq!(out.streams.len(), 2);
    assert_eq!(out.streams[0].pt, 96);
    assert_eq!(out.streams[0].kind, RtpMediaKind::H264);
    // STAP-A with SPS+PPS, then one packet per single-NAL AU.
    assert_eq!(out.streams[0].packets.len(), 3);
    let ts: Vec<u32> = out.streams[0].packets.iter().map(|p| parse_rtp_header(p).unwrap().timestamp).collect();
    assert_eq!(ts, vec![0, 0, 3000]);
    assert_eq!(out.streams[1].pt, 97);
    assert_eq!(out.streams[1].packets.len(), 2);
    assert_eq!(parse_rtp_header(&out.streams[1].packets[1]).unwrap().timestamp, 1024);
    assert!(out.sdp.starts_with("v=0\r\no=- 0 0 IN IP4 127.0.0.1\r\ns=transmux RTP\r\nt=0 0\r\n"));
    assert!(out.sdp.contains("m=video 0 RTP/AVP 96\r\na=rtpmap:96 H264/90000\r\n"));
    assert!(out.sdp.contains("profile-level-id=42001E; sprop-parameter-sets=Z0I=,aA==\r\n"));
    assert!(out.sdp.contains("a=rtpmap:97 mpeg4-generic/44100/1\r\n"));
    assert!(out.sdp.contains("config=1208; sizeLength=13; indexLength=3; indexDeltaLength=3\r\n"));

    let input = RtpInput {
        streams: vec![
            RtpInputStream { kind: RtpMediaKind::H264, packets: out.streams[0].packets.clone() },
            RtpInputStream { kind: RtpMediaKind::Aac, packets: out.streams[1].packets.clone() },
        ],
    };
    let media = RtpDepacketiser::new().unpackage(input).unwrap();
    assert_eq!(media.tracks.len(), 2);
    assert_eq!(media.tracks[0].spec.track_id, 1);
    assert_eq!(media.tracks[1].spec.track_id, 2);
    // The STAP-A parameter sets join the first access unit.
    assert_eq!(media.tracks[0].samples.len(), 2);
    assert_eq!(media.tracks[0].samples[0].data, vec![0, 0, 0, 2, 0x67, 0x42, 0, 0, 0, 1, 0x68, 0, 0, 0, 2, 0x65, 0x88]);
    assert_eq!(media.tracks[0].samples[1].data, v1);
    assert_eq!(media.tracks[1].samples[0].data, vec![1, 2, 3]);
    assert_eq!(media.tracks[1].samples[1].data, vec![4, 5]);
}

#[test]
fn package_fragments_large_nal_as_fu_a() {
    let mut nal = vec![0x65u8];
    nal.extend(std::iter::repeat(0x11u8).take(40));
    let mut data = (nal.len() as u32).to_be_bytes().to_vec();
    data.extend_from_slice(&nal);
    let video = avc_track(vec![Sample::new(data.clone(), Some(0), Some(0), Some(3000), true)]);
    let mut p = RtpPacketiser::new();
    p.mtu = 12 + 2 + 16;
    p.stap_a_parameter_sets = false;
    let out = p.package(&Media::new(vec![video], 1000)).unwrap();
    let packets = &out.streams[0].packets;
    assert_eq!(packets.len(), 3);
    assert_eq!(packets[0][12], 0x60 | 28);
    assert_eq!(packets[0][13], 0x80 | 5);
    assert_eq!(packets[2][13], 0x40 | 5);
    assert!(parse_rtp_header(&packets[2]).unwrap().marker);
    assert!(!parse_rtp_header(&packets[0]).unwrap().marker);
    let aus = reassemble_video(packets).unwrap();
    assert_eq!(aus.len(), 1);
    assert_eq!(aus[0].data, data);
}

#[test]
fn package_refuses_oversized_aac_unit() {
    let audio = aac_track(vec![Sample::new(vec![0u8; 8192], Some(0), Some(0), Some(1024), true)]);
    let mut p = RtpPacketiser::new();
    assert!(matches!(
        p.package(&Media::new(vec![audio], 1000)),
        Err(Error::InvalidValue { field: "aac_au_size", value: 8192, .. })
    ));
}
