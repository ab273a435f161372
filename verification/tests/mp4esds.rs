use transmux::mp4esds::{
    parse_varint, write_varint_fixed, DecoderConfigDescriptor, DecoderSpecificInfo, ESDescriptor, EsdsBox,
    ObjectTypeIndication, SLConfigDescriptor, StreamType, TAG_SL_CONFIG,
};

#[test]
fn test_parse_varint_accepts_1_to_4_byte_forms() {
    // parse_varint must accept any 1–4 byte width (minimal or expanded).
    let cases: &[(&[u8], usize, usize)] = &[
        (&[0x00], 0, 1),
        (&[0x7F], 0x7F, 1),
        (&[0x81, 0x00], 0x80, 2),
        (&[0xFF, 0x7F], 0x3FFF, 2),
        (&[0x81, 0x80, 0x00], 0x4000, 3),
        // expanded 4-byte forms as written by ffmpeg/real muxers:
        (&[0x80, 0x80, 0x80, 0x25], 0x25, 4),
        (&[0x80, 0x80, 0x80, 0x01], 0x01, 4),
        (&[0xFF, 0xFF, 0xFF, 0x7F], 0x0FFF_FFFF, 4),
    ];
    for &(bytes, val, consumed) in cases {
        let mut c = 0usize;
        let (decoded, n) = parse_varint(bytes, &mut c).unwrap();
        assert_eq!(decoded, val, "parse {bytes:02x?}");
        assert_eq!(c, consumed, "cursor for {bytes:02x?}");
        assert_eq!(n, consumed, "consumed for {bytes:02x?}");
    }
}

#[test]
fn test_write_varint_fixed_is_4_byte_expanded_and_round_trips() {
    // write_varint_fixed always emits the 4-byte expanded form (matches ffmpeg).
    for &val in &[0usize, 1, 0x25, 0x17, 5, 0x4000, 0x0FFF_FFFF] {
        let mut buf = [0u8; 4];
        let mut c = 0usize;
        write_varint_fixed(&mut buf, &mut c, val).unwrap();
        assert_eq!(c, 4, "fixed varint is always 4 bytes for {val}");
        // high bit set on first three bytes, clear on last
        assert_eq!(buf[0] & 0x80, 0x80);
        assert_eq!(buf[3] & 0x80, 0x00);
        let mut rc = 0usize;
        let (decoded, _) = parse_varint(&buf, &mut rc).unwrap();
        assert_eq!(decoded, val, "round-trip {val}");
    }
}

/// A real `esds` box, extracted by muxing the audio of
/// `fixtures/ts/h264_aac.ts` (AAC-LC, 44.1 kHz, mono) to MP4 with ffmpeg.
/// It carries the 4-byte-expanded (`80 80 80 xx`) descriptor size form and
/// real max/avg bitrates — value-verifying the parser against 14496-1 §7.2.6
/// on data this crate did not author.
const REAL_ESDS_BOX_AAC: &[u8] = &[
    0x00, 0x00, 0x00, 0x33, 0x65, 0x73, 0x64, 0x73, // box size 51 + 'esds'
    0x00, 0x00, 0x00, 0x00,                         // FullBox version/flags
    0x03, 0x80, 0x80, 0x80, 0x22,                   // ES_DescrTag, size 0x22
    0x00, 0x01,                                     // ES_ID = 1
    0x00,                                           // flags = 0
    0x04, 0x80, 0x80, 0x80, 0x14,                   // DecoderConfigDescrTag, size 0x14
    0x40,                                           // objectTypeIndication = MPEG-4 Audio
    0x15,                                           // streamType(5=Audio)<<2 | upStream | rsvd
    0x00, 0x00, 0x00,                               // bufferSizeDB
    0x00, 0x01, 0x80, 0x7d,                         // maxBitrate
    0x00, 0x01, 0x77, 0x0d,                         // avgBitrate
    0x05, 0x80, 0x80, 0x80, 0x02,                   // DecSpecificInfoTag, size 2
    0x12, 0x08,                                     // AudioSpecificConfig (AAC-LC 44.1k mono)
    0x06, 0x80, 0x80, 0x80, 0x01,                   // SLConfigDescrTag, size 1
    0x02,                                           // predefined = 2 (MP4)
];

#[test]
fn real_esds_box_round_trips_byte_exact() {
    let esds = EsdsBox::parse_box(REAL_ESDS_BOX_AAC).expect("parse real esds");
    assert_eq!(esds.es_descriptor.es_id, 1);
    let dc = esds
        .es_descriptor
        .decoder_config
        .as_ref()
        .expect("decoder config");
    assert_eq!(dc.object_type_indication.0, 0x40, "AAC OTI");
    assert_eq!(dc.stream_type.0, 5, "AudioStream");
    assert_eq!(dc.max_bitrate, 0x0001_807d);
    assert_eq!(dc.avg_bitrate, 0x0001_770d);
    assert_eq!(
        dc.decoder_specific_info.as_ref().expect("dsi").data,
        &[0x12, 0x08],
        "AudioSpecificConfig"
    );

    // Byte-exact round-trip on real ffmpeg-authored bytes.
    let mut buf = vec![0u8; esds.serialized_len()];
    let n = esds.serialize_into(&mut buf).expect("serialize");
    assert_eq!(&buf[..n], REAL_ESDS_BOX_AAC, "real esds must round-trip");
}

#[test]
fn test_skip_unknown_descriptor() {
    // Build raw bytes: tag=0x07 (unknown) size=4 body=[1,2,3,4],
    // then tag=0x06 (SLConfig) size=1 body=[2].
    let bytes = [0x07, 0x04, 1, 2, 3, 4, TAG_SL_CONFIG, 0x01, 0x02];
    let mut cursor = 0usize;
    // First descriptor (unknown)
    let tag1 = bytes[cursor];
    cursor += 1;
    let (size1, _) = parse_varint(&bytes, &mut cursor).unwrap();
    assert_eq!(tag1, 0x07);
    assert_eq!(size1, 4);
    cursor += size1; // skip

    // Second descriptor (SLConfig)
    let tag2 = bytes[cursor];
    cursor += 1;
    assert_eq!(tag2, TAG_SL_CONFIG);
    let (size2, _) = parse_varint(&bytes, &mut cursor).unwrap();
    assert_eq!(size2, 1);
    let body2 = &bytes[cursor..cursor + size2];
    assert_eq!(body2, &[0x02]);
}

#[test]
fn test_esds_mutation_changes_bytes() {
    // Build a minimal ES_Descriptor from known values
    let es = EsdsBox::new(ESDescriptor {
        es_id: 2,
        stream_dependence_flag: false,
        url_flag: false,
        ocr_stream_flag: false,
        stream_priority: 0,
        depends_on_es_id: None,
        url: None,
        ocr_es_id: None,
        decoder_config: Some(DecoderConfigDescriptor {
            object_type_indication: ObjectTypeIndication(0x40),
            stream_type: StreamType(5),
            up_stream: false,
            buffer_size_db: 0,
            max_bitrate: 24576000,
            avg_bitrate: 24576005,
            decoder_specific_info: Some(DecoderSpecificInfo {
                data: vec![0x12, 0x08, 0x56, 0xe5, 0x00],
            }),
        }),
        sl_config: Some(SLConfigDescriptor { body: vec![0x02] }),
    });

    let original = es.to_bytes();

    // Mutate objectTypeIndication
    let mut es2 = es.clone();
    let dc = es2.es_descriptor.decoder_config.as_mut().unwrap();
    dc.object_type_indication = ObjectTypeIndication(0x21); // AVC
    let mutated = es2.to_bytes();
    assert_ne!(mutated, original, "mutating OTI must change bytes");
}

#[test]
fn esds_parse_then_serialize_with_to_bytes_matches() {
    let esds = EsdsBox::parse_box(REAL_ESDS_BOX_AAC).expect("parse real esds");
    assert_eq!(esds.to_bytes(), REAL_ESDS_BOX_AAC.to_vec());
}

#[test]
fn parse_varint_rejects_five_continuation_bytes() {
    let mut c = 0usize;
    assert!(parse_varint(&[0x80, 0x80, 0x80, 0x80, 0x01], &mut c).is_err());
}

#[test]
fn parse_varint_rejects_truncated_input() {
    let mut c = 0usize;
    assert!(parse_varint(&[0x81], &mut c).is_err());
}

#[test]
fn write_varint_fixed_rejects_a_short_buffer() {
    let mut buf = [0u8; 5];
    let mut c = 2usize;
    assert!(write_varint_fixed(&mut buf, &mut c, 5).is_err());
    assert_eq!(c, 2);
}

#[test]
fn esds_parse_box_rejects_wrong_type() {
    let mut bytes = REAL_ESDS_BOX_AAC.to_vec();
    bytes[4] = b'x';
    assert!(EsdsBox::parse_box(&bytes).is_err());
}
