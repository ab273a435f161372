use transmux::init_segment::{
    ChunkOffsetBox, DataEntryUrlBox, DataReferenceBox, HandlerBox, MediaHeaderBox, MovieHeaderBox,
    SampleSizeBox, SampleToChunkBox, SoundMediaHeaderBox, StscEntry, TrackExtendsBox, TrackHeaderBox,
    VideoMediaHeaderBox,
};

/// Build a small mvhd v0 for unit testing.
fn sample_mvhd_v0() -> MovieHeaderBox {
    MovieHeaderBox {
        version: 0,
        flags: 0,
        creation_time: 0,
        modification_time: 0,
        timescale: 1000,
        duration: 2000,
        rate: 0x00010000,
        volume: 0x0100,
        matrix: [0x00010000, 0, 0, 0, 0x00010000, 0, 0, 0, 0x40000000],
        next_track_id: 3,
    }
}

#[test]
fn mvhd_v0_round_trip() {
    let m = sample_mvhd_v0();
    let bytes = m.to_bytes();
    let parsed = MovieHeaderBox::parse(&bytes).unwrap();
    assert_eq!(parsed, m);
}

#[test]
fn mvhd_v0_mutation_changes_bytes() {
    let m = sample_mvhd_v0();
    let orig = m.to_bytes();
    let mut m2 = m.clone();
    m2.timescale = 30000;
    let mutated = m2.to_bytes();
    assert_ne!(orig, mutated);
    // Verify the right field changed
    assert_ne!(orig[20..24], mutated[20..24]);
}

#[test]
fn tkhd_v0_round_trip() {
    let t = TrackHeaderBox {
        version: 0,
        flags: 0x000003, // track_enabled | track_in_movie
        creation_time: 0,
        modification_time: 0,
        track_id: 1,
        duration: 2000,
        layer: 0,
        alternate_group: 0,
        volume: 0,
        matrix: [0x00010000, 0, 0, 0, 0x00010000, 0, 0, 0, 0x40000000],
        width: 0,
        height: 0,
    };
    let bytes = t.to_bytes();
    let parsed = TrackHeaderBox::parse(&bytes).unwrap();
    assert_eq!(parsed, t);
}

#[test]
fn stsc_round_trip() {
    let s = SampleToChunkBox {
        version: 0,
        flags: 0,
        entries: vec![StscEntry { first_chunk: 1, samples_per_chunk: 10, sample_description_index: 1 }],
    };
    let bytes = s.to_bytes();
    let parsed = SampleToChunkBox::parse(&bytes).unwrap();
    assert_eq!(parsed, s);
}

#[test]
fn stsz_uniform_round_trip() {
    let s = SampleSizeBox { version: 0, flags: 0, sample_size: 512, entries: vec![] };
    let bytes = s.to_bytes();
    let parsed = SampleSizeBox::parse(&bytes).unwrap();
    assert_eq!(parsed, s);
}

#[test]
fn stco_round_trip() {
    let s = ChunkOffsetBox { version: 0, flags: 0, entries: vec![0, 1024, 2048, 4096] };
    let bytes = s.to_bytes();
    let parsed = ChunkOffsetBox::parse(&bytes).unwrap();
    assert_eq!(parsed, s);
}

#[test]
fn dref_url_round_trip() {
    let url = DataEntryUrlBox { version: 0, flags: 1, location: vec![] };
    let dref = DataReferenceBox { version: 0, flags: 0, entries: vec![url] };
    let bytes = dref.to_bytes();
    let parsed = DataReferenceBox::parse(&bytes).unwrap();
    assert_eq!(parsed, dref);
}

#[test]
fn mvhd_v0_layout_is_108_bytes() {
    let bytes = sample_mvhd_v0().to_bytes();
    assert_eq!(bytes.len(), 108);
    assert_eq!(&bytes[0..8], &[0, 0, 0, 108, b'm', b'v', b'h', b'd']);
    // timescale at body offset 12, duration at 16 (version 0).
    assert_eq!(&bytes[20..24], &[0, 0, 0x03, 0xE8]);
    assert_eq!(&bytes[24..28], &[0, 0, 0x07, 0xD0]);
}

#[test]
fn mvhd_parse_reads_fields_whatever_the_box_type() {
    let mut bytes = sample_mvhd_v0().to_bytes();
    bytes[4] = b'x';
    assert_eq!(MovieHeaderBox::parse(&bytes).unwrap(), sample_mvhd_v0());
}

#[test]
fn mvhd_parse_rejects_truncated_input() {
    let bytes = sample_mvhd_v0().to_bytes();
    assert!(MovieHeaderBox::parse(&bytes[..20]).is_err());
}

#[test]
fn mdhd_round_trip() {
    let m = MediaHeaderBox {
        version: 0,
        flags: 0,
        creation_time: 0,
        modification_time: 0,
        timescale: 90000,
        duration: 180000,
        language: 0x55C4,
    };
    let parsed = MediaHeaderBox::parse(&m.to_bytes()).unwrap();
    assert_eq!(parsed, m);
}

#[test]
fn hdlr_round_trip() {
    let h = HandlerBox { version: 0, flags: 0, handler_type: *b"vide", name: b"VideoHandler\0".to_vec() };
    let parsed = HandlerBox::parse(&h.to_bytes()).unwrap();
    assert_eq!(parsed, h);
}

#[test]
fn vmhd_round_trip() {
    let v = VideoMediaHeaderBox { version: 0, flags: 1, graphicsmode: 0, opcolor: [0, 0, 0] };
    let bytes = v.to_bytes();
    assert_eq!(bytes.len(), 20);
    assert_eq!(VideoMediaHeaderBox::parse(&bytes).unwrap(), v);
}

#[test]
fn smhd_round_trip() {
    let s = SoundMediaHeaderBox { version: 0, flags: 0, balance: -256 };
    let bytes = s.to_bytes();
    assert_eq!(bytes.len(), 16);
    assert_eq!(SoundMediaHeaderBox::parse(&bytes).unwrap(), s);
}

#[test]
fn trex_round_trip() {
    let t = TrackExtendsBox {
        version: 0,
        flags: 0,
        track_id: 1,
        default_sample_description_index: 1,
        default_sample_duration: 3000,
        default_sample_size: 0,
        default_sample_flags: 0x0101_0000,
    };
    let bytes = t.to_bytes();
    assert_eq!(bytes.len(), 32);
    assert_eq!(TrackExtendsBox::parse(&bytes).unwrap(), t);
}
