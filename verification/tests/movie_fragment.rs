use transmux::movie_fragment::{
    MovieFragmentBox, MovieFragmentHeaderBox, TrackFragmentBaseMediaDecodeTimeBox, TrackFragmentBox,
    TrackFragmentHeaderBox, TrackFragmentRunBox, TrunSample, TFHD_BASE_DATA_OFFSET_PRESENT,
    TFHD_DEFAULT_BASE_IS_MOOF, TFHD_DEFAULT_SAMPLE_DURATION_PRESENT, TFHD_DEFAULT_SAMPLE_FLAGS_PRESENT,
    TFHD_DEFAULT_SAMPLE_SIZE_PRESENT, TFHD_SAMPLE_DESCRIPTION_INDEX_PRESENT, TRUN_DATA_OFFSET_PRESENT,
    TRUN_FIRST_SAMPLE_FLAGS_PRESENT, TRUN_SAMPLE_COMPOSITION_TIME_OFFSET_PRESENT,
    TRUN_SAMPLE_DURATION_PRESENT, TRUN_SAMPLE_FLAGS_PRESENT, TRUN_SAMPLE_SIZE_PRESENT,
};

#[test]
fn mfhd_round_trip() {
    let m = MovieFragmentHeaderBox::new(42);
    let b = m.to_bytes();
    let p = MovieFragmentHeaderBox::parse_body(&b[8..]).unwrap();
    assert_eq!(p.sequence_number, 42);
    assert_eq!(b, p.to_bytes());
}
#[test]
fn mfhd_len() {
    assert_eq!(MovieFragmentHeaderBox::new(1).serialized_len(), 16);
}

#[test]
fn tfhd_minimal() {
    let t = TrackFragmentHeaderBox {
        flags: 0,
        track_id: 1,
        base_data_offset: None,
        sample_description_index: None,
        default_sample_duration: None,
        default_sample_size: None,
        default_sample_flags: None,
    };
    let b = t.to_bytes();
    let p = TrackFragmentHeaderBox::parse_body(&b[8..]).unwrap();
    assert_eq!(p.track_id, 1);
    assert_eq!(b, p.to_bytes());
}
#[test]
fn tfhd_subset() {
    let t = TrackFragmentHeaderBox {
        flags: TFHD_DEFAULT_SAMPLE_DURATION_PRESENT | TFHD_DEFAULT_SAMPLE_SIZE_PRESENT,
        track_id: 7,
        base_data_offset: None,
        sample_description_index: None,
        default_sample_duration: Some(512),
        default_sample_size: Some(3933),
        default_sample_flags: None,
    };
    let b = t.to_bytes();
    let p = TrackFragmentHeaderBox::parse_body(&b[8..]).unwrap();
    assert_eq!(p.default_sample_duration, Some(512));
    assert_eq!(p.default_sample_size, Some(3933));
    assert_eq!(b, p.to_bytes());
}
#[test]
fn tfhd_full_flags() {
    let t = TrackFragmentHeaderBox {
        flags: TFHD_BASE_DATA_OFFSET_PRESENT
            | TFHD_SAMPLE_DESCRIPTION_INDEX_PRESENT
            | TFHD_DEFAULT_SAMPLE_DURATION_PRESENT
            | TFHD_DEFAULT_SAMPLE_SIZE_PRESENT
            | TFHD_DEFAULT_SAMPLE_FLAGS_PRESENT
            | TFHD_DEFAULT_BASE_IS_MOOF,
        track_id: 2,
        base_data_offset: Some(0x1234567890ABCDEF),
        sample_description_index: Some(1),
        default_sample_duration: Some(1024),
        default_sample_size: Some(256),
        default_sample_flags: Some(0x01010000),
    };
    let b = t.to_bytes();
    let p = TrackFragmentHeaderBox::parse_body(&b[8..]).unwrap();
    assert_eq!(p.base_data_offset, t.base_data_offset);
    assert_eq!(p.flags, t.flags);
    assert_eq!(b, p.to_bytes());
}

#[test]
fn tfdt_v0() {
    let t = TrackFragmentBaseMediaDecodeTimeBox::new_v0(12345);
    let b = t.to_bytes();
    assert_eq!(b.len(), 16);
    let p = TrackFragmentBaseMediaDecodeTimeBox::parse_body(&b[8..]).unwrap();
    assert_eq!(p.base_media_decode_time(), 12345);
    assert!(p.version() == 0);
    assert_eq!(b, p.to_bytes());
}
#[test]
fn tfdt_v1() {
    let t = TrackFragmentBaseMediaDecodeTimeBox::new_v1(0x123456789AB);
    let b = t.to_bytes();
    assert_eq!(b.len(), 20);
    let p = TrackFragmentBaseMediaDecodeTimeBox::parse_body(&b[8..]).unwrap();
    assert_eq!(p.base_media_decode_time(), 0x123456789AB);
    assert!(p.version() == 1);
    assert_eq!(b, p.to_bytes());
}

#[test]
fn trun_subset_flags() {
    let tr = TrackFragmentRunBox {
        version: 0,
        tr_flags: TRUN_DATA_OFFSET_PRESENT
            | TRUN_FIRST_SAMPLE_FLAGS_PRESENT
            | TRUN_SAMPLE_SIZE_PRESENT
            | TRUN_SAMPLE_COMPOSITION_TIME_OFFSET_PRESENT,
        data_offset: Some(716),
        first_sample_flags: Some(0x02000000),
        samples: vec![
            TrunSample {
                sample_duration: None,
                sample_size: Some(3933),
                sample_flags: None,
                sample_composition_time_offset: Some(1024),
            },
            TrunSample {
                sample_duration: None,
                sample_size: Some(509),
                sample_flags: None,
                sample_composition_time_offset: Some(2560),
            },
        ],
    };
    let b = tr.to_bytes();
    let p = TrackFragmentRunBox::parse_body(&b[8..]).unwrap();
    assert_eq!(p.samples.len(), 2);
    assert_eq!(p.samples[0].sample_size, Some(3933));
    assert_eq!(p.samples[0].sample_composition_time_offset, Some(1024));
    assert_eq!(b, p.to_bytes());
}
#[test]
fn trun_record_stride() {
    assert_eq!(
        TrackFragmentRunBox::record_stride(
            TRUN_SAMPLE_DURATION_PRESENT | TRUN_SAMPLE_SIZE_PRESENT
        ),
        8
    );
    assert_eq!(
        TrackFragmentRunBox::record_stride(
            TRUN_SAMPLE_DURATION_PRESENT
                | TRUN_SAMPLE_SIZE_PRESENT
                | TRUN_SAMPLE_FLAGS_PRESENT
                | TRUN_SAMPLE_COMPOSITION_TIME_OFFSET_PRESENT
        ),
        16
    );
}
#[test]
fn trun_mutation_changes_bytes() {
    let t = TrackFragmentRunBox {
        version: 0,
        tr_flags: TRUN_SAMPLE_DURATION_PRESENT | TRUN_SAMPLE_SIZE_PRESENT,
        data_offset: None,
        first_sample_flags: None,
        samples: vec![TrunSample {
            sample_duration: Some(1024),
            sample_size: Some(256),
            sample_flags: None,
            sample_composition_time_offset: None,
        }],
    };
    let orig = t.to_bytes();
    let m = TrackFragmentRunBox {
        version: 0,
        tr_flags: TRUN_SAMPLE_DURATION_PRESENT
            | TRUN_SAMPLE_SIZE_PRESENT
            | TRUN_SAMPLE_FLAGS_PRESENT,
        data_offset: None,
        first_sample_flags: None,
        samples: vec![TrunSample {
            sample_duration: Some(1024),
            sample_size: Some(256),
            sample_flags: Some(0x01000000),
            sample_composition_time_offset: None,
        }],
    };
    let mb = m.to_bytes();
    assert_ne!(mb, orig);
    // flags byte at position 10 (0-based: 0-3 size, 4-7 type, 8 ver, 9-11 flags)
    assert_eq!(mb[10] & 0x04, 0x04);
    assert_eq!(orig[10] & 0x04, 0x00);
    // Change tr_flags back, get original bytes
    let m2 = TrackFragmentRunBox {
        tr_flags: t.tr_flags,
        samples: t.samples.clone(),
        ..m
    };
    assert_eq!(m2.to_bytes(), orig);
}

#[test]
fn traf_round_trip() {
    let tfhd = TrackFragmentHeaderBox {
        flags: TFHD_DEFAULT_SAMPLE_DURATION_PRESENT
            | TFHD_DEFAULT_SAMPLE_SIZE_PRESENT
            | TFHD_DEFAULT_SAMPLE_FLAGS_PRESENT
            | TFHD_DEFAULT_BASE_IS_MOOF,
        track_id: 1,
        base_data_offset: None,
        sample_description_index: None,
        default_sample_duration: Some(512),
        default_sample_size: Some(3933),
        default_sample_flags: Some(0x01010000),
    };
    let tfdt = TrackFragmentBaseMediaDecodeTimeBox::new_v1(0);
    let trun = TrackFragmentRunBox {
        version: 0,
        tr_flags: TRUN_DATA_OFFSET_PRESENT
            | TRUN_FIRST_SAMPLE_FLAGS_PRESENT
            | TRUN_SAMPLE_SIZE_PRESENT
            | TRUN_SAMPLE_COMPOSITION_TIME_OFFSET_PRESENT,
        data_offset: Some(716),
        first_sample_flags: Some(0x02000000),
        samples: vec![TrunSample {
            sample_duration: None,
            sample_size: Some(3933),
            sample_flags: None,
            sample_composition_time_offset: Some(1024),
        }],
    };
    let traf = TrackFragmentBox {
        tfhd,
        tfdt: Some(tfdt),
        trun: vec![trun],
    };
    let b = traf.to_bytes();
    let p = TrackFragmentBox::parse_body(&b[8..]).unwrap();
    assert_eq!(p.tfhd.track_id, 1);
    assert!(p.tfdt.is_some());
    assert_eq!(p.trun.len(), 1);
    assert_eq!(b, p.to_bytes());
}

#[test]
fn moof_round_trip() {
    let mfhd = MovieFragmentHeaderBox::new(1);
    let tfhd = TrackFragmentHeaderBox {
        flags: TFHD_DEFAULT_SAMPLE_DURATION_PRESENT
            | TFHD_DEFAULT_SAMPLE_SIZE_PRESENT
            | TFHD_DEFAULT_SAMPLE_FLAGS_PRESENT
            | TFHD_DEFAULT_BASE_IS_MOOF,
        track_id: 1,
        base_data_offset: None,
        sample_description_index: None,
        default_sample_duration: Some(512),
        default_sample_size: Some(3933),
        default_sample_flags: Some(0x01010000),
    };
    let tfdt = TrackFragmentBaseMediaDecodeTimeBox::new_v1(0);
    let trun = TrackFragmentRunBox {
        version: 0,
        tr_flags: TRUN_DATA_OFFSET_PRESENT
            | TRUN_FIRST_SAMPLE_FLAGS_PRESENT
            | TRUN_SAMPLE_SIZE_PRESENT
            | TRUN_SAMPLE_COMPOSITION_TIME_OFFSET_PRESENT,
        data_offset: Some(716),
        first_sample_flags: Some(0x02000000),
        samples: vec![TrunSample {
            sample_duration: None,
            sample_size: Some(3933),
            sample_flags: None,
            sample_composition_time_offset: Some(1024),
        }],
    };
    let traf = TrackFragmentBox {
        tfhd,
        tfdt: Some(tfdt),
        trun: vec![trun],
    };
    let moof = MovieFragmentBox {
        mfhd,
        traf: vec![traf],
    };
    let b = moof.to_bytes();
    let p = MovieFragmentBox::parse_body(&b[8..]).unwrap();
    assert_eq!(p.mfhd.sequence_number, 1);
    assert_eq!(p.traf.len(), 1);
    assert_eq!(b, p.to_bytes());
}


#[test]
fn mfhd_layout() {
    let b = MovieFragmentHeaderBox::new(0x01020304).to_bytes();
    assert_eq!(b, vec![0, 0, 0, 16, b'm', b'f', b'h', b'd', 0, 0, 0, 0, 1, 2, 3, 4]);
}

#[test]
fn tfhd_parse_rejects_short_body() {
    assert!(TrackFragmentHeaderBox::parse_body(&[0, 0, 0, 0, 0, 0]).is_err());
}

#[test]
fn tfdt_parse_rejects_unknown_version() {
    assert!(TrackFragmentBaseMediaDecodeTimeBox::parse_body(&[2, 0, 0, 0, 0, 0, 0, 1]).is_err());
}

#[test]
fn trun_sample_default_is_empty() {
    let s = TrunSample::default();
    assert_eq!(s, TrunSample::new());
    assert_eq!(s.sample_duration, None);
    assert_eq!(s.sample_composition_time_offset, None);
}
