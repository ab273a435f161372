use transmux::error::Error;
use transmux::init_segment::OpaqueBox;
use transmux::ir::{CodecConfig, DataCarriage, Media, Sample, Track, TrackSpec};
use transmux::progressive::ProgressiveMux;
use transmux::progressive_demux::ProgressiveDemux;

fn avc_config() -> OpaqueBox {
    OpaqueBox::new(
        *b"avcC",
        vec![1, 66, 0, 0x1E, 0xFF, 0xE1, 0, 6, 0x67, 0x42, 0x00, 0x1E, 0xAB, 0x40, 1, 0, 4, 0x68, 0xCE, 0x3C, 0x80],
    )
}

fn video_track() -> Track {
    let spec = TrackSpec::new(1, 90_000, CodecConfig::Avc { config: avc_config(), width: 16, height: 16 });
    let samples = vec![
        Sample::new(vec![0, 0, 0, 2, 0x65, 0x88], Some(0), Some(3000), Some(3000), true),
        Sample::new(vec![0, 0, 0, 2, 0x41, 0x9A], Some(3000), Some(9000), Some(3000), false),
        Sample::new(vec![0, 0, 0, 2, 0x41, 0x9B], Some(6000), Some(6000), Some(3000), false),
    ];
    Track::new(spec, samples)
}

fn find(hay: &[u8], needle: &[u8]) -> Option<usize> {
    hay.windows(needle.len()).position(|w| w == needle)
}

fn be32_at(b: &[u8], i: usize) -> u32 {
    u32::from_be_bytes([b[i], b[i + 1], b[i + 2], b[i + 3]])
}

#[test]
fn progressive_faststart_puts_moov_before_mdat_and_offsets_hit_the_samples() {
    let media = Media::new(vec![video_track()], 0);
    let out = ProgressiveMux::new(true).package(&media).expect("packages");
    assert_eq!(&out[4..8], b"ftyp");
    assert_eq!(&out[8..12], b"isom");
    assert_eq!(be32_at(&out, 0), 32);
    assert_eq!(&out[36..40], b"moov");
    let moov_len = be32_at(&out, 32) as usize;
    let mdat_at = 32 + moov_len;
    assert_eq!(&out[mdat_at + 4..mdat_at + 8], b"mdat");
    assert_eq!(be32_at(&out, mdat_at) as usize, 8 + 18);
    assert_eq!(out.len(), mdat_at + 8 + 18);
    // stco holds the absolute file offset of the single chunk.
    let stco = find(&out, b"stco").unwrap();
    let off = be32_at(&out, stco + 12) as usize;
    assert_eq!(off, mdat_at + 8);
    assert_eq!(&out[off..off + 6], &[0, 0, 0, 2, 0x65, 0x88]);
    // stts collapses the equal durations into one run.
    let stts = find(&out, b"stts").unwrap();
    assert_eq!(be32_at(&out, stts + 8), 1);
    assert_eq!(be32_at(&out, stts + 12), 3);
    assert_eq!(be32_at(&out, stts + 16), 3000);
    // ctts (version 1) carries the composition offsets 3000, 6000, 0.
    let ctts = find(&out, b"ctts").unwrap();
    assert_eq!(out[ctts + 4], 1);
    assert_eq!(be32_at(&out, ctts + 8), 3);
    // stss lists sample 1 only.
    let stss = find(&out, b"stss").unwrap();
    assert_eq!(be32_at(&out, stss + 8), 1);
    assert_eq!(be32_at(&out, stss + 12), 1);
    // mvhd duration: 9000 ticks at 90 kHz is 100 ms at the default 1000.
    let mvhd = find(&out, b"mvhd").unwrap();
    assert_eq!(be32_at(&out, mvhd + 20), 100);
}

#[test]
fn progressive_without_faststart_puts_mdat_first() {
    let media = Media::new(vec![video_track()], 1000);
    let out = ProgressiveMux::default().package(&media).expect("packages");
    assert_eq!(&out[36..40], b"mdat");
    assert_eq!(&out[40..46], &[0, 0, 0, 2, 0x65, 0x88]);
    let moov_at = 32 + 8 + 18;
    assert_eq!(&out[moov_at + 4..moov_at + 8], b"moov");
    let stco = find(&out, b"stco").unwrap();
    assert_eq!(be32_at(&out, stco + 12), 40);
}

#[test]
fn progressive_leaves_out_data_tracks_and_refuses_no_tracks() {
    let data = Track::new(
        TrackSpec::new(
            2,
            90_000,
            CodecConfig::Data { stream_type: 0x86, descriptors: Vec::new(), carriage: DataCarriage::Sections },
        ),
        vec![Sample::new(vec![0xFC; 8], None, None, None, true)],
    );
    let with_data = ProgressiveMux::new(true).package(&Media::new(vec![video_track(), data], 0)).unwrap();
    let without = ProgressiveMux::new(true).package(&Media::new(vec![video_track()], 0)).unwrap();
    assert_eq!(with_data, without);
    assert_eq!(
        ProgressiveMux::new(true).package(&Media::new(vec![], 0)),
        Err(Error::InvalidInput("cannot package a Media with no tracks"))
    );
}

#[test]
fn progressive_demux_reads_back_what_the_mux_wrote() {
    for faststart in [true, false] {
        let track = video_track();
        let out = ProgressiveMux::new(faststart).package(&Media::new(vec![track.clone()], 0)).unwrap();
        let media = ProgressiveDemux::new().unpackage(&out).expect("demuxes");
        assert_eq!(media.movie_timescale, 1000);
        assert_eq!(media.tracks.len(), 1);
        let t = &media.tracks[0];
        assert_eq!(t.spec.track_id, 1);
        assert_eq!(t.spec.timescale, 90_000);
        assert_eq!(t.samples.len(), 3);
        for (got, want) in t.samples.iter().zip(track.samples.iter()) {
            assert_eq!(got.data, want.data);
            assert_eq!(got.dts, want.dts);
            assert_eq!(got.pts, want.pts);
            assert_eq!(got.duration, want.duration);
            assert_eq!(got.is_sync, want.is_sync);
        }
    }
}

#[test]
fn progressive_demux_needs_a_moov() {
    let mut file = 16u32.to_be_bytes().to_vec();
    file.extend_from_slice(b"free");
    file.extend_from_slice(&[0u8; 8]);
    assert!(matches!(
        ProgressiveDemux::new().unpackage(&file),
        Err(Error::UnexpectedBox { expected: "moov" })
    ));
}
