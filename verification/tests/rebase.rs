use transmux::init_segment::OpaqueBox;
use transmux::ir::{CodecConfig, Media, Sample, Track, TrackSpec};
use transmux::rebase::{apply_offset, insert_discontinuity_gap, rebase_to_zero};

fn sample(dts: i64, duration: u32) -> Sample {
    Sample::new(vec![0u8; 4], Some(dts), Some(dts), Some(duration), true)
}

/// Build a track whose samples carry consecutive absolute `dts`/`pts`
/// starting at `start`, stepping by each duration in `durs`.
fn track_at(start: i64, durs: &[u32]) -> Track {
    let mut dts = start;
    let mut samples = Vec::with_capacity(durs.len());
    for &d in durs {
        samples.push(sample(dts, d));
        dts += d as i64;
    }
    Track::new_at(spec(), samples, start as u64)
}

// Codec config is irrelevant to the transforms; build a minimal AVC spec
// (avcC: version 1, Baseline 3.0, one SPS, one PPS).
fn spec() -> TrackSpec {
    let avcc = vec![
        1, 66, 0, 30, 0xFF, 0xE1, 0, 4, 0x67, 0x42, 0x00, 0x1e, 1, 0, 4, 0x68, 0xce, 0x3c, 0x80,
    ];
    TrackSpec::new(
        1,
        90_000,
        CodecConfig::Avc { config: OpaqueBox::new(*b"avcC", avcc), width: 16, height: 16 },
    )
}

#[test]
fn rebase_to_zero_clears_anchor_and_samples() {
    let mut m = Media::new(vec![track_at(90_000, &[3000, 3000])], 1000);
    rebase_to_zero(&mut m);
    assert_eq!(m.tracks[0].start_decode_time, 0);
    assert_eq!(m.tracks[0].samples[0].dts, Some(0));
    assert_eq!(m.tracks[0].samples[1].dts, Some(3000));
    assert_eq!(m.tracks[0].samples[1].pts, Some(3000));
    // Idempotent.
    rebase_to_zero(&mut m);
    assert_eq!(m.tracks[0].start_decode_time, 0);
    assert_eq!(m.tracks[0].samples[0].dts, Some(0));
}

#[test]
fn rebase_to_zero_leaves_none_untouched() {
    let mut m = Media::new(vec![track_at(1000, &[10])], 1000);
    m.tracks[0].samples[0].dts = None;
    m.tracks[0].samples[0].pts = None;
    rebase_to_zero(&mut m);
    assert_eq!(m.tracks[0].samples[0].dts, None, "never fabricate a dts");
    assert_eq!(m.tracks[0].samples[0].pts, None, "never fabricate a pts");
}

#[test]
fn apply_offset_shifts_anchor_and_samples() {
    let mut m = Media::new(vec![track_at(100, &[10])], 1000);
    apply_offset(&mut m, 50);
    assert_eq!(m.tracks[0].start_decode_time, 150);
    assert_eq!(m.tracks[0].samples[0].dts, Some(150));
    apply_offset(&mut m, -1000);
    assert_eq!(m.tracks[0].start_decode_time, 0, "underflow saturates at 0");
    assert_eq!(
        m.tracks[0].samples[0].dts,
        Some(0),
        "sample shift matches the saturated (clamped) anchor delta, not the raw delta"
    );
}

#[test]
fn gap_extends_timeline_and_shifts_later_samples() {
    let mut t = track_at(0, &[100, 100, 100]);
    insert_discontinuity_gap(&mut t, 2, 500);
    assert_eq!(t.samples[0].dts, Some(0), "earlier sample unchanged");
    assert_eq!(t.samples[1].dts, Some(100), "earlier sample unchanged");
    assert_eq!(t.samples[2].dts, Some(700), "sample at the insertion point pushed out by the gap (200 + 500)");
    assert_eq!(t.start_decode_time, 0, "anchor unaffected mid-track");
}

#[test]
fn gap_at_index_zero_shifts_anchor_and_every_sample() {
    let mut t = track_at(1000, &[100]);
    insert_discontinuity_gap(&mut t, 0, 250);
    assert_eq!(t.start_decode_time, 1250);
    assert_eq!(t.samples[0].dts, Some(1250));
}

#[test]
fn rebase_keeps_each_track_on_its_own_origin() {
    let mut m = Media::new(vec![track_at(500, &[10]), track_at(2000, &[20])], 1000);
    rebase_to_zero(&mut m);
    assert_eq!(m.tracks[0].samples[0].dts, Some(0));
    assert_eq!(m.tracks[1].samples[0].dts, Some(0));
    assert_eq!(m.tracks[1].start_decode_time, 0);
}

#[test]
fn gap_past_the_end_shifts_nothing() {
    let mut t = track_at(0, &[100, 100]);
    insert_discontinuity_gap(&mut t, 9, 500);
    assert_eq!(t.samples[0].dts, Some(0));
    assert_eq!(t.samples[1].dts, Some(100));
    assert_eq!(t.start_decode_time, 0);
}

#[test]
fn offset_then_inverse_offset_restores_timestamps() {
    let mut m = Media::new(vec![track_at(1000, &[10, 10])], 1000);
    apply_offset(&mut m, 300);
    apply_offset(&mut m, -300);
    assert_eq!(m.tracks[0].start_decode_time, 1000);
    assert_eq!(m.tracks[0].samples[1].dts, Some(1010));
}
