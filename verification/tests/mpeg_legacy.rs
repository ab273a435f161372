use transmux::mpeg_legacy::{Mpeg2SeqHeader, MpegAudioFrameHeader, MpegAudioLayer};

#[test]
fn seq_header_320x240() {
    // start code 00 00 01 B3, then 320 (0x140) / 240 (0x0F0):
    // 0x140 << 12 | 0x0F0 = 0x1400F0 → bytes 14 00 F0
    let es = [0x00, 0x00, 0x01, 0xB3, 0x14, 0x00, 0xF0, 0x23, 0xFF];
    let sh = Mpeg2SeqHeader::find(&es).unwrap();
    assert_eq!(sh.width, 320);
    assert_eq!(sh.height, 240);
}

#[test]
fn seq_header_scans_past_leading_bytes() {
    let mut es = vec![0xDE, 0xAD, 0xBE, 0xEF];
    es.extend_from_slice(&[0x00, 0x00, 0x01, 0xB3, 0x28, 0x01, 0xE0]);
    let sh = Mpeg2SeqHeader::find(&es).unwrap();
    assert_eq!(sh.width, 640);
    assert_eq!(sh.height, 480);
}

#[test]
fn seq_header_missing() {
    assert!(Mpeg2SeqHeader::find(&[0x00, 0x00, 0x01, 0xB8]).is_err());
}

#[test]
fn mp2_frame_header_44100_mono() {
    // FF FD E0 C4 — MPEG-1 Layer II, 44100 Hz, mono, 384 kbps.
    let h = MpegAudioFrameHeader::parse(&[0xFF, 0xFD, 0xE0, 0xC4]).unwrap();
    assert_eq!(h.layer, MpegAudioLayer::LayerII);
    assert_eq!(h.layer.number(), 2);
    assert_eq!(h.sample_rate, 44100);
    assert_eq!(h.channels, 1);
    assert_eq!(h.samples_per_frame, 1152);
    assert_eq!(h.frame_length, 1253);
}

#[test]
fn mp3_frame_header_44100() {
    // FF FB 50 C4 — MPEG-1 Layer III, 44100 Hz.
    let h = MpegAudioFrameHeader::parse(&[0xFF, 0xFB, 0x50, 0xC4]).unwrap();
    assert_eq!(h.layer, MpegAudioLayer::LayerIII);
    assert_eq!(h.sample_rate, 44100);
    assert_eq!(h.samples_per_frame, 1152);
}

#[test]
fn bad_syncword_rejected() {
    assert!(MpegAudioFrameHeader::parse(&[0x00, 0x00, 0x00, 0x00]).is_err());
}

#[test]
fn display_labels() {
    assert_eq!(MpegAudioLayer::LayerII.name(), "Layer II");
}

#[test]
fn layer_names_and_numbers() {
    assert_eq!(MpegAudioLayer::LayerI.name(), "Layer I");
    assert_eq!(MpegAudioLayer::LayerIII.name(), "Layer III");
    assert_eq!(MpegAudioLayer::LayerI.number(), 1);
    assert_eq!(MpegAudioLayer::LayerIII.number(), 3);
}

#[test]
fn seq_header_truncated_after_start_code_is_rejected() {
    assert!(Mpeg2SeqHeader::find(&[0x00, 0x00, 0x01, 0xB3, 0x14]).is_err());
}

#[test]
fn frame_header_too_short_is_rejected() {
    assert!(MpegAudioFrameHeader::parse(&[0xFF, 0xFB, 0x50]).is_err());
}
