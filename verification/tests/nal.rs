use transmux::annexb::annexb_to_length_prefixed;
use transmux::nal::{access_unit_is_keyframe, access_unit_is_rap, is_keyframe_nal, nal_unit_type, recovery_point_sei, NalCodec};

#[test]
fn avc_nal_type_extraction() {
    // AVC SPS header byte: forbidden_zero(0) nal_ref_idc(11) type(00111=7).
    assert_eq!(nal_unit_type(NalCodec::Avc, &[0x67, 0x42]), Some(7));
    // AVC IDR slice: type 5 (00101), nal_ref_idc 11 → 0x65.
    assert_eq!(nal_unit_type(NalCodec::Avc, &[0x65, 0x88]), Some(5));
    assert!(is_keyframe_nal(NalCodec::Avc, &[0x65, 0x88]));
    assert!(!is_keyframe_nal(NalCodec::Avc, &[0x67, 0x42])); // SPS is not VCL keyframe
    // Non-IDR slice type 1 (0x41) is not a keyframe.
    assert!(!is_keyframe_nal(NalCodec::Avc, &[0x41, 0x9a]));
    // Empty slice → None / false.
    assert_eq!(nal_unit_type(NalCodec::Avc, &[]), None);
    assert!(!is_keyframe_nal(NalCodec::Avc, &[]));
}

#[test]
fn hevc_nal_type_extraction() {
    // HEVC 2-byte header. type = (byte0 >> 1) & 0x3f.
    // SPS = 33 → byte0 = 33<<1 = 0x42.
    assert_eq!(nal_unit_type(NalCodec::Hevc, &[0x42, 0x01]), Some(33));
    assert!(!is_keyframe_nal(NalCodec::Hevc, &[0x42, 0x01]));
    // IDR_W_RADL = 19 → 0x26; IDR_N_LP = 20 → 0x28.
    assert_eq!(nal_unit_type(NalCodec::Hevc, &[0x26, 0x01]), Some(19));
    assert_eq!(nal_unit_type(NalCodec::Hevc, &[0x28, 0x01]), Some(20));
    assert!(is_keyframe_nal(NalCodec::Hevc, &[0x26, 0x01]));
    assert!(is_keyframe_nal(NalCodec::Hevc, &[0x28, 0x01]));
    // TRAIL_R = 1 → 0x02 is not IRAP.
    assert_eq!(nal_unit_type(NalCodec::Hevc, &[0x02, 0x01]), Some(1));
    assert!(!is_keyframe_nal(NalCodec::Hevc, &[0x02, 0x01]));
    // A 1-byte slice is too short for HEVC's 2-byte header.
    assert_eq!(nal_unit_type(NalCodec::Hevc, &[0x26]), None);
}

#[test]
fn vvc_nal_type_extraction() {
    // VVC 2-byte header. type = (byte1 >> 3) & 0x1f.
    // A real vvenc SPS NAL header pair is [0x00, byte1] with type SPS=15 →
    // byte1 = 15<<3 = 0x78.
    assert_eq!(nal_unit_type(NalCodec::Vvc, &[0x00, 0x78]), Some(15));
    assert!(!is_keyframe_nal(NalCodec::Vvc, &[0x00, 0x78]));
    // IDR_W_RADL = 7 → byte1 = 7<<3 = 0x38; IDR_N_LP = 8 → 0x40; CRA = 9 → 0x48.
    assert_eq!(nal_unit_type(NalCodec::Vvc, &[0x00, 0x38]), Some(7));
    assert_eq!(nal_unit_type(NalCodec::Vvc, &[0x00, 0x40]), Some(8));
    assert_eq!(nal_unit_type(NalCodec::Vvc, &[0x00, 0x48]), Some(9));
    assert!(is_keyframe_nal(NalCodec::Vvc, &[0x00, 0x38]));
    assert!(is_keyframe_nal(NalCodec::Vvc, &[0x00, 0x40]));
    assert!(is_keyframe_nal(NalCodec::Vvc, &[0x00, 0x48]));
    // TRAIL = 0 → byte1 = 0x00 is not IRAP.
    assert!(!is_keyframe_nal(NalCodec::Vvc, &[0x00, 0x00]));
}

#[test]
fn access_unit_annexb_and_length_prefixed_agree() {
    // Annex B AU: SPS (67) + non-IDR slice (41) → no keyframe.
    let non_kf = [0x00, 0x00, 0x01, 0x67, 0x42, 0x00, 0x00, 0x01, 0x41, 0x9a];
    assert!(!access_unit_is_keyframe(NalCodec::Avc, &non_kf, false));
    // Annex B AU: SPS (67) + IDR slice (65) → keyframe.
    let kf = [0x00, 0x00, 0x01, 0x67, 0x42, 0x00, 0x00, 0x01, 0x65, 0x88];
    assert!(access_unit_is_keyframe(NalCodec::Avc, &kf, false));

    // Length-prefixed form of the same AUs yields the same verdict.
    let lp_non_kf = annexb_to_length_prefixed(&non_kf);
    let lp_kf = annexb_to_length_prefixed(&kf);
    assert!(!access_unit_is_keyframe(NalCodec::Avc, &lp_non_kf, true));
    assert!(access_unit_is_keyframe(NalCodec::Avc, &lp_kf, true));
}

#[test]
fn malformed_length_prefixed_is_not_keyframe() {
    // Declares a 99-byte NAL in a 6-byte buffer.
    let lp = [0x00, 0x00, 0x00, 0x63, 0x65, 0x88];
    assert!(!access_unit_is_keyframe(NalCodec::Avc, &lp, true));
}

#[test]
fn nal_codec_display() {
    assert_eq!(NalCodec::Avc.name(), "AVC");
    assert_eq!(NalCodec::Hevc.name(), "HEVC");
    assert_eq!(NalCodec::Vvc.name(), "VVC");
}

// ── Open-GOP RAP detection ─────────────────────────────────

#[test]
fn recovery_point_sei_matches_payload_type_6() {
    // SEI NAL: header(0x06), payloadType=6 (recovery_point), payloadSize=0.
    let nal = [0x06, 0x06, 0x00];
    assert!(recovery_point_sei(&nal));
}

#[test]
fn other_sei_payload_type_is_not_recovery_point() {
    // SEI NAL: header(0x06), payloadType=1 (pic_timing), payloadSize=0.
    let nal = [0x06, 0x01, 0x00];
    assert!(!recovery_point_sei(&nal));
}

#[test]
fn recovery_point_sei_found_among_multiple_messages() {
    // One SEI NAL packing buffering_period(0, size 1, payload 0xAA), then
    // recovery_point(6, size 0) — matches real broadcast streams that pack
    // several sei_message()s into a single NAL.
    let nal = [0x06, 0x00, 0x01, 0xAA, 0x06, 0x00];
    assert!(recovery_point_sei(&nal));
}

#[test]
fn recovery_point_sei_rejects_non_sei_nal() {
    // An SPS (type 7), not a SEI (type 6).
    let nal = [0x67, 0x42, 0x00];
    assert!(!recovery_point_sei(&nal));
    // Too short to even carry a payloadType byte.
    let short_sei = [0x06];
    assert!(!recovery_point_sei(&short_sei));
}

#[test]
fn recovery_point_sei_unescapes_emulation_prevention() {
    // payloadSize's 0xFF-run byte is followed by an emulation-prevention
    // triplet (00 00 03) that must collapse to (00 00) before summing.
    // payloadType=6, payloadSize = 0xFF + 0x00 = 255 (leading run byte
    // 0xFF, terminator 0x00 straight after — no EPB needed for the size
    // itself, but the EPB in the trailing zero run must still unescape
    // correctly for later bytes to align). Use a simpler direct check:
    // a `00 00 03 00` sequence inside the payload must not desync the
    // byte count used to find the *next* message.
    let nal = [
        0x06, // SEI NAL header
        0x00, 0x02, 0x00, 0x00,
        0x03, // buffering_period: type 0, size 2, payload [00 00] (EPB'd as 00 00 03)
        0x06, 0x00, // recovery_point: type 6, size 0
    ];
    assert!(recovery_point_sei(&nal));
}

#[test]
fn access_unit_is_rap_recognises_open_gop_signals() {
    // AVC AU with SPS(7) + PPS(8) + non-IDR I-slice(1), no IDR at all: the
    // SPS-present fallback marks it a RAP.
    let sps_led = [
        0x00, 0x00, 0x01, 0x67, 0x42, 0x00, 0x0A, // SPS
        0x00, 0x00, 0x01, 0x68, 0xCE, 0x3C, 0x80, // PPS
        0x00, 0x00, 0x01, 0x41, 0x9A, // non-IDR slice
    ];
    assert!(access_unit_is_rap(NalCodec::Avc, &sps_led, false));
    // The strict IDR-only helper does NOT consider this a keyframe —
    // proves the two helpers now diverge for open-GOP input.
    assert!(!access_unit_is_keyframe(NalCodec::Avc, &sps_led, false));

    // AVC AU with only a recovery-point SEI + non-IDR slice (no SPS in
    // this AU — e.g. SPS was only sent once at stream start): still a RAP.
    // The SEI NAL ends with the `rbsp_trailing_bits` stop-bit byte (0x80)
    // — a real `sei_rbsp()` always does, and `iter_annexb_nals` strips
    // trailing `zero_byte` padding, so a NAL ending in the `payloadSize`
    // byte's `0x00` would otherwise be (correctly) trimmed away.
    let sei_led = [
        0x00, 0x00, 0x01, 0x06, 0x06, 0x00, 0x80, // SEI: recovery_point, size 0
        0x00, 0x00, 0x01, 0x41, 0x9A, // non-IDR slice
    ];
    assert!(access_unit_is_rap(NalCodec::Avc, &sei_led, false));
    assert!(!access_unit_is_keyframe(NalCodec::Avc, &sei_led, false));

    // A plain non-IDR AU with neither signal is not a RAP.
    let plain = [0x00, 0x00, 0x01, 0x41, 0x9A];
    assert!(!access_unit_is_rap(NalCodec::Avc, &plain, false));

    // IDR-only AU is still recognised (closed-GOP behaviour unchanged).
    let idr = [0x00, 0x00, 0x01, 0x65, 0x88];
    assert!(access_unit_is_rap(NalCodec::Avc, &idr, false));
    assert!(access_unit_is_keyframe(NalCodec::Avc, &idr, false));
}

#[test]
fn access_unit_is_rap_hevc_matches_keyframe_helper() {
    // HEVC/VVC are untouched by the recovery-point rule: access_unit_is_rap must agree with
    // access_unit_is_keyframe exactly.
    let cra = [0x00, 0x00, 0x01, 0x2A, 0x01]; // type 21 (CRA_NUT) = 21<<1=0x2A
    assert!(access_unit_is_keyframe(NalCodec::Hevc, &cra, false));
    assert!(access_unit_is_rap(NalCodec::Hevc, &cra, false));

    let trail = [0x00, 0x00, 0x01, 0x02, 0x01]; // type 1 (TRAIL_R)
    assert!(!access_unit_is_keyframe(NalCodec::Hevc, &trail, false));
    assert!(!access_unit_is_rap(NalCodec::Hevc, &trail, false));
}

#[test]
fn vvc_one_byte_slice_has_no_type() {
    assert_eq!(nal_unit_type(NalCodec::Vvc, &[0x00]), None);
    assert!(!is_keyframe_nal(NalCodec::Vvc, &[0x00]));
}
