use transmux::mpegh::{find_mpegh3da_config, walk_mhas_packets, MHADecoderConfigurationRecord, MHAS_PACTYP_MPEGH3DACFG};

/// Hand-built MHAS packet using only unescaped (base) header widths.
fn build_packet(packet_type: u8, label: u8, payload: &[u8]) -> Vec<u8> {
    // header: 3 bits type + 2 bits label + 11 bits length = 16 bits (2 bytes).
    let len = payload.len() as u16;
    assert!(packet_type < 7 && label < 3 && len < 0x7FF);
    let word: u32 = ((packet_type as u32) << 13) | ((label as u32) << 11) | len as u32;
    let mut out = vec![(word >> 8) as u8, (word & 0xFF) as u8];
    out.extend_from_slice(payload);
    out
}

#[test]
fn walks_unescaped_packets() {
    let mut data = build_packet(6, 0, &[0xA5]);
    data.extend(build_packet(MHAS_PACTYP_MPEGH3DACFG, 1, &[0x10, 0x11, 0x12]));
    let packets = walk_mhas_packets(&data);
    assert_eq!(packets.len(), 2);
    assert_eq!(packets[0].packet_type, 6);
    assert_eq!(packets[0].payload, &[0xA5]);
    assert_eq!(packets[1].packet_type, MHAS_PACTYP_MPEGH3DACFG);
    assert_eq!(packets[1].payload, &[0x10, 0x11, 0x12]);
}

#[test]
fn finds_config_packet() {
    let mut data = build_packet(6, 0, &[0xA5]);
    data.extend(build_packet(MHAS_PACTYP_MPEGH3DACFG, 1, &[0xAA, 0xBB]));
    assert_eq!(find_mpegh3da_config(&data), Some([0xAA, 0xBB].as_slice()));
}

#[test]
fn no_config_packet_returns_none() {
    let data = build_packet(6, 0, &[0xA5]);
    assert_eq!(find_mpegh3da_config(&data), None);
}

#[test]
fn truncated_header_stops_cleanly() {
    // A single stray byte: not enough bits for even the minimal header.
    let data = [0xFFu8];
    assert!(walk_mhas_packets(&data).is_empty());
}

#[test]
fn declared_length_past_end_stops_cleanly() {
    // type=1(MPEGH3DACFG) label=0 len=5, but only 1 payload byte follows.
    let word: u32 = (1u32 << 13) | 5;
    let data = [(word >> 8) as u8, (word & 0xFF) as u8, 0xAA];
    assert!(walk_mhas_packets(&data).is_empty());
}

#[test]
fn mhac_record_round_trip() {
    let rec = MHADecoderConfigurationRecord::new(0x0B, 6, vec![0x01, 0x02, 0x03]);
    let bytes = rec.to_bytes();
    assert_eq!(bytes, vec![1, 0x0B, 6, 0, 3, 0x01, 0x02, 0x03]);
    let back = MHADecoderConfigurationRecord::parse(&bytes).unwrap();
    assert_eq!(back.to_bytes(), bytes);
}

#[test]
fn mhac_rfc6381_codec_string() {
    let rec = MHADecoderConfigurationRecord::new(0x0D, 1, vec![]);
    assert_eq!(rec.rfc6381(), "mhm1.0x0D");
}

#[test]
fn mhac_parse_rejects_short_record() {
    assert!(MHADecoderConfigurationRecord::parse(&[1, 0x0B, 6]).is_err());
}
