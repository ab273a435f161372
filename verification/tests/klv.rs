use transmux::klv::{ber_length, ber_oid, crc16_ccitt, encode_ber_length, encode_ber_oid};

#[test]
fn crc16_ccitt_known_answer() {
    // CRC-16/CCITT-FALSE check value for "123456789" is 0x29B1.
    assert_eq!(crc16_ccitt(b"123456789"), 0x29B1);
}

#[test]
fn ber_short_form() {
    assert_eq!(encode_ber_length(5), vec![5]);
    assert_eq!(ber_length(&[5, 0xAA]).unwrap(), (5, 1));
}

#[test]
fn ber_long_form_300() {
    // 300 = 0x012C → 82 01 2C.
    assert_eq!(encode_ber_length(300), vec![0x82, 0x01, 0x2C]);
    assert_eq!(ber_length(&[0x82, 0x01, 0x2C]).unwrap(), (300, 3));
}

#[test]
fn ber_oid_round_trip() {
    for tag in [1u32, 2, 127, 128, 300, 16_383] {
        let enc = encode_ber_oid(tag);
        assert_eq!(ber_oid(&enc).unwrap(), (tag, enc.len()));
    }
}
