use ton_utils::crc16::crc16;

#[test]
fn empty_payload_checksum() {
    assert_eq!(crc16(&[]), 0x0000);
}

#[test]
fn single_zero_byte_checksum() {
    assert_eq!(crc16(&[0x00]), 0x0000);
}

#[test]
fn single_ff_byte_checksum() {
    assert_eq!(crc16(&[0xFF]), 0x1EF0);
}

#[test]
fn single_low_bit_byte_checksum() {
    assert_eq!(crc16(&[0x01]), 0x1021);
}

#[test]
fn single_high_bit_byte_checksum() {
    assert_eq!(crc16(&[0x80]), 0x9188);
}

#[test]
fn leading_zero_bytes_do_not_change_checksum() {
    assert_eq!(crc16(&[0x00, 0x01]), crc16(&[0x01]));
}

#[test]
fn ascii_digits_reference_vector() {
    let payload = [0x31, 0x32, 0x33, 0x34, 0x35, 0x36, 0x37, 0x38, 0x39];
    assert_eq!(crc16(&payload), 0x31C3);
    assert_eq!(crc16(b"123456789"), 0x31C3);
}

#[test]
fn result_fits_sixteen_bits() {
    let payloads: Vec<Vec<u8>> = vec![
        vec![],
        vec![0xFF; 64],
        (0..=255u8).collect(),
        b"hello world".to_vec(),
    ];
    for p in payloads {
        let r = crc16(&p);
        assert!((0..=0xFFFF).contains(&r));
    }
}

#[test]
fn repeated_calls_agree() {
    let payload = b"the quick brown fox".to_vec();
    let first = crc16(&payload);
    for _ in 0..5 {
        assert_eq!(crc16(&payload), first);
    }
}

#[test]
fn every_single_bit_flip_changes_checksum() {
    let payload = b"123456789".to_vec();
    let base = crc16(&payload);
    for i in 0..payload.len() {
        for j in 0..8 {
            let mut flipped = payload.clone();
            flipped[i] ^= 1 << j;
            assert_ne!(crc16(&flipped), base);
        }
    }
}
