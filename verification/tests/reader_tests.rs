use hide_qr::Reader;
use hide_qr::QrHideError;
use hide_qr::qr::verify_detection;

#[test]
fn reader_extracts_payload_after_header() {
    // Stream: 4 unused bits, length byte 1, then 'A' (0100_0001),
    // padded with zeros: bytes 0x00, 0x14, 0x10.
    let reader = Reader::from_raw_data(&[0x00, 0x14, 0x10]);
    assert_eq!(reader.read(), b"A".to_vec());
}

#[test]
fn reader_truncates_to_announced_length() {
    // Length byte 1, but the stream carries more bits than one byte:
    // only the first payload byte is kept.
    let reader = Reader::from_raw_data(&[0x00, 0x14, 0x15, 0xFF, 0xFF]);
    assert_eq!(reader.read(), b"A".to_vec());
}

#[test]
fn reader_handles_short_streams() {
    // Fewer than 12 bits: no header, no payload.
    let reader = Reader::from_raw_data(&[0xFF]);
    assert_eq!(reader.read(), Vec::<u8>::new());
    // Length announces more than the stream holds: what is there is
    // decoded, incomplete trailing bytes dropped.  Here 12 bits remain
    // after the header, giving one whole byte 1111_0000.
    let reader = Reader::from_raw_data(&[0x00, 0xFF, 0x00]);
    assert_eq!(reader.read(), vec![0xF0]);
}

#[test]
fn verify_detection_names_each_failure() {
    let carrier = b"HELLO".to_vec();
    // Stream carrying secret "A".
    let good_raw = vec![0x00, 0x14, 0x10];
    assert_eq!(
        verify_detection(&carrier, b"A", None, None),
        Err(QrHideError::NotDetected)
    );
    assert_eq!(
        verify_detection(&carrier, b"A", Some(b"OTHER".to_vec()), Some(good_raw.clone())),
        Err(QrHideError::CarrierUnreadable)
    );
    assert_eq!(
        verify_detection(&carrier, b"A", Some(carrier.clone()), None),
        Err(QrHideError::NotDetected)
    );
    assert_eq!(
        verify_detection(&carrier, b"B", Some(carrier.clone()), Some(good_raw.clone())),
        Err(QrHideError::SecretUnreadable)
    );
    assert_eq!(
        verify_detection(&carrier, b"A", Some(carrier.clone()), Some(good_raw)),
        Ok(())
    );
}
