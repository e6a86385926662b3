use hide_qr::ascii_to_bits;
use hide_qr::bits_to_ascii;
use hide_qr::bools_to_decimal;
use hide_qr::bytes_to_bits;
use hide_qr::u8_to_bool_vector;

#[test]
fn u8_to_bool_vector_msb_first() {
    let bits = u8_to_bool_vector(0xA5);
    assert_eq!(bits, vec![true, false, true, false, false, true, false, true]);
    assert_eq!(u8_to_bool_vector(0), vec![false; 8]);
    assert_eq!(u8_to_bool_vector(255), vec![true; 8]);
}

#[test]
fn ascii_to_bits_single_byte() {
    // 'A' is 0x41 = 0100_0001.
    let bits = ascii_to_bits("A");
    assert_eq!(bits, vec![false, true, false, false, false, false, false, true]);
}

#[test]
fn bytes_to_bits_concatenates_in_order() {
    let bits = bytes_to_bits(&[0x80, 0x01]);
    let mut expected = vec![true, false, false, false, false, false, false, false];
    expected.extend(vec![false, false, false, false, false, false, false, true]);
    assert_eq!(bits, expected);
}

#[test]
fn bools_to_decimal_reads_msb_first() {
    assert_eq!(bools_to_decimal(&[true, false, true]), 5);
    assert_eq!(bools_to_decimal(&[]), 0);
    assert_eq!(bools_to_decimal(&[true; 8]), 255);
    assert_eq!(
        bools_to_decimal(&[false, false, false, false, false, false, true, false]),
        2
    );
}

#[test]
fn codec_identity_for_single_char() {
    // bitsToText(textToBits("A")) == "A".
    let bits = ascii_to_bits("A");
    assert_eq!(bits_to_ascii(&bits), b"A".to_vec());
}

#[test]
fn codec_identity_for_printable_ascii() {
    let mut text = String::new();
    for c in 32u8..127u8 {
        text.push(c as char);
    }
    let bits = ascii_to_bits(&text);
    assert_eq!(bits_to_ascii(&bits), text.as_bytes().to_vec());
}

#[test]
fn bits_to_ascii_drops_partial_trailing_byte() {
    let bits = ascii_to_bits("ABC");
    // Cutting after 17 bits keeps two whole bytes and drops the rest.
    assert_eq!(bits_to_ascii(&bits[..17]), b"AB".to_vec());
    assert_eq!(bits_to_ascii(&bits[..7]), Vec::<u8>::new());
}
