use hide_qr::EccLevel;
use hide_qr::QrExtended;
use hide_qr::QrHideError;
use hide_qr::Reader;
use hide_qr::raster::render_pixels;

#[test]
fn encode_hello_gives_version_one() {
    let q = QrExtended::encode_text("HELLO", EccLevel::High).unwrap();
    assert_eq!(q.version, 1);
    assert_eq!(q.size, 21);
    assert_eq!(q.base.len(), 21 * 21);
    // The corner of the finder ring is dark in every symbol.
    assert!(q.get_original_module_at(6, 6));
    assert!(q.get_original_module_at(0, 0));
}

#[test]
fn oversized_carrier_fails_with_capacity_exceeded() {
    let carrier = "X".repeat(3000);
    match QrExtended::encode_text(&carrier, EccLevel::High) {
        Err(QrHideError::CapacityExceeded) => {}
        _ => panic!("expected CapacityExceeded"),
    }
}

#[test]
fn oversized_secret_fails_with_secret_too_long() {
    let mut q = QrExtended::encode_text("HELLO", EccLevel::High).unwrap();
    let secret = "x".repeat(300);
    assert_eq!(q.embed(&secret), Err(QrHideError::SecretTooLong));
    // The symbol is left untouched.
    assert_eq!(q.flat_vector_modules.len(), 0);
}

#[test]
fn embed_writes_length_header_cells() {
    let mut q = QrExtended::encode_text("HELLO", EccLevel::High).unwrap();
    let _ = q.embed("HI");
    let size = q.size;
    // Length 2 is 0000_0010: bits 0..8 land on the four reserved cell
    // pairs, right column first, walking upward from row size-3.
    let expected = [false, false, false, false, false, false, true, false];
    for k in 0..8 {
        let x = size - 1 - (k % 2);
        let y = size - 3 - (k / 2);
        assert_eq!(q.get_altered_module_at(x, y), expected[k], "header bit {}", k);
    }
}

#[test]
fn embed_round_trip_through_detector() {
    // encode("HELLO", HIGH), embed("HI"), then rasterize + detect +
    // decode must yield carrier "HELLO" and secret "HI".
    let mut q = QrExtended::encode_text("HELLO", EccLevel::High).unwrap();
    q.embed("HI").expect("embedding should verify");

    let pixels = render_pixels(&q.flat_vector_modules, q.size);
    let dim = 10 * q.size + 40;
    let mut img =
        rqrr::PreparedImage::prepare_from_greyscale(dim, dim, |x, y| pixels[y * dim + x]);
    let grids = img.detect_grids();
    assert_eq!(grids.len(), 1);
    let (_, content) = grids[0].decode().expect("carrier must decode");
    assert_eq!(content, "HELLO");
    let (_, raw) = grids[0].get_raw_data().expect("raw data must be readable");
    let reader = Reader::from_raw_data(&raw.data);
    assert_eq!(reader.read(), b"HI".to_vec());
}

#[test]
fn embed_is_deterministic() {
    let mut q1 = QrExtended::encode_text("HELLO", EccLevel::High).unwrap();
    let mut q2 = QrExtended::encode_text("HELLO", EccLevel::High).unwrap();
    let _ = q1.embed("HI");
    let _ = q2.embed("HI");
    assert_eq!(q1.flat_vector_modules, q2.flat_vector_modules);
}

#[test]
fn embed_leaves_base_grid_unmodified() {
    let mut q = QrExtended::encode_text("HELLO", EccLevel::High).unwrap();
    let base_before = q.base.clone();
    let _ = q.embed("HI");
    assert_eq!(q.base, base_before);
    // The overlay differs from the base where payload bits landed.
    assert_eq!(q.flat_vector_modules.len(), q.base.len());
}

#[test]
fn render_pixels_has_border_and_modules() {
    let mut q = QrExtended::encode_text("HELLO", EccLevel::High).unwrap();
    let _ = q.embed("HI");
    let pixels = render_pixels(&q.flat_vector_modules, q.size);
    let dim = 10 * q.size + 40;
    assert_eq!(pixels.len(), dim * dim);
    // Border pixels are white.
    assert_eq!(pixels[0], 255);
    assert_eq!(pixels[19 * dim + 19], 255);
    // Top-left module is the dark finder corner: its 10x10 block is black.
    assert_eq!(pixels[20 * dim + 20], 0);
    assert_eq!(pixels[29 * dim + 29], 0);
}

#[test]
fn oversized_payload_truncates_without_panicking() {
    // A version-1 symbol offers fewer writable coordinates than 50 bytes
    // of payload need: the trailing bits are dropped, the whole overlay
    // is still written, and verification reports a failure instead of
    // panicking.
    let mut q = QrExtended::encode_text("HELLO", EccLevel::High).unwrap();
    let secret = "x".repeat(50);
    let r = q.embed(&secret);
    assert!(r.is_err());
    assert_ne!(r, Err(QrHideError::SecretTooLong));
    assert_eq!(q.flat_vector_modules.len(), q.size * q.size);
}

#[test]
fn encode_respects_error_correction_level() {
    let text = "A".repeat(40);
    let low = QrExtended::encode_text(&text, EccLevel::Low).unwrap();
    let medium = QrExtended::encode_text(&text, EccLevel::Medium).unwrap();
    let quartile = QrExtended::encode_text(&text, EccLevel::Quartile).unwrap();
    let high = QrExtended::encode_text(&text, EccLevel::High).unwrap();
    // Stronger correction needs at least as large a symbol.
    assert!(low.version <= medium.version);
    assert!(medium.version <= quartile.version);
    assert!(quartile.version <= high.version);
    assert!(high.version > low.version);
}

#[test]
fn grid_level_round_trip_recovers_secret() {
    // Reading the embedded overlay back along the zigzag sequence and
    // decoding the bits recovers the secret; the header cells carry its
    // byte length.
    let mut q = QrExtended::encode_text("HELLO", EccLevel::High).unwrap();
    q.embed("HI").expect("embedding should verify");
    let coords = hide_qr::zigzag::zigzag_coordinates(q.size, &q.alignment_positions);
    let bits: Vec<bool> = coords
        .iter()
        .take(16)
        .map(|&(x, y)| q.get_altered_module_at(x, y))
        .collect();
    assert_eq!(hide_qr::bits_to_ascii(&bits), b"HI".to_vec());

    let mut header_bits = Vec::new();
    for k in 0..8 {
        header_bits.push(q.get_altered_module_at(q.size - 1 - (k % 2), q.size - 3 - (k / 2)));
    }
    assert_eq!(hide_qr::bools_to_decimal(&header_bits), 2);
}
