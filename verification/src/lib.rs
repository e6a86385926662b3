//! Hiding a short ASCII message inside the spare, error-corrected modules of
//! a QR symbol.
//!
//! The carrier text is turned into a QR module grid by an external generator.
//! A secret payload is then written, bit by bit, into module positions that
//! carry no structural meaning (finder, timing, alignment, format and version
//! patterns are all avoided), together with an 8-bit length header near the
//! bottom-right corner.  An external detector is used to confirm that both
//! the carrier and the secret survive a real decode.

pub mod codec;
pub mod pattern;
pub mod zigzag;
pub mod extqr;
pub mod detect;
pub mod raster;
pub mod qr;
pub mod reader;

pub use extqr::EccLevel;
pub use qr::QrExtended;
pub use qr::QrHideError;
pub use reader::Reader;

pub use codec::ascii_to_bits;
pub use codec::bits_to_ascii;
pub use codec::bools_to_decimal;
pub use codec::bytes_to_bits;
pub use codec::u8_to_bool_vector;
