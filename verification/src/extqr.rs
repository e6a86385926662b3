//! Trusted interface to the external QR symbol generator.
//!
//! The generator is a black box: it turns a text and an error-correction
//! level into a QR module grid and a version.  Its outcome is a pure
//! function of those two inputs, so whether it succeeds and the grid and
//! version it produces are given names (`generated_ok`,
//! `generated_grid`, `generated_ver`) that the encoding contracts can
//! speak about, and the grid carried by a generated symbol is named
//! (`qr_grid`, `qr_ver`) so that its accessors have contracts.

use vstd::prelude::*;

verus! {

use vstd::string::StringSliceAdditionalSpecFns;

#[verifier::external_type_specification]
#[verifier::external_body]
pub struct ExQrCode(qrcodegen::QrCode);

#[verifier::external_type_specification]
#[verifier::external_body]
pub struct ExDataTooLong(qrcodegen::DataTooLong);

/// The version (1 to 40) carried by a generated symbol.
pub uninterp spec fn qr_ver(qr: qrcodegen::QrCode) -> int;

/// The module grid carried by a generated symbol, row-major, row length
/// `4 * qr_ver + 17`.
pub uninterp spec fn qr_grid(qr: qrcodegen::QrCode) -> Seq<bool>;

/// The version the generator chooses for a text (as UTF-8 bytes) at an
/// error-correction level (as its ordinal 0 to 3).
pub uninterp spec fn generated_ver(text: Seq<u8>, ecl: int) -> int;

/// The module grid the generator produces for a text at an
/// error-correction level.
pub uninterp spec fn generated_grid(text: Seq<u8>, ecl: int) -> Seq<bool>;

/// Whether the generator accepts a text at an error-correction level:
/// it fails exactly when the data fits no version at that level, a pure
/// function of the two arguments.
pub uninterp spec fn generated_ok(text: Seq<u8>, ecl: int) -> bool;

/// The error correction level requested from the generator.
#[derive(Clone, Copy, PartialEq, Eq, Structural, Debug)]
pub enum EccLevel {
    /// Tolerates about 7% erroneous codewords.
    Low,
    /// Tolerates about 15% erroneous codewords.
    Medium,
    /// Tolerates about 25% erroneous codewords.
    Quartile,
    /// Tolerates about 30% erroneous codewords.
    High,
}

impl EccLevel {
    /// The ordinal of the level, 0 (Low) to 3 (High).
    pub open spec fn ordinal(self) -> int {
        match self {
            EccLevel::Low => 0,
            EccLevel::Medium => 1,
            EccLevel::Quartile => 2,
            EccLevel::High => 3,
        }
    }
}

/// Relies on qrcodegen::QrCode::encode_text: deterministic in its two
/// arguments, succeeding exactly when the data fits some version at the
/// requested level; on success the version is between 1 and 40 and the
/// module grid is square with side 4 * version + 17 (qrcodegen
/// documents all three).
#[verifier::external_body]
pub(crate) fn qr_generate(text: &str, ecl: EccLevel) -> (r: Result<
    qrcodegen::QrCode,
    qrcodegen::DataTooLong,
>)
    ensures
        r is Ok <==> generated_ok(text.spec_bytes(), ecl.ordinal()),
        r matches Ok(qr) ==> {
            &&& qr_ver(qr) == generated_ver(text.spec_bytes(), ecl.ordinal())
            &&& qr_grid(qr) == generated_grid(text.spec_bytes(), ecl.ordinal())
            &&& 1 <= qr_ver(qr) <= 40
            &&& qr_grid(qr).len() == (4 * qr_ver(qr) + 17) * (4 * qr_ver(qr) + 17)
        },
{
    let level = match ecl {
        EccLevel::Low => qrcodegen::QrCodeEcc::Low,
        EccLevel::Medium => qrcodegen::QrCodeEcc::Medium,
        EccLevel::Quartile => qrcodegen::QrCodeEcc::Quartile,
        EccLevel::High => qrcodegen::QrCodeEcc::High,
    };
    qrcodegen::QrCode::encode_text(text, level)
}

/// Relies on qrcodegen::QrCode::size: returns 4 * version + 17.
pub assume_specification[ qrcodegen::QrCode::size ](qr: &qrcodegen::QrCode) -> (r: i32)
    ensures
        r == 4 * qr_ver(*qr) + 17,
;

/// Relies on qrcodegen::QrCode::get_module: the module color at (x, y),
/// row-major in the grid, false outside the bounds.
pub assume_specification[ qrcodegen::QrCode::get_module ](
    qr: &qrcodegen::QrCode,
    x: i32,
    y: i32,
) -> (r: bool)
    ensures
        r == (0 <= x < 4 * qr_ver(*qr) + 17 && 0 <= y < 4 * qr_ver(*qr) + 17 && qr_grid(*qr)[y * (4
            * qr_ver(*qr) + 17) + x]),
;

/// The whole module grid of a generated symbol as a flat vector,
/// row-major from the top-left corner.
pub fn get_modules(qr: &qrcodegen::QrCode) -> (r: Vec<bool>)
    requires
        1 <= qr_ver(*qr) <= 40,
        qr_grid(*qr).len() == (4 * qr_ver(*qr) + 17) * (4 * qr_ver(*qr) + 17),
    ensures
        r@ == qr_grid(*qr),
{
    let size: i32 = qr.size();
    let ghost sz = size as int;
    let mut m: Vec<bool> = Vec::new();
    let mut y: i32 = 0;
    while y < size
        invariant
            21 <= size <= 177,
            sz == size as int,
            sz == 4 * qr_ver(*qr) + 17,
            qr_grid(*qr).len() == sz * sz,
            0 <= y <= size,
            m@.len() == y * sz,
            forall|k: int| 0 <= k < m@.len() ==> m@[k] == qr_grid(*qr)[k],
        decreases size - y,
    {
        let mut x: i32 = 0;
        proof {
            vstd::arithmetic::mul::lemma_mul_inequality(y as int, sz - 1, sz);
            vstd::arithmetic::mul::lemma_mul_is_distributive_sub(sz, sz, 1);
        }
        while x < size
            invariant
                21 <= size <= 177,
                sz == size as int,
                sz == 4 * qr_ver(*qr) + 17,
                qr_grid(*qr).len() == sz * sz,
                0 <= y < size,
                0 <= x <= size,
                y * sz + sz <= sz * sz,
                m@.len() == y * sz + x,
                forall|k: int| 0 <= k < m@.len() ==> m@[k] == qr_grid(*qr)[k],
            decreases size - x,
        {
            m.push(qr.get_module(x, y));
            x += 1;
        }
        proof {
            assert(x as int == sz);
            assert(m@.len() == y as int * sz + sz);
            vstd::arithmetic::mul::lemma_mul_is_distributive_add(sz, y as int, 1);
            vstd::arithmetic::mul::lemma_mul_is_commutative(sz, y as int + 1);
            vstd::arithmetic::mul::lemma_mul_is_commutative(sz, y as int);
            assert((y as int + 1) * sz == y as int * sz + sz);
        }
        y += 1;
    }
    proof {
        assert(m@ =~= qr_grid(*qr));
    }
    m
}

} // verus!
