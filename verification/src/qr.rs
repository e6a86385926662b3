//! The extended QR symbol: a generated carrier grid plus a mutable
//! overlay into which a secret payload is embedded.
//!
//! Embedding writes the secret's byte length into four reserved cell
//! pairs near the bottom-right corner (8 bits, MSB first) and then lays
//! the secret's bits, one per coordinate, along the zigzag sequence of
//! writable modules.  If the coordinates run out first, the remaining
//! bits are dropped (truncation).  An external detector then confirms
//! that both the carrier text and the secret survive a real decode.

use vstd::prelude::*;

verus! {

use vstd::string::StringSliceAdditionalSpecFns;
use vstd::string::StrSliceExecFns;
use crate::codec::ascii_to_bits;
use crate::codec::bit_at;
use crate::codec::bits_text;
use crate::codec::bits_value;
use crate::codec::byte_bits;
use crate::codec::lemma_bits_value_byte;
use crate::codec::lemma_codec_identity;
use crate::codec::lemma_codec_truncation;
use crate::codec::text_bits;
use crate::codec::u8_to_bool_vector;
use crate::detect::detect_decode;
use crate::detect::detect_raw;
use crate::extqr::generated_grid;
use crate::extqr::generated_ok;
use crate::extqr::generated_ver;
use crate::extqr::get_modules;
use crate::extqr::qr_generate;
use crate::extqr::EccLevel;
use crate::pattern::aligns_bounded;
use crate::pattern::compute_alignment_positions;
use crate::pattern::spec_alignment_positions;
use crate::pattern::spec_is_header;
use crate::pattern::spec_writable;
use crate::raster::render_pixels;
use crate::raster::spec_canvas_dim;
use crate::reader::spec_extract_secret;
use crate::reader::Reader;
use crate::zigzag::coords_ok;
use crate::zigzag::lemma_zigzag_properties;
use crate::zigzag::spec_zigzag;
use crate::zigzag::zigzag_coordinates;

/// Everything that can go wrong while creating a hiding QR symbol.
#[derive(Clone, Copy, PartialEq, Eq, Structural, Debug)]
pub enum QrHideError {
    /// The carrier text exceeds the generator's capacity at the chosen
    /// error-correction level.
    CapacityExceeded,
    /// The secret is longer than 255 bytes, so its length cannot be
    /// stored in the 8-bit header.
    SecretTooLong,
    /// The detector found no symbol in the rendered raster, or could not
    /// read it.
    NotDetected,
    /// The detector read the symbol, but its text no longer equals the
    /// carrier text.
    CarrierUnreadable,
    /// The carrier survived, but the extracted secret differs from the
    /// one embedded.
    SecretUnreadable,
}

/// The grid with the module at (x, y) set to `v`, row-major.
pub open spec fn grid_set(g: Seq<bool>, size: int, x: int, y: int, v: bool) -> Seq<bool> {
    g.update(y * size + x, v)
}

/// Header cell `k` (0 to 7): the four reserved cell pairs near the
/// bottom-right corner, right column first, walking upward.
pub open spec fn header_cell_x(size: int, k: int) -> int {
    size - 1 - (k % 2)
}

pub open spec fn header_cell_y(size: int, k: int) -> int {
    size - 3 - (k / 2)
}

/// The grid after the first `k` header bits of length byte `b` are
/// written into their cells.
pub open spec fn spec_header_upto(g: Seq<bool>, size: int, b: u8, k: int) -> Seq<bool>
    decreases k,
{
    if k <= 0 {
        g
    } else {
        grid_set(
            spec_header_upto(g, size, b, k - 1),
            size,
            header_cell_x(size, k - 1),
            header_cell_y(size, k - 1),
            bit_at(b, k - 1),
        )
    }
}

/// The grid after the payload bits are written along the coordinate
/// sequence, one bit per coordinate, until either runs out.
pub open spec fn spec_payload_grid(
    g: Seq<bool>,
    size: int,
    coords: Seq<(usize, usize)>,
    bits: Seq<bool>,
) -> Seq<bool>
    decreases bits.len(),
{
    if bits.len() == 0 || coords.len() == 0 {
        g
    } else {
        spec_payload_grid(
            grid_set(g, size, coords[0].0 as int, coords[0].1 as int, bits[0]),
            size,
            coords.skip(1),
            bits.skip(1),
        )
    }
}

/// The embedded overlay: the base grid with the length header and then
/// the payload bits applied.
pub open spec fn spec_embedded_grid(
    base: Seq<bool>,
    size: int,
    aligns: Seq<(i32, i32)>,
    secret: Seq<u8>,
) -> Seq<bool> {
    spec_payload_grid(
        spec_header_upto(base, size, secret.len() as u8, 8),
        size,
        spec_zigzag(size, aligns),
        text_bits(secret),
    )
}

/// The bits read back from a grid along a coordinate sequence.
pub open spec fn spec_read_coords(g: Seq<bool>, size: int, coords: Seq<(usize, usize)>) -> Seq<
    bool,
> {
    Seq::new(coords.len(), |i: int| g[coords[i].1 * size + coords[i].0])
}

/// The eight header bits read back from a grid.
pub open spec fn spec_read_header(g: Seq<bool>, size: int) -> Seq<bool> {
    Seq::new(8, |k: int| g[header_cell_y(size, k) * size + header_cell_x(size, k)])
}

/// Row-major index arithmetic stays within the grid and machine bounds.
proof fn lemma_grid_index_bound(size: int, x: int, y: int)
    requires
        0 <= x < size,
        0 <= y < size,
        size <= 177,
    ensures
        0 <= y * size + x,
        y * size + x < size * size,
        size * size <= 31329,
{
    vstd::arithmetic::mul::lemma_mul_inequality(y, size - 1, size);
    vstd::arithmetic::mul::lemma_mul_is_distributive_sub(size, size, 1);
    vstd::arithmetic::mul::lemma_mul_is_commutative(size, size - 1);
    vstd::arithmetic::mul::lemma_mul_is_commutative(size, y);
    vstd::arithmetic::mul::lemma_mul_inequality(size, 177, size);
    vstd::arithmetic::mul::lemma_mul_nonnegative(y, size);
}

/// A generated carrier symbol together with its mutable overlay.
pub struct QrExtended {
    /// The carrier text, as UTF-8 bytes.
    pub data: Vec<u8>,
    /// The symbol version, 1 to 40.
    pub version: u8,
    /// The side length in modules: 4 * version + 17.
    pub size: usize,
    /// The generator's module grid, row-major; never modified.
    pub base: Vec<bool>,
    /// The overlay the payload is written into; empty until an embed.
    pub flat_vector_modules: Vec<bool>,
    /// The alignment pattern centers; filled once per embed.
    pub alignment_positions: Vec<(i32, i32)>,
}

impl QrExtended {
    /// Structural soundness of a symbol.
    pub open spec fn wf(self) -> bool {
        &&& 1 <= self.version <= 40
        &&& self.size == 4 * self.version + 17
        &&& self.base@.len() == self.size * self.size
        &&& (self.flat_vector_modules@.len() == 0 || self.flat_vector_modules@.len()
            == self.size * self.size)
        &&& aligns_bounded(self.alignment_positions@)
    }

    /// Generate the carrier symbol for a text at an error-correction
    /// level.  Succeeds exactly when the generator accepts the text at
    /// that level; otherwise fails with `CapacityExceeded`.
    pub fn encode_text(text: &str, ecl: EccLevel) -> (r: Result<QrExtended, QrHideError>)
        ensures
            r is Ok <==> generated_ok(text.spec_bytes(), ecl.ordinal()),
            r matches Ok(q) ==> {
                &&& q.wf()
                &&& q.data@ == text.spec_bytes()
                &&& q.version as int == generated_ver(text.spec_bytes(), ecl.ordinal())
                &&& q.base@ == generated_grid(text.spec_bytes(), ecl.ordinal())
                &&& q.flat_vector_modules@.len() == 0
                &&& q.alignment_positions@.len() == 0
            },
            r matches Err(e) ==> e == QrHideError::CapacityExceeded,
    {
        match qr_generate(text, ecl) {
            Err(_) => Err(QrHideError::CapacityExceeded),
            Ok(qr) => {
                let size_i32: i32 = qr.size();
                let size: usize = size_i32 as usize;
                let version: u8 = ((size - 17) / 4) as u8;
                let base = get_modules(&qr);
                Ok(
                    QrExtended {
                        data: text.as_bytes_vec(),
                        version,
                        size,
                        base,
                        flat_vector_modules: Vec::new(),
                        alignment_positions: Vec::new(),
                    },
                )
            },
        }
    }

    /// The overlay module at (x, y); light when out of bounds or before
    /// any embed.
    pub fn get_altered_module_at(&self, x: usize, y: usize) -> (r: bool)
        requires
            self.wf(),
        ensures
            r == (x < self.size && y < self.size && self.flat_vector_modules@.len() != 0
                && self.flat_vector_modules@[y * self.size + x]),
    {
        if x < self.size && y < self.size && self.flat_vector_modules.len() != 0 {
            proof {
                lemma_grid_index_bound(self.size as int, x as int, y as int);
            }
            *self.flat_vector_modules.get(y * self.size + x).unwrap()
        } else {
            false
        }
    }

    /// The generator's own module at (x, y); light when out of bounds.
    pub fn get_original_module_at(&self, x: usize, y: usize) -> (r: bool)
        requires
            self.wf(),
        ensures
            r == (x < self.size && y < self.size && self.base@[y * self.size + x]),
    {
        if x < self.size && y < self.size {
            proof {
                lemma_grid_index_bound(self.size as int, x as int, y as int);
            }
            *self.base.get(y * self.size + x).unwrap()
        } else {
            false
        }
    }

    /// Set one overlay module.
    pub fn set_module(&mut self, x: usize, y: usize, value: bool)
        requires
            old(self).wf(),
            old(self).flat_vector_modules@.len() == old(self).size * old(self).size,
            x < old(self).size,
            y < old(self).size,
        ensures
            final(self).flat_vector_modules@ == grid_set(
                old(self).flat_vector_modules@,
                old(self).size as int,
                x as int,
                y as int,
                value,
            ),
            final(self).flat_vector_modules@.len() == old(self).flat_vector_modules@.len(),
            final(self).data == old(self).data,
            final(self).version == old(self).version,
            final(self).size == old(self).size,
            final(self).base == old(self).base,
            final(self).alignment_positions == old(self).alignment_positions,
    {
        proof {
            lemma_grid_index_bound(self.size as int, x as int, y as int);
        }
        let index: usize = y * self.size + x;
        self.flat_vector_modules[index] = value;
    }

    /// Copy the generator's grid into a fresh overlay.
    pub fn load_pre_modified_code(&mut self)
        requires
            old(self).wf(),
        ensures
            final(self).flat_vector_modules@ == old(self).base@,
            final(self).data == old(self).data,
            final(self).version == old(self).version,
            final(self).size == old(self).size,
            final(self).base == old(self).base,
            final(self).alignment_positions == old(self).alignment_positions,
    {
        let mut overlay: Vec<bool> = Vec::new();
        let mut i: usize = 0;
        let n: usize = self.base.len();
        while i < n
            invariant
                n == self.base@.len(),
                i <= n,
                overlay@ =~= self.base@.take(i as int),
            decreases n - i,
        {
            overlay.push(self.base[i]);
            i += 1;
        }
        proof {
            assert(overlay@ =~= self.base@);
        }
        self.flat_vector_modules = overlay;
    }

    /// Compute and cache the alignment pattern centers for this version.
    pub fn populate_alignment_positions(&mut self)
        requires
            old(self).wf(),
        ensures
            final(self).alignment_positions@ == spec_alignment_positions(old(self).version as int),
            aligns_bounded(final(self).alignment_positions@),
            final(self).data == old(self).data,
            final(self).version == old(self).version,
            final(self).size == old(self).size,
            final(self).base == old(self).base,
            final(self).flat_vector_modules == old(self).flat_vector_modules,
    {
        self.alignment_positions = compute_alignment_positions(self.version, self.size);
    }

    /// Embed a secret text into the overlay and verify the result.
    ///
    /// The overlay becomes the base grid with the 8-bit length header and
    /// the payload bits applied, a pure function of the symbol and the
    /// secret.  A secret longer than 255 bytes is rejected outright and
    /// the symbol is left untouched.  The final verdict comes from the
    /// external detector, which must read back both texts.
    pub fn embed(&mut self, text: &str) -> (r: Result<(), QrHideError>)
        requires
            old(self).wf(),
        ensures
            final(self).wf(),
            final(self).data == old(self).data,
            final(self).version == old(self).version,
            final(self).size == old(self).size,
            final(self).base == old(self).base,
            text.spec_bytes().len() > 255 ==> r == Err::<(), QrHideError>(
                QrHideError::SecretTooLong,
            ) && *final(self) == *old(self),
            text.spec_bytes().len() <= 255 ==> {
                &&& final(self).alignment_positions@ == spec_alignment_positions(
                    old(self).version as int,
                )
                &&& final(self).flat_vector_modules@ == spec_embedded_grid(
                    old(self).base@,
                    old(self).size as int,
                    spec_alignment_positions(old(self).version as int),
                    text.spec_bytes(),
                )
            },
            text.spec_bytes().len() <= 255 ==> r != Err::<(), QrHideError>(
                QrHideError::SecretTooLong,
            ),
            r != Err::<(), QrHideError>(QrHideError::CapacityExceeded),
    {
        if text.len() > 255 {
            return Err(QrHideError::SecretTooLong);
        }
        let ghost sz = self.size as int;
        let ghost base0 = self.base@;
        self.load_pre_modified_code();
        self.populate_alignment_positions();
        let ghost aligns = self.alignment_positions@;

        // Length header: 8 bits, MSB first, two cells per reserved row.
        let len_byte: u8 = text.len() as u8;
        let byte_len_information = u8_to_bool_vector(len_byte);
        let mut i: usize = 3;
        while i < 7
            invariant
                3 <= i <= 7,
                self.wf(),
                self.size as int == sz,
                self.base@ == base0,
                self.data == old(self).data,
                self.version == old(self).version,
                self.base == old(self).base,
                self.alignment_positions@ == aligns,
                aligns == spec_alignment_positions(old(self).version as int),
                byte_len_information@ == byte_bits(len_byte),
                self.flat_vector_modules@.len() == sz * sz,
                self.flat_vector_modules@ == spec_header_upto(base0, sz, len_byte, 2 * (i - 3)),
            decreases 7 - i,
        {
            let ghost k = 2 * (i as int - 3);
            proof {
                vstd::arithmetic::div_mod::lemma_fundamental_div_mod_converse(k, 2, i as int - 3, 0);
                vstd::arithmetic::div_mod::lemma_fundamental_div_mod_converse(
                    k + 1,
                    2,
                    i as int - 3,
                    1,
                );
            }
            let b0: bool = *byte_len_information.get(2 * (i - 3)).unwrap();
            let b1: bool = *byte_len_information.get(2 * (i - 3) + 1).unwrap();
            self.set_module(self.size - 1, self.size - i, b0);
            proof {
                assert(self.flat_vector_modules@ == spec_header_upto(base0, sz, len_byte, k + 1));
            }
            self.set_module(self.size - 2, self.size - i, b1);
            proof {
                assert(self.flat_vector_modules@ == spec_header_upto(base0, sz, len_byte, k + 2));
            }
            i += 1;
        }
        let ghost g1 = spec_header_upto(base0, sz, len_byte, 8);
        proof {
            assert(self.flat_vector_modules@ == g1);
        }

        // Payload: one bit per writable coordinate, in zigzag order.
        let to_be_inserted_bits = ascii_to_bits(text);
        let coords = zigzag_coordinates(self.size, &self.alignment_positions);
        let ghost bits = to_be_inserted_bits@;
        let ghost cs = coords@;
        proof {
            lemma_zigzag_properties(sz, aligns);
            assert(cs.skip(0) =~= cs);
            assert(bits.skip(0) =~= bits);
        }
        let mut k: usize = 0;
        while k < to_be_inserted_bits.len() && k < coords.len()
            invariant
                self.wf(),
                self.size as int == sz,
                self.base@ == base0,
                self.data == old(self).data,
                self.version == old(self).version,
                self.base == old(self).base,
                self.alignment_positions@ == aligns,
                aligns == spec_alignment_positions(old(self).version as int),
                to_be_inserted_bits@ == bits,
                coords@ == cs,
                coords_ok(cs, sz, aligns),
                k <= bits.len(),
                k <= cs.len(),
                self.flat_vector_modules@.len() == sz * sz,
                spec_payload_grid(g1, sz, cs, bits) == spec_payload_grid(
                    self.flat_vector_modules@,
                    sz,
                    cs.skip(k as int),
                    bits.skip(k as int),
                ),
            decreases bits.len() - k,
        {
            let (x, y): (usize, usize) = *coords.get(k).unwrap();
            let bit: bool = *to_be_inserted_bits.get(k).unwrap();
            let ghost before = self.flat_vector_modules@;
            self.set_module(x, y, bit);
            proof {
                assert(cs.skip(k as int).skip(1) =~= cs.skip(k as int + 1));
                assert(bits.skip(k as int).skip(1) =~= bits.skip(k as int + 1));
                assert(cs.skip(k as int)[0] == cs[k as int]);
                assert(bits.skip(k as int)[0] == bits[k as int]);
                assert(spec_payload_grid(before, sz, cs.skip(k as int), bits.skip(k as int))
                    == spec_payload_grid(
                    self.flat_vector_modules@,
                    sz,
                    cs.skip(k as int + 1),
                    bits.skip(k as int + 1),
                ));
            }
            k += 1;
        }
        proof {
            assert(cs.skip(k as int).len() == 0 || bits.skip(k as int).len() == 0);
            assert(spec_payload_grid(
                self.flat_vector_modules@,
                sz,
                cs.skip(k as int),
                bits.skip(k as int),
            ) == self.flat_vector_modules@);
            assert(self.flat_vector_modules@ == spec_embedded_grid(
                base0,
                sz,
                aligns,
                text.spec_bytes(),
            ));
        }

        // Empirical verification through the external detector.
        self.check_readability(text.as_bytes())
    }

    /// Render the overlay, run it through the external detector, and
    /// check that both the carrier and the secret read back exactly.
    pub fn check_readability(&self, secret_data: &[u8]) -> (r: Result<(), QrHideError>)
        requires
            self.wf(),
            self.flat_vector_modules@.len() == self.size * self.size,
        ensures
            !(r is Ok) ==> (r == Err::<(), QrHideError>(QrHideError::NotDetected) || r == Err::<
                (),
                QrHideError,
            >(QrHideError::CarrierUnreadable) || r == Err::<(), QrHideError>(
                QrHideError::SecretUnreadable,
            )),
    {
        let pixels = render_pixels(&self.flat_vector_modules, self.size);
        let dim: usize = 10 * self.size + 40;
        proof {
            assert(dim as int == spec_canvas_dim(self.size as int));
        }
        let content = detect_decode(&pixels, dim, dim);
        let raw = detect_raw(&pixels, dim, dim);
        let ghost gc = content;
        let ghost gr = raw;
        let v = verify_detection(&self.data, secret_data, content, raw);
        proof {
            if !(v is Ok) {
                if gc is None {
                    assert(v == Err::<(), QrHideError>(QrHideError::NotDetected));
                } else if gc.unwrap()@ != self.data@ {
                    assert(v == Err::<(), QrHideError>(QrHideError::CarrierUnreadable));
                } else if gr is None {
                    assert(v == Err::<(), QrHideError>(QrHideError::NotDetected));
                } else if spec_extract_secret(gr.unwrap()@) != secret_data@ {
                    assert(v == Err::<(), QrHideError>(QrHideError::SecretUnreadable));
                } else {
                    assert(v matches Ok(()));
                    assert(false);
                }
            }
        }
        v
    }
}

/// Compare two byte strings.
pub fn bytes_eq(a: &[u8], b: &[u8]) -> (r: bool)
    ensures
        r == (a@ == b@),
{
    if a.len() != b.len() {
        proof {
            assert(a@ != b@);
        }
        return false;
    }
    let mut i: usize = 0;
    while i < a.len()
        invariant
            a@.len() == b@.len(),
            i <= a@.len(),
            forall|t: int| 0 <= t < i ==> a@[t] == b@[t],
        decreases a@.len() - i,
    {
        if a[i] != b[i] {
            return false;
        }
        i += 1;
    }
    proof {
        assert(a@ =~= b@);
    }
    true
}

/// The verified verdict over what the detector reported: success exactly
/// when the decoded text equals the carrier and the raw bit stream yields
/// the secret; otherwise the first failed check names the error.
pub fn verify_detection(
    carrier: &Vec<u8>,
    secret: &[u8],
    content: Option<Vec<u8>>,
    raw: Option<Vec<u8>>,
) -> (r: Result<(), QrHideError>)
    ensures
        (r matches Ok(())) <==> ({
            &&& content matches Some(c)
            &&& c@ == carrier@
            &&& raw matches Some(b)
            &&& spec_extract_secret(b@) == secret@
        }),
        content is None ==> r == Err::<(), QrHideError>(QrHideError::NotDetected),
        (content matches Some(c) && c@ != carrier@) ==> r == Err::<(), QrHideError>(
            QrHideError::CarrierUnreadable,
        ),
        (content matches Some(c) && c@ == carrier@ && raw is None) ==> r == Err::<(), QrHideError>(
            QrHideError::NotDetected,
        ),
        ({
            &&& content matches Some(c)
            &&& c@ == carrier@
            &&& raw matches Some(b)
            &&& spec_extract_secret(b@) != secret@
        }) ==> r == Err::<(), QrHideError>(QrHideError::SecretUnreadable),
{
    match content {
        None => Err(QrHideError::NotDetected),
        Some(c) => {
            if !bytes_eq(c.as_slice(), carrier.as_slice()) {
                Err(QrHideError::CarrierUnreadable)
            } else {
                match raw {
                    None => Err(QrHideError::NotDetected),
                    Some(b) => {
                        let reader = Reader::from_raw_data(b.as_slice());
                        let extracted = reader.read();
                        if bytes_eq(extracted.as_slice(), secret) {
                            Ok(())
                        } else {
                            Err(QrHideError::SecretUnreadable)
                        }
                    },
                }
            }
        },
    }
}

/// Distinct in-bounds module coordinates have distinct row-major indices.
proof fn lemma_cell_index_injective(size: int, x0: int, y0: int, x1: int, y1: int)
    requires
        0 <= x0 < size,
        0 <= y0 < size,
        0 <= x1 < size,
        0 <= y1 < size,
        x0 != x1 || y0 != y1,
    ensures
        y0 * size + x0 != y1 * size + x1,
{
    if y0 != y1 {
        if y0 < y1 {
            vstd::arithmetic::mul::lemma_mul_is_distributive_add_other_way(size, y0, 1);
            vstd::arithmetic::mul::lemma_mul_inequality(y0 + 1, y1, size);
        } else {
            vstd::arithmetic::mul::lemma_mul_is_distributive_add_other_way(size, y1, 1);
            vstd::arithmetic::mul::lemma_mul_inequality(y1 + 1, y0, size);
        }
    }
}

/// Writing payload bits leaves every coordinate outside the sequence
/// unchanged.
proof fn lemma_payload_untouched(
    g: Seq<bool>,
    size: int,
    coords: Seq<(usize, usize)>,
    bits: Seq<bool>,
    x: int,
    y: int,
)
    requires
        1 <= size <= 177,
        g.len() == size * size,
        forall|i: int|
            0 <= i < coords.len() ==> (#[trigger] coords[i]).0 < size && coords[i].1 < size,
        0 <= x < size,
        0 <= y < size,
        forall|i: int|
            0 <= i < coords.len() ==> !((#[trigger] coords[i]).0 == x && coords[i].1 == y),
    ensures
        spec_payload_grid(g, size, coords, bits).len() == g.len(),
        spec_payload_grid(g, size, coords, bits)[y * size + x] == g[y * size + x],
    decreases bits.len(),
{
    if bits.len() == 0 || coords.len() == 0 {
    } else {
        let g2 = grid_set(g, size, coords[0].0 as int, coords[0].1 as int, bits[0]);
        lemma_cell_index_injective(size, coords[0].0 as int, coords[0].1 as int, x, y);
        lemma_grid_index_bound(size, coords[0].0 as int, coords[0].1 as int);
        lemma_grid_index_bound(size, x, y);
        assert(g2.len() == g.len());
        assert(g2[y * size + x] == g[y * size + x]);
        lemma_payload_untouched(g2, size, coords.skip(1), bits.skip(1), x, y);
    }
}

/// Each payload bit can be read back from the coordinate it was written
/// to, provided no coordinate repeats.
proof fn lemma_payload_reads(
    g: Seq<bool>,
    size: int,
    coords: Seq<(usize, usize)>,
    bits: Seq<bool>,
    i: int,
)
    requires
        1 <= size <= 177,
        g.len() == size * size,
        forall|t: int|
            0 <= t < coords.len() ==> (#[trigger] coords[t]).0 < size && coords[t].1 < size,
        coords.no_duplicates(),
        0 <= i < bits.len(),
        i < coords.len(),
    ensures
        spec_payload_grid(g, size, coords, bits)[coords[i].1 * size + coords[i].0] == bits[i],
    decreases i,
{
    let g2 = grid_set(g, size, coords[0].0 as int, coords[0].1 as int, bits[0]);
    lemma_grid_index_bound(size, coords[0].0 as int, coords[0].1 as int);
    assert(g2.len() == g.len());
    if i == 0 {
        assert(g2[coords[0].1 * size + coords[0].0] == bits[0]);
        assert forall|t: int| 0 <= t < coords.skip(1).len() implies !((#[trigger] coords.skip(
            1,
        )[t]).0 == coords[0].0 as int && coords.skip(1)[t].1 == coords[0].1 as int) by {
            assert(coords.skip(1)[t] == coords[t + 1]);
            assert(coords[t + 1] != coords[0]);
        }
        lemma_payload_untouched(
            g2,
            size,
            coords.skip(1),
            bits.skip(1),
            coords[0].0 as int,
            coords[0].1 as int,
        );
    } else {
        assert forall|a: int, b: int| 0 <= a < b < coords.skip(1).len() implies coords.skip(1)[a]
            != coords.skip(1)[b] by {
            assert(coords.skip(1)[a] == coords[a + 1]);
            assert(coords.skip(1)[b] == coords[b + 1]);
        }
        lemma_payload_reads(g2, size, coords.skip(1), bits.skip(1), i - 1);
        assert(coords.skip(1)[i - 1] == coords[i]);
        assert(bits.skip(1)[i - 1] == bits[i]);
    }
}

/// Writing the header keeps the grid's length.
proof fn lemma_header_len(g: Seq<bool>, size: int, b: u8, k: int)
    requires
        21 <= size <= 177,
        g.len() == size * size,
        0 <= k <= 8,
    ensures
        spec_header_upto(g, size, b, k).len() == g.len(),
    decreases k,
{
    if k > 0 {
        lemma_header_len(g, size, b, k - 1);
        lemma_grid_index_bound(size, header_cell_x(size, k - 1), header_cell_y(size, k - 1));
    }
}

/// Writing the header leaves every non-header cell unchanged.
proof fn lemma_header_untouched(g: Seq<bool>, size: int, b: u8, k: int, x: int, y: int)
    requires
        21 <= size <= 177,
        g.len() == size * size,
        0 <= k <= 8,
        0 <= x < size,
        0 <= y < size,
        forall|t: int| 0 <= t < k ==> !(x == header_cell_x(size, t) && y == header_cell_y(size, t)),
    ensures
        spec_header_upto(g, size, b, k)[y * size + x] == g[y * size + x],
    decreases k,
{
    lemma_grid_index_bound(size, x, y);
    if k > 0 {
        lemma_header_untouched(g, size, b, k - 1, x, y);
        lemma_header_len(g, size, b, k - 1);
        lemma_grid_index_bound(size, header_cell_x(size, k - 1), header_cell_y(size, k - 1));
        lemma_cell_index_injective(size, header_cell_x(size, k - 1), header_cell_y(size, k - 1), x, y);
    }
}

/// Each header bit can be read back from its own cell.
proof fn lemma_header_sticks(g: Seq<bool>, size: int, b: u8, n: int, k: int)
    requires
        21 <= size <= 177,
        g.len() == size * size,
        0 <= k < n <= 8,
    ensures
        spec_header_upto(g, size, b, n)[header_cell_y(size, k) * size + header_cell_x(size, k)]
            == bit_at(b, k),
    decreases n,
{
    lemma_header_len(g, size, b, n - 1);
    lemma_grid_index_bound(size, header_cell_x(size, n - 1), header_cell_y(size, n - 1));
    lemma_grid_index_bound(size, header_cell_x(size, k), header_cell_y(size, k));
    if k == n - 1 {
    } else {
        lemma_header_sticks(g, size, b, n - 1, k);
        vstd::arithmetic::div_mod::lemma_fundamental_div_mod(k, 2);
        vstd::arithmetic::div_mod::lemma_fundamental_div_mod(n - 1, 2);
        assert(header_cell_x(size, k) != header_cell_x(size, n - 1) || header_cell_y(size, k)
            != header_cell_y(size, n - 1));
        lemma_cell_index_injective(
            size,
            header_cell_x(size, k),
            header_cell_y(size, k),
            header_cell_x(size, n - 1),
            header_cell_y(size, n - 1),
        );
    }
}

/// Round trip at the grid level: after embedding, the length header reads
/// back as the secret's byte length, and reading the zigzag coordinates
/// and decoding them recovers the secret exactly, whenever the payload
/// fits the available coordinates.
pub proof fn lemma_grid_round_trip(
    base: Seq<bool>,
    size: int,
    aligns: Seq<(i32, i32)>,
    secret: Seq<u8>,
)
    requires
        21 <= size <= 177,
        base.len() == size * size,
        secret.len() <= 255,
        8 * secret.len() <= spec_zigzag(size, aligns).len(),
    ensures
        bits_value(spec_read_header(spec_embedded_grid(base, size, aligns, secret), size))
            == secret.len(),
        bits_text(
            spec_read_coords(
                spec_embedded_grid(base, size, aligns, secret),
                size,
                spec_zigzag(size, aligns),
            ).take(8 * secret.len() as int),
        ) == secret,
{
    let lb = secret.len() as u8;
    let cs = spec_zigzag(size, aligns);
    let bits = text_bits(secret);
    let g1 = spec_header_upto(base, size, lb, 8);
    let g2 = spec_payload_grid(g1, size, cs, bits);
    lemma_zigzag_properties(size, aligns);
    lemma_header_len(base, size, lb, 8);

    assert forall|i: int| 0 <= i < bits.len() implies spec_read_coords(g2, size, cs)[i]
        == bits[i] by {
        lemma_payload_reads(g1, size, cs, bits, i);
    }
    assert(spec_read_coords(g2, size, cs).take(8 * secret.len() as int) =~= bits);
    lemma_codec_identity(secret);

    assert forall|k: int| 0 <= k < 8 implies spec_read_header(g2, size)[k] == bit_at(lb, k) by {
        let hx = header_cell_x(size, k);
        let hy = header_cell_y(size, k);
        assert(spec_is_header(size, hx, hy));
        assert forall|i: int| 0 <= i < cs.len() implies !((#[trigger] cs[i]).0 == hx && cs[i].1
            == hy) by {
            assert(spec_writable(size, aligns, cs[i].0 as int, cs[i].1 as int));
        }
        lemma_payload_untouched(g1, size, cs, bits, hx, hy);
        lemma_header_sticks(base, size, lb, 8, k);
    }
    assert(spec_read_header(g2, size) =~= byte_bits(lb));
    lemma_bits_value_byte(lb);
}

/// Truncation law at the grid level: when the payload bits exceed the
/// available coordinates, reading every coordinate back and decoding
/// yields exactly the first `available / 8` bytes of the secret, with no
/// partial trailing byte.
pub proof fn lemma_grid_truncation(
    base: Seq<bool>,
    size: int,
    aligns: Seq<(i32, i32)>,
    secret: Seq<u8>,
)
    requires
        21 <= size <= 177,
        base.len() == size * size,
        secret.len() <= 255,
        8 * secret.len() > spec_zigzag(size, aligns).len(),
    ensures
        bits_text(
            spec_read_coords(
                spec_embedded_grid(base, size, aligns, secret),
                size,
                spec_zigzag(size, aligns),
            ),
        ) == secret.take(spec_zigzag(size, aligns).len() as int / 8),
{
    let lb = secret.len() as u8;
    let cs = spec_zigzag(size, aligns);
    let bits = text_bits(secret);
    let g1 = spec_header_upto(base, size, lb, 8);
    let g2 = spec_payload_grid(g1, size, cs, bits);
    lemma_zigzag_properties(size, aligns);
    lemma_header_len(base, size, lb, 8);
    assert forall|i: int| 0 <= i < cs.len() implies spec_read_coords(g2, size, cs)[i]
        == bits[i] by {
        lemma_payload_reads(g1, size, cs, bits, i);
    }
    assert(spec_read_coords(g2, size, cs) =~= bits.take(cs.len() as int));
    lemma_codec_truncation(secret, cs.len() as int);
}

/// Determinism: the embedded grid is a pure function of the carrier's
/// generated grid, the symbol version and the secret, so identical
/// carrier and secret inputs always produce the identical module grid.
pub proof fn lemma_embed_deterministic(
    carrier: Seq<u8>,
    ecl: int,
    secret: Seq<u8>,
    v1: int,
    v2: int,
    g1: Seq<bool>,
    g2: Seq<bool>,
)
    requires
        v1 == generated_ver(carrier, ecl),
        v2 == generated_ver(carrier, ecl),
        g1 == generated_grid(carrier, ecl),
        g2 == generated_grid(carrier, ecl),
    ensures
        v1 == v2,
        spec_embedded_grid(g1, 4 * v1 + 17, spec_alignment_positions(v1), secret)
            == spec_embedded_grid(g2, 4 * v2 + 17, spec_alignment_positions(v2), secret),
{
}

} // verus!
