//! Reader: decode-side extraction of the hidden payload.
//!
//! Given the raw bit stream of a located symbol, the first 12 bits are a
//! header: 4 unused bits, then the secret length in bytes.  The payload is
//! the next `8 * length` bits (fewer if the stream runs out), decoded back
//! to bytes.

use vstd::prelude::*;

verus! {

use crate::codec::bits_text;
use crate::codec::bits_value;
use crate::codec::bools_to_decimal;
use crate::codec::bytes_to_bits;
use crate::codec::bits_to_ascii;
use crate::codec::text_bits;

/// The payload bits carried by a raw bit stream: everything after the
/// 12-bit header, cut to the length the header announces.
pub open spec fn spec_payload_bits(bytes: Seq<u8>) -> Seq<bool> {
    let bits = text_bits(bytes);
    if bits.len() < 12 {
        Seq::empty()
    } else {
        let n = 8 * bits_value(bits.subrange(4, 12));
        let avail = bits.len() - 12;
        bits.subrange(
            12,
            12 + (if n <= avail {
                n as int
            } else {
                avail as int
            }),
        )
    }
}

/// The secret a raw bit stream carries: its payload bits decoded to
/// bytes, any trailing incomplete byte dropped.
pub open spec fn spec_extract_secret(bytes: Seq<u8>) -> Seq<u8> {
    bits_text(spec_payload_bits(bytes))
}

/// Holds the payload bits extracted from one raw bit stream.
pub struct Reader {
    pub modules: Vec<bool>,
}

impl Reader {
    /// Extract the payload bits from a raw bit stream.
    pub fn from_raw_data(raw: &[u8]) -> (r: Reader)
        ensures
            r.modules@ == spec_payload_bits(raw@),
    {
        let bits = bytes_to_bits(raw);
        if bits.len() < 12 {
            return Reader { modules: Vec::new() };
        }
        let mut header: Vec<bool> = Vec::new();
        let mut i: usize = 0;
        while i < 8
            invariant
                i <= 8,
                bits@.len() >= 12,
                bits@ == text_bits(raw@),
                header@ =~= bits@.subrange(4, 4 + i),
            decreases 8 - i,
        {
            header.push(bits[4 + i]);
            i += 1;
        }
        let len_byte: u8 = bools_to_decimal(header.as_slice());
        proof {
            assert(header@ =~= bits@.subrange(4, 12));
        }
        let n: usize = 8 * (len_byte as usize);
        let avail: usize = bits.len() - 12;
        let take_n: usize = if n <= avail {
            n
        } else {
            avail
        };
        let mut modules: Vec<bool> = Vec::new();
        let mut k: usize = 0;
        while k < take_n
            invariant
                k <= take_n,
                take_n <= 2040,
                bits@.len() >= 12,
                take_n <= bits@.len() - 12,
                modules@ =~= bits@.subrange(12, 12 + k),
            decreases take_n - k,
        {
            modules.push(bits[12 + k]);
            k += 1;
        }
        proof {
            assert(modules@ =~= spec_payload_bits(raw@));
        }
        Reader { modules }
    }

    /// Decode the extracted payload bits to the secret's bytes.
    pub fn read(&self) -> (r: Vec<u8>)
        ensures
            r@ == bits_text(self.modules@),
    {
        bits_to_ascii(self.modules.as_slice())
    }
}

} // verus!
