//! Bit codec: text to bit sequences and back.
//!
//! A byte becomes eight booleans, most significant bit first; a text becomes
//! the concatenation of its bytes' bits in input order.  Decoding groups a
//! bit sequence into chunks of eight, drops a trailing incomplete chunk, and
//! reads each chunk back as an unsigned byte.

use vstd::prelude::*;

verus! {

use vstd::arithmetic::div_mod::lemma_fundamental_div_mod_converse;
use vstd::arithmetic::div_mod::lemma_div_is_ordered;
use vstd::string::StringSliceAdditionalSpecFns;

/// Bit `i` (0 = most significant) of byte `b`, for `0 <= i < 8`.
pub open spec fn bit_at(b: u8, i: int) -> bool {
    ((b >> ((7 - i) as u8)) & 1) == 1
}

/// The eight bits of a byte, most significant first.
pub open spec fn byte_bits(b: u8) -> Seq<bool> {
    Seq::new(8, |i: int| bit_at(b, i))
}

/// The bits of a byte sequence, bytes in order, each byte MSB first.
pub open spec fn text_bits(s: Seq<u8>) -> Seq<bool> {
    Seq::new((8 * s.len()) as nat, |i: int| bit_at(s[i / 8], i % 8))
}

/// The unsigned value of a bit sequence read MSB first.
pub open spec fn bits_value(bits: Seq<bool>) -> nat
    decreases bits.len(),
{
    if bits.len() == 0 {
        0
    } else {
        2 * bits_value(bits.drop_last()) + (if bits.last() {
            1nat
        } else {
            0nat
        })
    }
}

/// The bytes encoded by a bit sequence: chunks of eight, MSB first, any
/// trailing incomplete chunk dropped.
pub open spec fn bits_text(bits: Seq<bool>) -> Seq<u8> {
    Seq::new((bits.len() / 8) as nat, |k: int| bits_value(bits.subrange(8 * k, 8 * k + 8)) as u8)
}

/// 2^n for small spec arithmetic.
pub open spec fn pow2(n: int) -> nat
    decreases n,
{
    if n <= 0 {
        1
    } else {
        2 * pow2(n - 1)
    }
}

proof fn lemma_div8(b: int, j: int)
    requires
        0 <= j < 8,
    ensures
        (8 * b + j) / 8 == b,
        (8 * b + j) % 8 == j,
{
    lemma_fundamental_div_mod_converse(8 * b + j, 8, b, j);
}

/// A byte's value is recovered from its own bits.
pub proof fn lemma_bits_value_byte(b: u8)
    ensures
        bits_value(byte_bits(b)) == b,
{
    let s = byte_bits(b);
    let s7 = s.drop_last();
    let s6 = s7.drop_last();
    let s5 = s6.drop_last();
    let s4 = s5.drop_last();
    let s3 = s4.drop_last();
    let s2 = s3.drop_last();
    let s1 = s2.drop_last();
    let s0 = s1.drop_last();
    assert(s0.len() == 0);
    let b0 = (b >> 7) & 1;
    let b1 = (b >> 6) & 1;
    let b2 = (b >> 5) & 1;
    let b3 = (b >> 4) & 1;
    let b4 = (b >> 3) & 1;
    let b5 = (b >> 2) & 1;
    let b6 = (b >> 1) & 1;
    let b7 = (b >> 0) & 1;
    assert(((b >> 7) & 1) == 0 || ((b >> 7) & 1) == 1) by (bit_vector);
    assert(((b >> 6) & 1) == 0 || ((b >> 6) & 1) == 1) by (bit_vector);
    assert(((b >> 5) & 1) == 0 || ((b >> 5) & 1) == 1) by (bit_vector);
    assert(((b >> 4) & 1) == 0 || ((b >> 4) & 1) == 1) by (bit_vector);
    assert(((b >> 3) & 1) == 0 || ((b >> 3) & 1) == 1) by (bit_vector);
    assert(((b >> 2) & 1) == 0 || ((b >> 2) & 1) == 1) by (bit_vector);
    assert(((b >> 1) & 1) == 0 || ((b >> 1) & 1) == 1) by (bit_vector);
    assert(((b >> 0) & 1) == 0 || ((b >> 0) & 1) == 1) by (bit_vector);
    assert(s1.last() == bit_at(b, 0) && s2.last() == bit_at(b, 1) && s3.last() == bit_at(b, 2)
        && s4.last() == bit_at(b, 3) && s5.last() == bit_at(b, 4) && s6.last() == bit_at(b, 5)
        && s7.last() == bit_at(b, 6) && s.last() == bit_at(b, 7));
    assert(bits_value(s0) == 0);
    assert(bits_value(s1) == 2 * bits_value(s0) + (if s1.last() { 1nat } else { 0nat }));
    assert(bits_value(s2) == 2 * bits_value(s1) + (if s2.last() { 1nat } else { 0nat }));
    assert(bits_value(s3) == 2 * bits_value(s2) + (if s3.last() { 1nat } else { 0nat }));
    assert(bits_value(s4) == 2 * bits_value(s3) + (if s4.last() { 1nat } else { 0nat }));
    assert(bits_value(s5) == 2 * bits_value(s4) + (if s5.last() { 1nat } else { 0nat }));
    assert(bits_value(s6) == 2 * bits_value(s5) + (if s6.last() { 1nat } else { 0nat }));
    assert(bits_value(s7) == 2 * bits_value(s6) + (if s7.last() { 1nat } else { 0nat }));
    assert(bits_value(s) == 2 * bits_value(s7) + (if s.last() { 1nat } else { 0nat }));
    assert(bits_value(s) == 128 * b0 + 64 * b1 + 32 * b2 + 16 * b3 + 8 * b4 + 4 * b5 + 2 * b6
        + b7);
    assert(128 * ((b >> 7) & 1) + 64 * ((b >> 6) & 1) + 32 * ((b >> 5) & 1) + 16 * ((b >> 4) & 1)
        + 8 * ((b >> 3) & 1) + 4 * ((b >> 2) & 1) + 2 * ((b >> 1) & 1) + ((b >> 0) & 1)
        == b) by (bit_vector);
}

/// Chunk `k` of a text's bit sequence is exactly the bits of byte `k`.
pub proof fn lemma_text_bits_chunk(s: Seq<u8>, k: int)
    requires
        0 <= k < s.len(),
    ensures
        text_bits(s).subrange(8 * k, 8 * k + 8) =~= byte_bits(s[k]),
{
    assert forall|j: int| 0 <= j < 8 implies text_bits(s).subrange(8 * k, 8 * k + 8)[j]
        == byte_bits(s[k])[j] by {
        lemma_div8(k, j);
        assert(text_bits(s)[8 * k + j] == bit_at(s[k], j));
    }
}

/// Codec identity: decoding the bits of a text yields the text itself.
pub proof fn lemma_codec_identity(s: Seq<u8>)
    ensures
        bits_text(text_bits(s)) == s,
{
    lemma_div8(s.len() as int, 0);
    assert(bits_text(text_bits(s)).len() == s.len());
    assert forall|k: int| 0 <= k < s.len() implies bits_text(text_bits(s))[k] == s[k] by {
        lemma_text_bits_chunk(s, k);
        lemma_bits_value_byte(s[k]);
    }
    assert(bits_text(text_bits(s)) =~= s);
}

/// Truncation law for the codec: cutting a text's bit sequence after `n`
/// bits and decoding yields the first `n / 8` bytes, with no partial byte.
pub proof fn lemma_codec_truncation(s: Seq<u8>, n: int)
    requires
        0 <= n <= 8 * s.len(),
    ensures
        bits_text(text_bits(s).take(n)) == s.take(n / 8),
{
    let cut = text_bits(s).take(n);
    lemma_div_is_ordered(n, 8 * s.len() as int, 8);
    lemma_div8(s.len() as int, 0);
    assert(n / 8 <= s.len());
    assert(0 <= n / 8) by {
        lemma_div_is_ordered(0, n, 8);
    }
    assert(cut.len() / 8 == n / 8);
    assert forall|k: int| 0 <= k < n / 8 implies bits_text(cut)[k] == s.take(n / 8)[k] by {
        vstd::arithmetic::div_mod::lemma_fundamental_div_mod(n, 8);
        assert(8 * (k + 1) <= 8 * (n / 8));
        assert(cut.subrange(8 * k, 8 * k + 8) =~= text_bits(s).subrange(8 * k, 8 * k + 8));
        lemma_text_bits_chunk(s, k);
        lemma_bits_value_byte(s[k]);
    }
    assert(bits_text(cut) =~= s.take(n / 8));
}

/// The eight bits of a byte, most significant first, as a vector.
pub fn u8_to_bool_vector(byte: u8) -> (r: Vec<bool>)
    ensures
        r@ == byte_bits(byte),
{
    let mut bits: Vec<bool> = Vec::new();
    let mut i: usize = 0;
    while i < 8
        invariant
            i <= 8,
            bits@.len() == i,
            forall|k: int| 0 <= k < i ==> bits@[k] == bit_at(byte, k),
        decreases 8 - i,
    {
        let sh: u8 = (7 - i) as u8;
        bits.push(((byte >> sh) & 1) == 1);
        i += 1;
    }
    proof {
        assert(bits@ =~= byte_bits(byte));
    }
    bits
}

/// The bits of a byte slice, bytes in order, each MSB first.
pub fn bytes_to_bits(bytes: &[u8]) -> (r: Vec<bool>)
    ensures
        r@ == text_bits(bytes@),
{
    let mut bits: Vec<bool> = Vec::new();
    let mut bi: usize = 0;
    while bi < bytes.len()
        invariant
            bi <= bytes@.len(),
            bits@.len() == 8 * bi,
            forall|k: int| 0 <= k < bits@.len() ==> bits@[k] == text_bits(bytes@)[k],
        decreases bytes@.len() - bi,
    {
        let byte: u8 = bytes[bi];
        let mut j: usize = 0;
        while j < 8
            invariant
                j <= 8,
                bi < bytes@.len(),
                byte == bytes@[bi as int],
                bits@.len() == 8 * bi + j,
                forall|k: int| 0 <= k < bits@.len() ==> bits@[k] == text_bits(bytes@)[k],
            decreases 8 - j,
        {
            let sh: u8 = (7 - j) as u8;
            bits.push(((byte >> sh) & 1) == 1);
            proof {
                lemma_div8(bi as int, j as int);
                assert(text_bits(bytes@)[8 * bi + j] == bit_at(bytes@[bi as int], j as int));
            }
            j += 1;
        }
        bi += 1;
    }
    proof {
        assert(bits@ =~= text_bits(bytes@));
    }
    bits
}

/// The bits of an ASCII text, via its UTF-8 bytes.
pub fn ascii_to_bits(ascii: &str) -> (r: Vec<bool>)
    ensures
        r@ == text_bits(ascii.spec_bytes()),
{
    let bytes: &[u8] = ascii.as_bytes();
    bytes_to_bits(bytes)
}

/// The unsigned value of at most eight bits, MSB first.
pub fn bools_to_decimal(bits: &[bool]) -> (r: u8)
    requires
        bits@.len() <= 8,
    ensures
        r as nat == bits_value(bits@),
{
    let mut value: u8 = 0;
    let mut i: usize = 0;
    while i < bits.len()
        invariant
            i <= bits@.len() <= 8,
            value as nat == bits_value(bits@.take(i as int)),
            (value as nat) < pow2(i as int),
        decreases bits@.len() - i,
    {
        proof {
            assert(bits@.take(i + 1).drop_last() =~= bits@.take(i as int));
            assert(pow2(i as int) <= pow2(7)) by {
                lemma_pow2_monotone(i as int, 7);
            }
            lemma_pow2_small();
        }
        value = 2 * value + (if bits[i] {
            1
        } else {
            0
        });
        i += 1;
    }
    proof {
        assert(bits@.take(bits@.len() as int) =~= bits@);
    }
    value
}

proof fn lemma_pow2_small()
    ensures
        pow2(7) == 128,
{
    reveal_with_fuel(pow2, 9);
}

proof fn lemma_pow2_monotone(a: int, b: int)
    requires
        a <= b,
    ensures
        pow2(a) <= pow2(b),
    decreases b,
{
    if a < b && b > 0 {
        lemma_pow2_monotone(a, b - 1);
    }
}

/// Decode a bit sequence to bytes: chunks of eight, MSB first, trailing
/// incomplete chunk dropped.
pub fn bits_to_ascii(bits: &[bool]) -> (r: Vec<u8>)
    ensures
        r@ == bits_text(bits@),
{
    let len: usize = bits.len();
    let n: usize = len / 8;
    let mut out: Vec<u8> = Vec::new();
    let mut k: usize = 0;
    proof {
        lemma_div_is_ordered(0, bits@.len() as int, 8);
        vstd::arithmetic::div_mod::lemma_fundamental_div_mod(bits@.len() as int, 8);
    }
    while k < n
        invariant
            k <= n,
            n == bits@.len() / 8,
            8 * n <= bits@.len() <= usize::MAX,
            out@.len() == k,
            forall|t: int| 0 <= t < k ==> out@[t] == bits_text(bits@)[t],
        decreases n - k,
    {
        let mut value: u8 = 0;
        let mut j: usize = 0;
        while j < 8
            invariant
                j <= 8,
                k < n,
                8 * n <= bits@.len() <= usize::MAX,
                value as nat == bits_value(bits@.subrange(8 * k, 8 * k + j)),
                (value as nat) < pow2(j as int),
            decreases 8 - j,
        {
            proof {
                assert(bits@.subrange(8 * k, 8 * k + j + 1).drop_last() =~= bits@.subrange(
                    8 * k,
                    8 * k + j,
                ));
                assert(pow2(j as int) <= pow2(7)) by {
                    lemma_pow2_monotone(j as int, 7);
                }
                lemma_pow2_small();
            }
            value = 2 * value + (if bits[8 * k + j] {
                1
            } else {
                0
            });
            j += 1;
        }
        out.push(value);
        k += 1;
    }
    proof {
        assert(out@ =~= bits_text(bits@));
    }
    out
}

} // verus!
