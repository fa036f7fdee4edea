//! Little-endian encoding and decoding of 16-bit samples.

use vstd::prelude::*;

verus! {

/// Low byte of the little-endian encoding of `v`.
pub open spec fn le_lo(v: i16) -> u8 {
    ((v as u16) & 0xff) as u8
}

/// High byte of the little-endian encoding of `v`.
pub open spec fn le_hi(v: i16) -> u8 {
    ((v as u16) >> 8) as u8
}

/// The sample encoded by the byte pair `(lo, hi)`, low byte first.
pub open spec fn le_word(lo: u8, hi: u8) -> i16 {
    ((lo as u16) | ((hi as u16) << 8)) as i16
}

/// Encoding of a sequence of samples: two bytes per sample, low byte first.
pub open spec fn encode_words(g: Seq<i16>) -> Seq<u8> {
    Seq::new(2 * g.len(), |i: int| if i % 2 == 0 { le_lo(g[i / 2]) } else { le_hi(g[i / 2]) })
}

/// Decoding of a byte sequence into samples, two bytes per sample.
pub open spec fn decode_words(b: Seq<u8>) -> Seq<i16> {
    Seq::new(b.len() / 2, |j: int| le_word(b[2 * j], b[2 * j + 1]))
}

/// Splits `v` into its little-endian byte pair.
pub fn encode_i16(v: i16) -> (r: (u8, u8))
    ensures
        r.0 == le_lo(v),
        r.1 == le_hi(v),
{
    let u: u16 = #[verifier::truncate] (v as u16);
    (#[verifier::truncate] ((u & 0xff) as u8), #[verifier::truncate] ((u >> 8) as u8))
}

/// Reassembles a sample from its little-endian byte pair.
pub fn decode_i16(lo: u8, hi: u8) -> (r: i16)
    ensures
        r == le_word(lo, hi),
{
    #[verifier::truncate] (((lo as u16) | ((hi as u16) << 8)) as i16)
}

/// Decoding the two bytes of a sample gives the sample back: the encoding is
/// lossless, bit for bit.
pub proof fn lemma_le_word_of_bytes(v: i16)
    ensures
        le_word(le_lo(v), le_hi(v)) == v,
{
    assert((((((v as u16) & 0xff) as u8) as u16) | (((((v as u16) >> 8) as u8) as u16) << 8))
        as i16 == v) by (bit_vector);
}

/// Division facts for the byte positions of word `j`.
pub proof fn lemma_word_positions(j: int)
    requires
        0 <= j,
    ensures
        (2 * j) % 2 == 0,
        (2 * j) / 2 == j,
        (2 * j + 1) % 2 == 1,
        (2 * j + 1) / 2 == j,
{
    vstd::arithmetic::div_mod::lemma_fundamental_div_mod_converse(2 * j, 2, j, 0);
    vstd::arithmetic::div_mod::lemma_fundamental_div_mod_converse(2 * j + 1, 2, j, 1);
}

/// The bytes of word `j` inside an encoded block.
pub proof fn lemma_encode_words_index(g: Seq<i16>, j: int)
    requires
        0 <= j < g.len(),
    ensures
        encode_words(g)[2 * j] == le_lo(g[j]),
        encode_words(g)[2 * j + 1] == le_hi(g[j]),
{
    lemma_word_positions(j);
}

/// Decoding an encoded block of samples gives the samples back unchanged.
pub proof fn lemma_decode_encode_words(g: Seq<i16>)
    ensures
        decode_words(encode_words(g)) == g,
{
    let b = encode_words(g);
    assert(b.len() / 2 == g.len()) by {
        lemma_word_positions(g.len() as int);
    }
    assert forall|j: int| 0 <= j < g.len() implies decode_words(b)[j] == g[j] by {
        lemma_encode_words_index(g, j);
        lemma_le_word_of_bytes(g[j]);
    }
    assert(decode_words(b) =~= g);
}

} // verus!
