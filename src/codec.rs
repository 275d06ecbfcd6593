//! Sample payloads on the wire: consecutive little-endian 32-bit words, one
//! per sample. A sample is carried here as the raw bit pattern of its
//! IEEE-754 single-precision value, so decoding and encoding are exact.
use vstd::prelude::*;

verus! {

/// The value of the little-endian word held in four bytes.
pub open spec fn le_word(b0: u8, b1: u8, b2: u8, b3: u8) -> int {
    b0 as int + 256 * (b1 as int) + 65536 * (b2 as int) + 16777216 * (b3 as int)
}

/// Byte `j` (0 for the least significant) of the little-endian encoding of `w`.
pub open spec fn le_byte(w: u32, j: int) -> u8 {
    if j == 0 {
        (w % 256) as u8
    } else if j == 1 {
        ((w / 256) % 256) as u8
    } else if j == 2 {
        ((w / 65536) % 256) as u8
    } else {
        (w / 16777216) as u8
    }
}

/// The words that a payload whose length is a multiple of four holds.
pub open spec fn decoded(b: Seq<u8>) -> Seq<u32> {
    Seq::new(
        b.len() / 4,
        |i: int| le_word(b[4 * i], b[4 * i + 1], b[4 * i + 2], b[4 * i + 3]) as u32,
    )
}

/// The payload that carries the words `s`.
pub open spec fn encoded(s: Seq<u32>) -> Seq<u8> {
    Seq::new(4 * s.len(), |i: int| le_byte(s[i / 4], i % 4))
}

/// A payload whose length is not a whole number of samples.
#[derive(Clone, Copy, Debug, PartialEq, Eq, Structural)]
pub struct PayloadLengthError {
    /// The length of the rejected payload in bytes.
    pub len: usize,
}

/// Splits a payload into its little-endian words. A payload whose length is
/// not a multiple of four is rejected whole.
pub fn decode_samples(bytes: &[u8]) -> (r: Result<Vec<u32>, PayloadLengthError>)
    ensures
        match r {
            Ok(v) => bytes@.len() % 4 == 0 && v@ == decoded(bytes@),
            Err(e) => bytes@.len() % 4 != 0 && e.len == bytes@.len(),
        },
{
    let n = bytes.len();
    if n % 4 != 0 {
        return Err(PayloadLengthError { len: n });
    }
    let count = n / 4;
    let mut out: Vec<u32> = Vec::with_capacity(count);
    let mut i: usize = 0;
    while i < count
        invariant
            n == bytes@.len(),
            count == n / 4,
            i <= count,
            out@ == decoded(bytes@).take(i as int),
        decreases count - i,
    {
        let base = 4 * i;
        let w: u32 = bytes[base] as u32 + (bytes[base + 1] as u32) * 256 + (bytes[base + 2]
            as u32) * 65536 + (bytes[base + 3] as u32) * 16777216;
        out.push(w);
        i = i + 1;
        assert(out@ =~= decoded(bytes@).take(i as int));
    }
    assert(out@ =~= decoded(bytes@));
    Ok(out)
}

/// Writes each word as four little-endian bytes, in order.
pub fn encode_samples(words: &[u32]) -> (r: Vec<u8>)
    requires
        4 * words@.len() <= usize::MAX,
    ensures
        r@ == encoded(words@),
{
    let n = words.len();
    let mut out: Vec<u8> = Vec::with_capacity(4 * n);
    let mut i: usize = 0;
    while i < n
        invariant
            n == words@.len(),
            4 * n <= usize::MAX,
            i <= n,
            out@ == encoded(words@).take(4 * i),
        decreases n - i,
    {
        let w = words[i];
        out.push((w % 256) as u8);
        out.push(((w / 256) % 256) as u8);
        out.push(((w / 65536) % 256) as u8);
        out.push((w / 16777216) as u8);
        i = i + 1;
        assert(out@ =~= encoded(words@).take(4 * i));
    }
    assert(out@ =~= encoded(words@));
    out
}

/// Four bytes read back as a little-endian word give the word they were
/// written from.
pub proof fn lemma_word_round_trip(w: u32)
    ensures
        le_word(le_byte(w, 0), le_byte(w, 1), le_byte(w, 2), le_byte(w, 3)) == w,
{
    assert(w == (w % 256) + 256 * ((w / 256) % 256) + 65536 * ((w / 65536) % 256) + 16777216 * (w
        / 16777216)) by (bit_vector);
}

/// Encoding a sequence of samples and decoding the payload gives back the
/// same samples, for sequences of every length.
pub proof fn lemma_decode_encode(s: Seq<u32>)
    ensures
        encoded(s).len() % 4 == 0,
        decoded(encoded(s)) == s,
{
    let b = encoded(s);
    assert forall|i: int| 0 <= i < s.len() implies decoded(b)[i] == s[i] by {
        lemma_word_round_trip(s[i]);
        assert((4 * i) / 4 == i && (4 * i + 1) / 4 == i && (4 * i + 2) / 4 == i && (4 * i + 3)
            / 4 == i);
        assert((4 * i) % 4 == 0 && (4 * i + 1) % 4 == 1 && (4 * i + 2) % 4 == 2 && (4 * i + 3)
            % 4 == 3);
    }
    assert(decoded(b) =~= s);
}

} // verus!
