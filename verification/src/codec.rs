//! The wire format of embeddings: a sequence of 32-bit words (the bit
//! patterns of `f32` values), each as four little-endian bytes.

use crate::error::StoreError;
use vstd::prelude::*;

verus! {

/// The word stored little-endian in the four bytes at `b[4 * i ..]`.
pub open spec fn le_word(b: Seq<u8>, i: int) -> u32 {
    (b[4 * i] + 256 * b[4 * i + 1] + 65536 * b[4 * i + 2] + 16777216 * b[4 * i + 3]) as u32
}

/// Byte `k` (0 = least significant) of `x`.
pub open spec fn byte_of(x: u32, k: int) -> u8 {
    if k == 0 {
        (x % 256) as u8
    } else if k == 1 {
        ((x / 256) % 256) as u8
    } else if k == 2 {
        ((x / 65536) % 256) as u8
    } else {
        ((x / 16777216) % 256) as u8
    }
}

/// The words of a byte string whose length is a multiple of four.
pub open spec fn decode_words(b: Seq<u8>) -> Seq<u32> {
    Seq::new(b.len() / 4, |i: int| le_word(b, i))
}

/// The little-endian bytes of the words, four per word.
pub open spec fn encode_words(w: Seq<u32>) -> Seq<u8> {
    Seq::new(4 * w.len(), |j: int| byte_of(w[j / 4], j % 4))
}

/// Decodes an embedding: the words of `bytes`, four little-endian bytes
/// each. A length that is not a multiple of four is refused.
pub fn decode_le_words(bytes: &[u8]) -> (r: Result<Vec<u32>, StoreError>)
    ensures
        r is Err <==> bytes@.len() % 4 != 0,
        r matches Err(e) ==> e is Serialization,
        r matches Ok(w) ==> w@ == decode_words(bytes@),
{
    if bytes.len() % 4 != 0 {
        return Err(
            StoreError::Serialization(
                "Embedding byte length not aligned to f32 (must be multiple of 4)".to_owned(),
            ),
        );
    }
    let len = bytes.len();
    let n = len / 4;
    let mut w: Vec<u32> = Vec::new();
    let mut i: usize = 0;
    while i < n
        invariant
            len == bytes@.len(),
            n == len / 4,
            i <= n,
            w@ == decode_words(bytes@).subrange(0, i as int),
        decreases n - i,
    {
        assert(4 * i + 3 < len) by (nonlinear_arith)
            requires
                i < n,
                n == len / 4,
        ;
        let b0 = bytes[4 * i] as u32;
        let b1 = bytes[4 * i + 1] as u32;
        let b2 = bytes[4 * i + 2] as u32;
        let b3 = bytes[4 * i + 3] as u32;
        let x = b0 + 256 * b1 + 65536 * b2 + 16777216 * b3;
        w.push(x);
        assert(w@ =~= decode_words(bytes@).subrange(0, i + 1 as int));
        i = i + 1;
    }
    assert(w@ =~= decode_words(bytes@));
    Ok(w)
}

/// Encodes an embedding: the four little-endian bytes of each word, in
/// order.
pub fn encode_le_words(words: &[u32]) -> (r: Vec<u8>)
    requires
        4 * words@.len() <= usize::MAX,
    ensures
        r@ == encode_words(words@),
{
    let mut r: Vec<u8> = Vec::new();
    let mut i: usize = 0;
    while i < words.len()
        invariant
            i <= words@.len(),
            4 * words@.len() <= usize::MAX,
            r@ == encode_words(words@).subrange(0, 4 * i as int),
        decreases words@.len() - i,
    {
        let x = words[i];
        r.push((x % 256) as u8);
        r.push(((x / 256) % 256) as u8);
        r.push(((x / 65536) % 256) as u8);
        r.push(((x / 16777216) % 256) as u8);
        assert forall|j: int| 4 * i <= j < 4 * i + 4 implies #[trigger] encode_words(words@)[j]
            == byte_of(x, j - 4 * i) by {
            assert(j / 4 == i as int) by (nonlinear_arith)
                requires
                    4 * i <= j < 4 * i + 4,
            ;
            assert(j % 4 == j - 4 * i) by (nonlinear_arith)
                requires
                    4 * i <= j < 4 * i + 4,
            ;
        }
        assert(r@ =~= encode_words(words@).subrange(0, 4 * (i + 1) as int));
        i = i + 1;
    }
    assert(r@ =~= encode_words(words@));
    r
}

/// The four bytes of a word spell it back.
proof fn lemma_word_bytes(x: u32)
    ensures
        (byte_of(x, 0) + 256 * byte_of(x, 1) + 65536 * byte_of(x, 2) + 16777216 * byte_of(x, 3))
            as u32 == x,
{
    assert((x % 256) as u8 + 256 * ((x / 256) % 256) as u8 + 65536 * ((x / 65536) % 256) as u8
        + 16777216 * ((x / 16777216) % 256) as u8 == x) by (bit_vector);
}

/// Four bytes spell a word whose bytes are those four.
proof fn lemma_bytes_word(b0: u8, b1: u8, b2: u8, b3: u8)
    ensures
        ({
            let x = (b0 + 256 * b1 + 65536 * b2 + 16777216 * b3) as u32;
            byte_of(x, 0) == b0 && byte_of(x, 1) == b1 && byte_of(x, 2) == b2 && byte_of(x, 3)
                == b3
        }),
{
    let x = (b0 + 256 * b1 + 65536 * b2 + 16777216 * b3) as u32;
    assert(b0 + 256 * b1 + 65536 * b2 + 16777216 * b3 <= u32::MAX);
    assert(x == b0 + 256 * b1 + 65536 * b2 + 16777216 * b3);
    assert((x % 256) as u8 == b0 && ((x / 256) % 256) as u8 == b1 && ((x / 65536) % 256) as u8
        == b2 && ((x / 16777216) % 256) as u8 == b3) by (bit_vector)
        requires
            x == b0 + 256 * b1 + 65536 * b2 + 16777216 * b3,
    ;
}

/// Decoding what was encoded gives the words back.
pub proof fn law_decode_encode(w: Seq<u32>)
    ensures
        encode_words(w).len() % 4 == 0,
        decode_words(encode_words(w)) == w,
{
    let b = encode_words(w);
    assert(b.len() == 4 * w.len());
    assert((4 * w.len()) % 4 == 0) by (nonlinear_arith);
    assert((4 * w.len()) / 4 == w.len()) by (nonlinear_arith);
    assert forall|i: int| 0 <= i < w.len() implies #[trigger] decode_words(b)[i] == w[i] by {
        assert((4 * i) / 4 == i && (4 * i) % 4 == 0) by (nonlinear_arith);
        assert((4 * i + 1) / 4 == i && (4 * i + 1) % 4 == 1) by (nonlinear_arith);
        assert((4 * i + 2) / 4 == i && (4 * i + 2) % 4 == 2) by (nonlinear_arith);
        assert((4 * i + 3) / 4 == i && (4 * i + 3) % 4 == 3) by (nonlinear_arith);
        assert(4 * i + 3 < b.len()) by (nonlinear_arith)
            requires
                0 <= i < w.len(),
                b.len() == 4 * w.len(),
        ;
        assert(b[4 * i] == byte_of(w[i], 0));
        assert(b[4 * i + 1] == byte_of(w[i], 1));
        assert(b[4 * i + 2] == byte_of(w[i], 2));
        assert(b[4 * i + 3] == byte_of(w[i], 3));
        lemma_word_bytes(w[i]);
    }
    assert(decode_words(b) =~= w);
}

/// Encoding what was decoded gives the bytes back.
pub proof fn law_encode_decode(b: Seq<u8>)
    requires
        b.len() % 4 == 0,
    ensures
        encode_words(decode_words(b)) == b,
{
    let w = decode_words(b);
    assert(4 * (b.len() / 4) == b.len()) by (nonlinear_arith)
        requires
            b.len() % 4 == 0,
    ;
    assert forall|j: int| 0 <= j < b.len() implies #[trigger] encode_words(w)[j] == b[j] by {
        let i = j / 4;
        let k = j % 4;
        assert(j == 4 * i + k && 0 <= k < 4 && 0 <= i < w.len()) by (nonlinear_arith)
            requires
                0 <= j < b.len(),
                i == j / 4,
                k == j % 4,
                4 * (b.len() / 4) == b.len(),
                w.len() == b.len() / 4,
        ;
        lemma_bytes_word(b[4 * i], b[4 * i + 1], b[4 * i + 2], b[4 * i + 3]);
    }
    assert(encode_words(w) =~= b);
}

} // verus!
