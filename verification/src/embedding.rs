//! Embeddings of texts: vectors of single-precision numbers, by their bits.

use crate::error::StateError;
use vstd::prelude::*;

verus! {

/// A single-precision floating-point number by its bits.
#[derive(Debug, Clone, Copy, PartialEq, Eq, Structural)]
pub struct Binary32 {
    pub bits: u32,
}

impl Binary32 {
    pub fn from_bits(bits: u32) -> (r: Binary32)
        ensures
            r.bits == bits,
    {
        Binary32 { bits }
    }
}

/// Turns a text into a vector.
pub trait EmbeddingProvider: Send + Sync {
    /// The length of the vectors.
    fn dimension(&self) -> usize;

    /// The vector of a text; an empty one where there is no embedding.
    fn embed(&self, text: &str) -> Result<Vec<Binary32>, StateError>;
}

/// A provider without embeddings: its vectors are empty.
pub struct NoopEmbeddingProvider;

impl EmbeddingProvider for NoopEmbeddingProvider {
    fn dimension(&self) -> (r: usize)
        ensures
            r == 0,
    {
        0
    }

    fn embed(&self, _text: &str) -> (r: Result<Vec<Binary32>, StateError>)
        ensures
            r matches Ok(vector) && vector@.len() == 0,
    {
        Ok(Vec::new())
    }
}

/// The byte at a place of a number, the lowest one first.
pub open spec fn byte_at(bits: u32, place: int) -> u8 {
    if place == 0 {
        (bits % 256) as u8
    } else if place == 1 {
        (bits / 256 % 256) as u8
    } else if place == 2 {
        (bits / 65_536 % 256) as u8
    } else {
        (bits / 16_777_216) as u8
    }
}

/// The bytes of a vector: four for each number, the lowest one first.
pub open spec fn vector_bytes(vector: Seq<Binary32>) -> Seq<u8> {
    Seq::new(4 * vector.len(), |i: int| byte_at(vector[i / 4].bits, i % 4))
}

/// What is stored of a vector: its bytes, and nothing of an empty one.
pub open spec fn stored_vector(vector: Seq<Binary32>) -> Option<Seq<u8>> {
    if vector.len() == 0 {
        None
    } else {
        Some(vector_bytes(vector))
    }
}

/// The bytes of a vector: four for each number, the lowest one first.
pub fn embedding_to_blob(vector: &[Binary32]) -> (r: Vec<u8>)
    ensures
        r@ == vector_bytes(vector@),
{
    let mut r: Vec<u8> = Vec::new();
    let mut i: usize = 0;
    while i < vector.len()
        invariant
            i <= vector@.len(),
            r@ =~= vector_bytes(vector@.take(i as int)),
        decreases vector.len() - i,
    {
        let bits: u32 = vector[i].bits;
        r.push((bits % 256) as u8);
        r.push((bits / 256 % 256) as u8);
        r.push((bits / 65_536 % 256) as u8);
        r.push((bits / 16_777_216) as u8);
        i = i + 1;
    }
    assert(vector@.take(i as int) =~= vector@);
    r
}

/// Numbers with the same bytes are the same.
proof fn lemma_bytes_differ(a: u32, b: u32)
    requires
        byte_at(a, 0) == byte_at(b, 0),
        byte_at(a, 1) == byte_at(b, 1),
        byte_at(a, 2) == byte_at(b, 2),
        byte_at(a, 3) == byte_at(b, 3),
    ensures
        a == b,
{
    assert(a == b) by (bit_vector)
        requires
            a % 256 == b % 256,
            a / 256 % 256 == b / 256 % 256,
            a / 65_536 % 256 == b / 65_536 % 256,
            a / 16_777_216 == b / 16_777_216,
    ;
}

/// Different vectors are stored differently.
pub proof fn lemma_stored_vectors_differ(a: Seq<Binary32>, b: Seq<Binary32>)
    requires
        stored_vector(a) == stored_vector(b),
    ensures
        a == b,
{
    if a.len() > 0 {
        let x = vector_bytes(a);
        let y = vector_bytes(b);
        assert(x.len() == 4 * a.len() && y.len() == 4 * b.len());
        assert forall|i: int| 0 <= i < a.len() implies a[i] == b[i] by {
            let p = a[i].bits;
            let q = b[i].bits;
            assert(x[4 * i] == byte_at(p, 0) && y[4 * i] == byte_at(q, 0));
            assert(x[4 * i + 1] == byte_at(p, 1) && y[4 * i + 1] == byte_at(q, 1));
            assert(x[4 * i + 2] == byte_at(p, 2) && y[4 * i + 2] == byte_at(q, 2));
            assert(x[4 * i + 3] == byte_at(p, 3) && y[4 * i + 3] == byte_at(q, 3));
            lemma_bytes_differ(p, q);
        }
        assert(a =~= b);
    } else {
        assert(a =~= b);
    }
}

/// Of a vector that is not empty, four bytes are stored for each number: its bits, the
/// lowest ones first. Of an empty one nothing is stored.
pub proof fn lemma_stored_bytes(vector: Seq<Binary32>, i: int)
    requires
        0 <= i < vector.len(),
    ensures
        stored_vector(vector) matches Some(bytes) && bytes.len() == 4 * vector.len()
            && vector[i].bits == bytes[4 * i] + 256 * bytes[4 * i + 1] + 65_536 * bytes[4 * i + 2]
            + 16_777_216 * bytes[4 * i + 3],
        stored_vector(Seq::empty()) is None,
{
    let bits = vector[i].bits;
    let bytes = vector_bytes(vector);
    assert((4 * i) / 4 == i && (4 * i + 1) / 4 == i && (4 * i + 2) / 4 == i && (4 * i + 3) / 4
        == i);
    assert((4 * i) % 4 == 0 && (4 * i + 1) % 4 == 1 && (4 * i + 2) % 4 == 2 && (4 * i + 3) % 4
        == 3);
    let n = bits as int;
    assert(n == n % 256 + 256 * (n / 256 % 256) + 65_536 * (n / 65_536 % 256) + 16_777_216 * (n
        / 16_777_216));
    assert(0 <= n / 16_777_216 < 256);
}

} // verus!
