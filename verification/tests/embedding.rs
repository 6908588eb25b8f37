use claw_state::embedding::embedding_to_blob;
use claw_state::embedding::Binary32;
use claw_state::embedding::EmbeddingProvider;
use claw_state::embedding::NoopEmbeddingProvider;

#[test]
fn noop_reports_zero_dimension_and_empty_embedding() {
    let provider = NoopEmbeddingProvider;
    assert_eq!(provider.dimension(), 0);
    assert!(provider.embed("anything").unwrap().is_empty());
}

#[test]
fn a_vector_is_stored_with_the_lowest_bytes_first() {
    let values = [1.5f32, -0.25, 3.0e-12];
    let vector: Vec<Binary32> = values
        .iter()
        .map(|value| Binary32::from_bits(value.to_bits()))
        .collect();
    let mut expected: Vec<u8> = Vec::new();
    for value in values {
        expected.extend_from_slice(&value.to_le_bytes());
    }
    assert_eq!(embedding_to_blob(&vector), expected);
    assert!(embedding_to_blob(&[]).is_empty());
}
