//! Embeddings and the index over them.

use loopctl::error::LoopError;
use loopctl::memory::vector::{
    are_comparable, cosine_similarity, hold, tally_hashes, Embedding, HashingEmbedder,
    LinearVectorIndex, VectorArithmetic, COUNT_LIMIT,
};
use loopctl::hashing::hash_text;
use loopctl::single::Single;
use std::collections::hash_map::DefaultHasher;
use std::hash::{Hash, Hasher};

struct Host;

fn single(x: f32) -> Single {
    Single::from_bits(x.to_bits())
}

fn number(x: Single) -> f32 {
    f32::from_bits(x.bits)
}

impl VectorArithmetic for Host {
    fn cosine(&self, a: &[Single], b: &[Single]) -> Single {
        let largest = |v: &[Single]| v.iter().fold(0.0_f32, |m, x| m.max(number(*x).abs()));
        let (scale_a, scale_b) = (largest(a), largest(b));
        let (mut dot, mut norm_a, mut norm_b) = (0.0_f32, 0.0_f32, 0.0_f32);
        for (x, y) in a.iter().zip(b) {
            let (x, y) = (number(*x) / scale_a, number(*y) / scale_b);
            dot += x * y;
            norm_a += x * x;
            norm_b += y * y;
        }
        single(dot / (norm_a * norm_b).sqrt())
    }

    fn unit_component(&self, counts: &[i32], place: usize) -> Single {
        let norm = counts.iter().map(|c| (*c as f32) * (*c as f32)).sum::<f32>().sqrt();
        single(counts[place] as f32 / norm)
    }
}

fn vector(components: &[f32]) -> Embedding {
    Embedding::new(components.iter().map(|x| single(*x)).collect())
}

fn cosine(a: &[f32], b: &[f32]) -> f32 {
    number(cosine_similarity(&Host, vector(a).as_slice(), vector(b).as_slice()))
}

#[test]
fn an_embedding_keeps_its_components() {
    let embedding = vector(&[0.5, 0.25]);
    assert_eq!(embedding.dim(), 2);
    assert_eq!(embedding.as_slice(), &[single(0.5), single(0.25)]);
    let copy = Embedding::from_slice(embedding.as_slice());
    assert_eq!(copy.as_slice(), embedding.as_slice());
    assert_eq!(embedding.clone().dim(), 2);
}

#[test]
fn parallel_vectors_are_similar_and_bad_ones_are_not() {
    assert!((cosine(&[3.0, 0.0], &[1.0, 0.0]) - 1.0).abs() < 1e-6);
    assert!((cosine(&[1.0, 0.0], &[-2.0, 0.0]) + 1.0).abs() < 1e-6);
    assert_eq!(cosine(&[f32::NAN, 1.0], &[1.0, 0.5]), 0.0);
    assert_eq!(cosine(&[f32::INFINITY, 1.0], &[1.0, 0.5]), 0.0);
    assert_eq!(cosine(&[0.0, 0.0], &[1.0, 0.5]), 0.0);
    assert_eq!(cosine(&[1.0, 0.5], &[-0.0, 0.0]), 0.0);
    assert!((cosine(&[1e38, 0.0], &[1e-38, 0.0]) - 1.0).abs() < 1e-6);
    assert_eq!(cosine(&[], &[]), 0.0);
    assert_eq!(cosine(&[1.0], &[1.0, 2.0]), 0.0);
    assert_eq!(cosine(&[0.0, -0.0], &[0.0, 0.0]), 0.0);
    assert!((cosine(&[1e30, 1e30], &[1e30, 1e30]) - 1.0).abs() < 1e-6);
}

#[test]
fn what_can_be_compared() {
    let finite = vector(&[1.0]);
    let zero = vector(&[0.0]);
    let nan = vector(&[f32::NAN]);
    assert!(are_comparable(finite.as_slice(), zero.as_slice()));
    assert!(!are_comparable(zero.as_slice(), zero.as_slice()));
    assert!(!are_comparable(finite.as_slice(), nan.as_slice()));
    assert_eq!(number(hold(single(1.5))), 1.0);
    assert_eq!(number(hold(single(-1.5))), -1.0);
    assert_eq!(number(hold(single(0.25))), 0.25);
}

#[test]
fn the_index_answers_by_score_and_then_by_id() {
    let mut index = LinearVectorIndex::new(2);
    assert_eq!(index.dim(), 2);
    assert!(index.is_empty());
    index.add(9, vector(&[1.0, 0.0])).unwrap();
    index.add(3, vector(&[1.0, 0.0])).unwrap();
    index.add(5, vector(&[0.0, 1.0])).unwrap();
    assert_eq!(index.len(), 3);
    let found = index.search(&Host, &vector(&[2.0, 0.0]), 5).unwrap();
    let ids: Vec<u128> = found.iter().map(|m| m.id).collect();
    assert_eq!(ids, vec![3, 9, 5]);
    assert!((number(found[0].score) - 1.0).abs() < 1e-6);
    let best = index.search(&Host, &vector(&[2.0, 0.0]), 1).unwrap();
    assert_eq!(best.len(), 1);
    assert!(index.search(&Host, &vector(&[2.0, 0.0]), 0).unwrap().is_empty());
}

#[test]
fn adding_twice_replaces_and_removing_is_final() {
    let mut index = LinearVectorIndex::new(1);
    index.add(1, vector(&[1.0])).unwrap();
    index.add(1, vector(&[-1.0])).unwrap();
    assert_eq!(index.len(), 1);
    let found = index.search(&Host, &vector(&[1.0]), 1).unwrap();
    assert_eq!(number(found[0].score), -1.0);
    index.remove(1);
    index.remove(1);
    assert!(index.is_empty());
}

#[test]
fn vectors_of_another_length_are_refused() {
    let mut index = LinearVectorIndex::new(3);
    match index.add(1, vector(&[1.0])) {
        Err(LoopError::Memory(m)) => {
            assert_eq!(m, "vector dimension mismatch: index is 3, got 1")
        }
        other => panic!("unexpected {other:?}"),
    }
    match index.search(&Host, &vector(&[1.0, 2.0]), 1) {
        Err(LoopError::Memory(m)) => {
            assert_eq!(m, "query dimension mismatch: index is 3, got 2")
        }
        other => panic!("unexpected {other:?}"),
    }
    assert!(index.is_empty());
}

#[test]
fn best_matches_go_by_the_scores_given() {
    let mut index = LinearVectorIndex::new(1);
    for id in [4, 2, 8] {
        index.add(id, vector(&[1.0])).unwrap();
    }
    let scores = vec![single(0.1), single(0.7), single(0.7)];
    let ids: Vec<u128> = index.best_matches(&scores, 2).iter().map(|m| m.id).collect();
    assert_eq!(ids, vec![2, 8]);
}

#[test]
fn words_are_counted_into_buckets_by_their_hashes() {
    let hashes = vec![5, 5, 0x8000_0000_0000_0000 + 1, 7];
    let counts = tally_hashes(&hashes, 4);
    let mut expected = vec![0_i32; 4];
    for hash in &hashes {
        let bucket = (hash % 4) as usize;
        expected[bucket] += if *hash >= 0x8000_0000_0000_0000 { -1 } else { 1 };
    }
    assert_eq!(counts, expected);
    assert!(tally_hashes(&hashes, 0).is_empty());
    assert_eq!(COUNT_LIMIT as f32 + 1.0, COUNT_LIMIT as f32);
}

#[test]
fn a_text_has_a_unit_vector_and_no_text_has_none() {
    let embedder = HashingEmbedder::new(64);
    assert_eq!(embedder.dim(), 64);
    let embedding = embedder.embed_sync(&Host, "the quick brown fox");
    assert_eq!(embedding.dim(), 64);
    let norm: f32 = embedding.as_slice().iter().map(|x| number(*x) * number(*x)).sum();
    assert!((norm - 1.0).abs() < 1e-5);
    let again = embedder.embed_sync(&Host, " the  quick\nbrown fox ");
    assert_eq!(again.as_slice(), embedding.as_slice(), "space does not matter");
    let empty = embedder.embed_sync(&Host, "   ");
    assert!(empty.as_slice().iter().all(|x| number(*x) == 0.0));
    assert_eq!(HashingEmbedder::new(0).embed_sync(&Host, "words").dim(), 0);
}

#[test]
fn a_hash_is_that_of_the_standard_library() {
    let mut hasher = DefaultHasher::new();
    "token".hash(&mut hasher);
    assert_eq!(hash_text("token"), hasher.finish());
    assert_ne!(hash_text("token"), hash_text("tokens"));
}
