use embedstore::embeddings::Embeddings;
use embedstore::scalar::score_beats;
use embedstore::vecmath::{dot as vector_dot, mean_rows, norm, vec_add, vec_sub};
use embedstore::storage::{DenseStorage, NormCache, QuantizedStorage, StorageWrap};
use embedstore::vocab::{SimpleVocab, VocabWrap};
use embedstore::Error;

fn w(s: &str) -> Vec<u8> {
    s.as_bytes().to_vec()
}

fn bits(v: &[f32]) -> Vec<u32> {
    v.iter().map(|x| x.to_bits()).collect()
}

const WORDS: [&str; 5] = ["man", "king", "woman", "dog", "cat"];

const ROWS: [[f32; 3]; 5] = [
    [1.0, 0.0, 0.0],
    [0.8, 0.6, 0.0],
    [0.9, 0.1, 0.2],
    [0.0, 1.0, 0.0],
    [0.0, 0.9, 0.4],
];

fn l2(v: &[f32]) -> f32 {
    v.iter().map(|x| x * x).sum::<f32>().sqrt()
}

fn dot(a: &[f32], b: &[f32]) -> f32 {
    let mut acc = 0.0f32;
    for i in 0..a.len() {
        acc += a[i] * b[i];
    }
    acc
}

fn ranked_store() -> Embeddings {
    let vocab = VocabWrap::Simple(SimpleVocab::new(WORDS.iter().map(|s| w(s)).collect()).unwrap());
    let mut data: Vec<u32> = Vec::new();
    for row in ROWS.iter() {
        data.extend(bits(row));
    }
    let storage = StorageWrap::Dense(DenseStorage::new(5, 3, data).unwrap());
    let norms = Some(NormCache::new(ROWS.iter().map(|r| l2(r).to_bits()).collect()));
    Embeddings::new(vocab, storage, norms, None).unwrap()
}

fn quantized_store() -> Embeddings {
    let vocab = VocabWrap::Simple(SimpleVocab::new(WORDS.iter().map(|s| w(s)).collect()).unwrap());
    let centroids = bits(&[1.0, 2.0, 3.0, 4.0]);
    let codes: Vec<u8> = vec![0, 1, 0, 1, 0];
    let storage =
        StorageWrap::Quantized(QuantizedStorage::new(5, 2, 1, 2, 2, centroids, codes).unwrap());
    Embeddings::new(vocab, storage, None, None).unwrap()
}

/// The cosine score the engine computes for a known query word against
/// row `i`, with all norms taken from the cache.
fn expected_score(query: usize, i: usize) -> f32 {
    dot(&ROWS[query], &ROWS[i]) / (l2(&ROWS[query]) * l2(&ROWS[i]))
}

#[test]
fn word_similarity_never_returns_the_query_word() {
    let e = ranked_store();
    for word in WORDS.iter() {
        let r = e.word_similarity(&w(word), 5).unwrap();
        assert_eq!(r.len(), 4);
        for ws in r.iter() {
            assert_ne!(ws.get_word(), &w(word));
        }
    }
}

#[test]
fn word_similarity_is_sorted_and_exact() {
    let e = ranked_store();
    let r = e.word_similarity(&w("man"), 10).unwrap();
    assert_eq!(r.len(), 4);
    // Scores descend down the list.
    for j in 1..r.len() {
        let prev = f32::from_bits(r[j - 1].get_similarity());
        let cur = f32::from_bits(r[j].get_similarity());
        assert!(prev >= cur);
    }
    // Each similarity is the exact cosine of the query against that row.
    for ws in r.iter() {
        let i = WORDS.iter().position(|x| w(x) == *ws.get_word()).unwrap();
        assert_eq!(ws.get_similarity(), expected_score(0, i).to_bits());
    }
    // "woman" is the closest row to "man" under these vectors.
    assert_eq!(r[0].get_word(), &w("woman"));
}

#[test]
fn word_similarity_respects_k() {
    let e = ranked_store();
    assert_eq!(e.word_similarity(&w("man"), 0).unwrap().len(), 0);
    assert_eq!(e.word_similarity(&w("man"), 2).unwrap().len(), 2);
    assert_eq!(e.word_similarity(&w("man"), 100).unwrap().len(), 4);
}

#[test]
fn word_similarity_fails_on_unknown_words() {
    let e = ranked_store();
    match e.word_similarity(&w("queen"), 3) {
        Err(Error::UnknownWord { words }) => assert_eq!(words, vec![w("queen")]),
        _ => panic!("expected an unknown-word failure"),
    }
}

#[test]
fn ranking_is_unsupported_on_quantized_storage() {
    let e = quantized_store();
    assert!(matches!(e.word_similarity(&w("man"), 3), Err(Error::UnsupportedOperation)));
    assert!(matches!(
        e.embedding_similarity(&bits(&[1.0, 0.0]), 3, &Vec::new()),
        Err(Error::UnsupportedOperation)
    ));
    assert!(matches!(
        e.analogy(&w("man"), &w("king"), &w("woman"), 1, (true, true, true)),
        Err(Error::UnsupportedOperation)
    ));
}

#[test]
fn embedding_similarity_skips_the_skip_set() {
    let e = ranked_store();
    // A query aligned with "dog"'s vector would rank "dog" first.
    let q = bits(&[0.0, 1.0, 0.0]);
    let r = e.embedding_similarity(&q, 5, &Vec::new()).unwrap();
    assert_eq!(r[0].get_word(), &w("dog"));
    let skip = vec![w("dog")];
    let r = e.embedding_similarity(&q, 5, &skip).unwrap();
    assert_eq!(r.len(), 4);
    for ws in r.iter() {
        assert_ne!(ws.get_word(), &w("dog"));
    }
}

#[test]
fn embedding_similarity_rejects_wrong_dimensionality() {
    let e = ranked_store();
    let q = bits(&[1.0, 0.0]);
    assert!(matches!(e.embedding_similarity(&q, 3, &Vec::new()), Err(Error::InvalidShape)));
}

#[test]
fn analogy_excludes_the_masked_query_words() {
    let e = ranked_store();
    let r = e.analogy(&w("man"), &w("king"), &w("woman"), 1, (true, true, true)).unwrap();
    assert_eq!(r.len(), 1);
    for ws in r.iter() {
        assert_ne!(ws.get_word(), &w("man"));
        assert_ne!(ws.get_word(), &w("king"));
        assert_ne!(ws.get_word(), &w("woman"));
    }
    // With nothing masked the top three rows may include the query words.
    let r = e.analogy(&w("man"), &w("king"), &w("woman"), 5, (false, false, false)).unwrap();
    assert_eq!(r.len(), 5);
}

#[test]
fn analogy_names_every_unresolvable_word() {
    let e = ranked_store();
    match e.analogy(&w("man"), &w("queen"), &w("emperor"), 1, (true, true, true)) {
        Err(Error::UnknownWord { words }) => {
            assert_eq!(words, vec![w("queen"), w("emperor")]);
        },
        _ => panic!("expected an unknown-word failure"),
    }
}

#[test]
fn scalar_arithmetic_matches_ieee() {
    // A one-component dot product runs one multiplication and one
    // addition onto 0.0.
    let a = 1.5f32;
    let b = 0.3f32;
    let d = vector_dot(&vec![a.to_bits()], &vec![b.to_bits()]);
    assert_eq!(d, (0.0f32 + a * b).to_bits());
    // A mean of three one-component rows sums them in order and divides
    // by a count converted to 3.0.
    let rows = vec![vec![1.5f32.to_bits()], vec![2.5f32.to_bits()], vec![0.25f32.to_bits()]];
    let m = mean_rows(&rows, 1);
    assert_eq!(m, vec![(((0.0f32 + 1.5) + 2.5 + 0.25) / 3.0).to_bits()]);
    // The square-root iteration is exact on 1.0, so a unit vector has
    // norm exactly 1.0.
    assert_eq!(norm(&vec![1.0f32.to_bits()]), 1.0f32.to_bits());
}

#[test]
fn vector_arithmetic_matches_ieee() {
    let a = [1.5f32, -2.25, 0.875];
    let b = [0.5f32, 4.0, -1.25];
    let d = vector_dot(&bits(&a), &bits(&b));
    assert_eq!(d, dot(&a, &b).to_bits());
    let s = vec_add(&bits(&a), &bits(&b));
    assert_eq!(s, bits(&[a[0] + b[0], a[1] + b[1], a[2] + b[2]]));
    let s = vec_sub(&bits(&a), &bits(&b));
    assert_eq!(s, bits(&[a[0] - b[0], a[1] - b[1], a[2] - b[2]]));
}

#[test]
fn score_order_matches_float_order() {
    // Higher scores beat lower ones.
    assert!(score_beats(0.9f32.to_bits(), 3, 0.1f32.to_bits(), 0));
    assert!(!score_beats(0.1f32.to_bits(), 0, 0.9f32.to_bits(), 3));
    // Negative scores lose to positive ones.
    assert!(score_beats(0.1f32.to_bits(), 3, (-0.5f32).to_bits(), 0));
    assert!(score_beats((-0.1f32).to_bits(), 3, (-0.5f32).to_bits(), 0));
    // Equal scores fall back to the smaller row index.
    assert!(score_beats(0.5f32.to_bits(), 1, 0.5f32.to_bits(), 2));
    assert!(!score_beats(0.5f32.to_bits(), 2, 0.5f32.to_bits(), 1));
}
