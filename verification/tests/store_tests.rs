use embedstore::embeddings::{Embeddings, EmbeddingDefault};
use embedstore::storage::{DenseStorage, NormCache, QuantizedStorage, StorageWrap};
use embedstore::vocab::{SimpleVocab, SubwordVocab, VocabWrap, WordIndex};
use embedstore::Error;

fn w(s: &str) -> Vec<u8> {
    s.as_bytes().to_vec()
}

fn bits(v: &[f32]) -> Vec<u32> {
    v.iter().map(|x| x.to_bits()).collect()
}

fn floats(v: &[u32]) -> Vec<f32> {
    v.iter().map(|x| f32::from_bits(*x)).collect()
}

const WORDS: [&str; 5] = ["man", "king", "woman", "dog", "cat"];

const ROWS: [[f32; 3]; 5] = [
    [1.0, 0.0, 0.0],
    [0.8, 0.6, 0.0],
    [0.9, 0.1, 0.2],
    [0.0, 1.0, 0.0],
    [0.0, 0.9, 0.4],
];

fn l2(v: &[f32]) -> f32 {
    v.iter().map(|x| x * x).sum::<f32>().sqrt()
}

fn dense_store(with_norms: bool) -> Embeddings {
    let vocab = VocabWrap::Simple(SimpleVocab::new(WORDS.iter().map(|s| w(s)).collect()).unwrap());
    let mut data: Vec<u32> = Vec::new();
    for row in ROWS.iter() {
        data.extend(bits(row));
    }
    let storage = StorageWrap::Dense(DenseStorage::new(5, 3, data).unwrap());
    let norms = if with_norms {
        Some(NormCache::new(ROWS.iter().map(|r| l2(r).to_bits()).collect()))
    } else {
        None
    };
    Embeddings::new(vocab, storage, norms, None).unwrap()
}

fn quantized_store() -> Embeddings {
    let vocab = VocabWrap::Simple(SimpleVocab::new(WORDS.iter().map(|s| w(s)).collect()).unwrap());
    // Two segments of two components; codebook of two centroids per segment.
    let centroids = bits(&[1.0, 2.0, 3.0, 4.0, 5.0, 6.0, 7.0, 8.0]);
    let codes: Vec<u8> = vec![0, 0, 0, 1, 1, 0, 1, 1, 0, 1];
    let storage =
        StorageWrap::Quantized(QuantizedStorage::new(5, 4, 2, 2, 2, centroids, codes).unwrap());
    Embeddings::new(vocab, storage, None, None).unwrap()
}

#[test]
fn embedding_of_known_word_is_its_row() {
    let e = dense_store(true);
    for (i, word) in WORDS.iter().enumerate() {
        let v = e.embedding(&w(word)).unwrap();
        assert_eq!(v, bits(&ROWS[i]));
    }
}

#[test]
fn embedding_of_unknown_word_in_simple_vocab_is_missing() {
    let e = dense_store(true);
    assert!(e.embedding(&w("queen")).is_none());
}

#[test]
fn get_reports_the_unknown_word() {
    let e = dense_store(true);
    match e.get(&w("queen")) {
        Err(Error::UnknownWord { words }) => assert_eq!(words, vec![w("queen")]),
        other => panic!("expected an unknown-word failure, got {:?}", other),
    }
    assert_eq!(e.get(&w("man")).unwrap(), bits(&ROWS[0]));
}

#[test]
fn embedding_with_norm_uses_the_cache_for_known_words() {
    let e = dense_store(true);
    let (v, n) = e.embedding_with_norm(&w("king")).unwrap();
    assert_eq!(v, bits(&ROWS[1]));
    assert_eq!(n, l2(&ROWS[1]).to_bits());
}

#[test]
fn embedding_with_norm_falls_back_to_one_without_a_cache() {
    let e = dense_store(false);
    let (_, n) = e.embedding_with_norm(&w("king")).unwrap();
    assert_eq!(n, 1.0f32.to_bits());
}

#[test]
fn embedding_with_default_substitutes() {
    let e = dense_store(true);
    let absent = EmbeddingDefault::Absent;
    assert!(e.embedding_with_default(&w("queen"), &absent).unwrap().is_none());
    let constant = EmbeddingDefault::Constant(2.5f32.to_bits());
    let v = e.embedding_with_default(&w("queen"), &constant).unwrap().unwrap();
    assert_eq!(floats(&v), vec![2.5, 2.5, 2.5]);
    let supplied = EmbeddingDefault::Embedding(bits(&[1.0, 2.0, 3.0]));
    let v = e.embedding_with_default(&w("queen"), &supplied).unwrap().unwrap();
    assert_eq!(floats(&v), vec![1.0, 2.0, 3.0]);
    // A known word wins over any default.
    let v = e.embedding_with_default(&w("man"), &supplied).unwrap().unwrap();
    assert_eq!(v, bits(&ROWS[0]));
}

#[test]
fn embedding_with_default_rejects_wrong_dimensionality() {
    let e = dense_store(true);
    let supplied = EmbeddingDefault::Embedding(bits(&[1.0, 2.0]));
    assert_eq!(e.embedding_with_default(&w("queen"), &supplied), Err(Error::InvalidShape));
}

#[test]
fn quantized_rows_are_reconstructed_from_centroids() {
    let e = quantized_store();
    // codes [0, 0] -> centroid 0 of each segment.
    assert_eq!(floats(&e.embedding(&w("man")).unwrap()), vec![1.0, 2.0, 5.0, 6.0]);
    // codes [0, 1] -> first centroid, then second centroid of segment 2.
    assert_eq!(floats(&e.embedding(&w("king")).unwrap()), vec![1.0, 2.0, 7.0, 8.0]);
    // codes [1, 1]
    assert_eq!(floats(&e.embedding(&w("dog")).unwrap()), vec![3.0, 4.0, 7.0, 8.0]);
}

#[test]
fn storage_access_is_bounds_checked() {
    let e = dense_store(true);
    assert_eq!(e.storage.row(2).unwrap(), bits(&ROWS[2]));
    assert_eq!(e.storage.row(5), Err(Error::IndexOutOfRange));
    let m = e.storage.matrix_copy();
    assert_eq!(m.len(), 5);
    assert_eq!(m[4], bits(&ROWS[4]));
}

#[test]
fn vocab_lookup_and_positions() {
    let e = dense_store(true);
    assert!(e.vocab.contains_exact(&w("cat")));
    assert!(!e.vocab.contains_exact(&w("queen")));
    assert_eq!(e.vocab.words_len(), 5);
    assert_eq!(e.vocab.word(1).unwrap(), &w("king"));
    assert_eq!(e.vocab.word(9), Err(Error::IndexOutOfRange));
    assert_eq!(e.vocab.abs_index(3), Ok(3));
    assert_eq!(e.vocab.abs_index(-1), Ok(4));
    assert_eq!(e.vocab.abs_index(-5), Ok(0));
    assert_eq!(e.vocab.abs_index(-6), Err(Error::IndexOutOfRange));
    assert_eq!(e.vocab.abs_index(5), Err(Error::IndexOutOfRange));
    match e.vocab.resolve(&w("woman")) {
        Ok(WordIndex::Word(i)) => assert_eq!(i, 2),
        other => panic!("expected an exact row, got {:?}", matches!(other, Ok(_))),
    }
    match e.vocab.resolve(&w("queen")) {
        Err(Error::UnknownWord { words }) => assert_eq!(words, vec![w("queen")]),
        _ => panic!("expected an unknown-word failure"),
    }
}

#[test]
fn subword_queries_are_unsupported_on_simple_vocabs() {
    let e = dense_store(true);
    assert!(matches!(e.vocab.subword_indices(&w("man")), Err(Error::UnsupportedOperation)));
    assert!(matches!(e.vocab.ngram_indices(&w("man")), Err(Error::UnsupportedOperation)));
}

#[test]
fn duplicate_words_are_rejected() {
    let words = vec![w("man"), w("king"), w("man")];
    assert!(SimpleVocab::new(words).is_err());
    assert!(SubwordVocab::new(vec![w("a"), w("a")], 1, 3, 4).is_err());
}

#[test]
fn store_shapes_are_validated() {
    let vocab = VocabWrap::Simple(SimpleVocab::new(vec![w("a"), w("b")]).unwrap());
    let storage = StorageWrap::Dense(DenseStorage::new(3, 2, bits(&[0.0; 6])).unwrap());
    // Three rows cannot cover a two-word vocabulary.
    assert!(matches!(
        Embeddings::new(vocab, storage, None, None),
        Err(Error::InvalidShape)
    ));
    assert!(DenseStorage::new(2, 2, bits(&[0.0; 5])).is_err());
    let vocab = VocabWrap::Simple(SimpleVocab::new(vec![w("a"), w("b")]).unwrap());
    let storage = StorageWrap::Dense(DenseStorage::new(2, 2, bits(&[0.0; 4])).unwrap());
    let bad_norms = Some(NormCache::new(bits(&[1.0, 1.0, 1.0])));
    assert!(matches!(
        Embeddings::new(vocab, storage, bad_norms, None),
        Err(Error::InvalidShape)
    ));
}

#[test]
fn iteration_yields_words_rows_and_norms_in_order() {
    let e = dense_store(true);
    let mut it = e.iter();
    let mut seen = 0usize;
    while let Some(item) = it.next() {
        assert_eq!(item.get_word(), &w(WORDS[seen]));
        assert_eq!(item.get_embedding(), &bits(&ROWS[seen]));
        assert_eq!(item.get_norm(), l2(&ROWS[seen]).to_bits());
        seen += 1;
    }
    assert_eq!(seen, 5);
}

#[test]
fn two_cursors_yield_the_same_sequence() {
    let e = dense_store(true);
    let mut first = Vec::new();
    let mut it = e.iter();
    while let Some(item) = it.next() {
        first.push((item.word.clone(), item.embedding.clone(), item.norm));
    }
    let mut second = Vec::new();
    let mut it2 = e.iter();
    while let Some(item) = it2.next() {
        second.push((item.word.clone(), item.embedding.clone(), item.norm));
    }
    assert_eq!(first, second);
    assert_eq!(first.len(), 5);

    let mut words1 = Vec::new();
    let mut vit = e.vocab_iter();
    while let Some(word) = vit.next() {
        words1.push(word);
    }
    assert_eq!(words1, WORDS.iter().map(|s| w(s)).collect::<Vec<_>>());
}

#[test]
fn metadata_replacement_validates_the_document() {
    let mut e = dense_store(true);
    assert!(e.metadata().is_none());
    assert_eq!(e.set_metadata(w("not = = valid")), Err(Error::InvalidMetadata));
    assert!(e.metadata().is_none());
    e.set_metadata(w("name = \"demo\"\ncount = 3\n")).unwrap();
    assert_eq!(e.metadata().unwrap().bytes(), &w("name = \"demo\"\ncount = 3\n"));
    // Replacement is wholesale.
    e.set_metadata(w("other = 1\n")).unwrap();
    assert_eq!(e.metadata().unwrap().bytes(), &w("other = 1\n"));
}
