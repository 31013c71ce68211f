use embedstore::embeddings::Embeddings;
use embedstore::storage::{DenseStorage, StorageWrap};
use embedstore::subwords::SubwordInfo;
use embedstore::vocab::{SubwordVocab, VocabWrap, WordIndex};

fn w(s: &str) -> Vec<u8> {
    s.as_bytes().to_vec()
}

fn bits(v: &[f32]) -> Vec<u32> {
    v.iter().map(|x| x.to_bits()).collect()
}

const MIN_N: usize = 2;
const MAX_N: usize = 3;
const BUCKETS_EXP: u32 = 4;

/// A subword store: 2 words plus 16 bucket rows, 2 components each,
/// every row holding a distinct pair so that means are visible.
fn subword_store() -> Embeddings {
    let vocab =
        VocabWrap::Subword(SubwordVocab::new(vec![w("hi"), w("yo")], MIN_N, MAX_N, BUCKETS_EXP).unwrap());
    let mut data: Vec<f32> = Vec::new();
    for i in 0..18 {
        data.push(i as f32);
        data.push((i as f32) * 0.5 + 1.0);
    }
    let storage = StorageWrap::Dense(DenseStorage::new(18, 2, bits(&data)).unwrap());
    Embeddings::new(vocab, storage, None, None).unwrap()
}

#[test]
fn subword_decomposition_is_deterministic() {
    let info = SubwordInfo::new(w("greet"));
    let a = info.get_subword_indices(MIN_N, MAX_N, BUCKETS_EXP);
    let b = info.get_subword_indices(MIN_N, MAX_N, BUCKETS_EXP);
    assert_eq!(a, b);
    assert!(!a.is_empty());
    for bucket in a.iter() {
        assert!(*bucket < (1usize << BUCKETS_EXP));
    }
    let pairs = info.get_ngrams_indices(MIN_N, MAX_N, BUCKETS_EXP);
    assert_eq!(pairs.len(), a.len());
    for (j, (ngram, bucket)) in pairs.iter().enumerate() {
        assert_eq!(*bucket, a[j]);
        assert!(ngram.len() >= MIN_N && ngram.len() <= MAX_N);
    }
}

#[test]
fn ngrams_cover_the_bracketed_word() {
    let info = SubwordInfo::new(w("ab"));
    let pairs = info.get_ngrams_indices(2, 4, BUCKETS_EXP);
    let ngrams: Vec<Vec<u8>> = pairs.iter().map(|p| p.0.clone()).collect();
    // Bracketed form is <ab>; lengths 2..=4, shorter lengths first.
    let expected: Vec<Vec<u8>> = vec![
        w("<a"),
        w("ab"),
        w("b>"),
        w("<ab"),
        w("ab>"),
        w("<ab>"),
    ];
    assert_eq!(ngrams, expected);
}

#[test]
fn unknown_words_resolve_to_nonempty_bucket_rows() {
    let e = subword_store();
    match e.vocab.resolve(&w("hello")) {
        Ok(WordIndex::Subword(rows)) => {
            assert!(!rows.is_empty());
            for r in rows.iter() {
                // Bucket rows sit behind the two word rows.
                assert!(*r >= 2 && *r < 18);
            }
        },
        _ => panic!("expected a subword resolution"),
    }
}

#[test]
fn subword_embedding_is_the_mean_of_its_bucket_rows() {
    let e = subword_store();
    let rows = match e.vocab.resolve(&w("hello")).unwrap() {
        WordIndex::Subword(rows) => rows,
        _ => panic!("expected a subword resolution"),
    };
    // The mean the engine promises: components summed in row order with
    // IEEE single-precision arithmetic, then divided by the count.
    let mut sums = [0.0f32; 2];
    for r in rows.iter() {
        let row = e.storage.row(*r).unwrap();
        for j in 0..2 {
            sums[j] += f32::from_bits(row[j]);
        }
    }
    let n = rows.len() as f32;
    let expected = bits(&[sums[0] / n, sums[1] / n]);
    let got = e.embedding(&w("hello")).unwrap();
    assert_eq!(got, expected);
    // Two lookups agree exactly.
    assert_eq!(e.embedding(&w("hello")).unwrap(), got);
}

#[test]
fn known_words_never_blend_subwords() {
    let e = subword_store();
    // "hi" is row 0: exactly [0.0, 1.0].
    assert_eq!(e.embedding(&w("hi")).unwrap(), bits(&[0.0, 1.0]));
    assert_eq!(e.embedding(&w("yo")).unwrap(), bits(&[1.0, 1.5]));
}

#[test]
fn subword_vocabs_answer_ngram_queries() {
    let e = subword_store();
    let rows = e.vocab.subword_indices(&w("hello")).unwrap();
    assert!(!rows.is_empty());
    let pairs = e.vocab.ngram_indices(&w("hello")).unwrap();
    assert_eq!(pairs.len(), rows.len());
    for (j, (_, row)) in pairs.iter().enumerate() {
        assert_eq!(*row, rows[j]);
    }
}

#[test]
fn subword_similarity_accepts_unknown_query_words() {
    let e = subword_store();
    let r = e.word_similarity(&w("hello"), 3).unwrap();
    // Unknown query words exclude no row: both words are candidates.
    assert_eq!(r.len(), 2);
}
