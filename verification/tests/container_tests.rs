use embedstore::container::read_embeddings;
use embedstore::embeddings_wrap::EmbeddingsWrap;
use embedstore::embeddings::Embeddings;
use embedstore::metadata::Metadata;
use embedstore::storage::{DenseStorage, NormCache, QuantizedStorage, StorageWrap};
use embedstore::vocab::{SimpleVocab, SubwordVocab, VocabWrap};
use embedstore::Error;

fn w(s: &str) -> Vec<u8> {
    s.as_bytes().to_vec()
}

fn bits(v: &[f32]) -> Vec<u32> {
    v.iter().map(|x| x.to_bits()).collect()
}

fn dense_store() -> Embeddings {
    let vocab = VocabWrap::Simple(SimpleVocab::new(vec![w("man"), w("king"), w("woman")]).unwrap());
    let data = bits(&[1.0, 0.0, 0.8, 0.6, 0.9, 0.1]);
    let storage = StorageWrap::Dense(DenseStorage::new(3, 2, data).unwrap());
    let norms = Some(NormCache::new(bits(&[1.0, 1.0, 0.90553856])));
    let metadata = Some(Metadata::new(w("name = \"demo\"\n")).unwrap());
    Embeddings::new(vocab, storage, norms, metadata).unwrap()
}

fn subword_quantized_store() -> Embeddings {
    let vocab = VocabWrap::Subword(SubwordVocab::new(vec![w("hi"), w("yo")], 2, 3, 2).unwrap());
    // 2 words + 4 buckets = 6 rows of 2 components.
    let centroids = bits(&[1.0, 2.0, 3.0, 4.0]);
    let codes: Vec<u8> = vec![0, 1, 0, 1, 0, 1];
    let storage =
        StorageWrap::Quantized(QuantizedStorage::new(6, 2, 1, 2, 2, centroids, codes).unwrap());
    Embeddings::new(vocab, storage, None, None).unwrap()
}

#[test]
fn round_trip_preserves_every_embedding_and_the_metadata() {
    let e = dense_store();
    let image = e.write_embeddings();
    let back = read_embeddings(&image).unwrap();
    let inner = back.view().expect("dense storage stays viewable");
    for word in ["man", "king", "woman"] {
        assert_eq!(inner.embedding(&w(word)), e.embedding(&w(word)));
    }
    assert!(inner.embedding(&w("queen")).is_none());
    assert_eq!(
        inner.metadata().unwrap().bytes(),
        e.metadata().unwrap().bytes()
    );
    // Norms carried over: iteration sees them.
    let mut it = inner.iter();
    let first = it.next().unwrap();
    assert_eq!(first.get_norm(), 1.0f32.to_bits());
    // Writing the reread store reproduces the image bit for bit.
    assert_eq!(inner.write_embeddings(), image);
}

#[test]
fn round_trip_preserves_subword_and_quantized_stores() {
    let e = subword_quantized_store();
    let image = e.write_embeddings();
    let back = read_embeddings(&image).unwrap();
    // Quantized storage comes back non-viewable.
    assert!(back.view().is_none());
    assert_eq!(back.embedding(&w("hi")), e.embedding(&w("hi")));
    assert_eq!(back.embedding(&w("hello")), e.embedding(&w("hello")));
    assert!(matches!(
        back.vocab().subword_indices(&w("hello")),
        Ok(rows) if !rows.is_empty()
    ));
}

#[test]
fn wrap_probes_the_storage_capability() {
    let dense = EmbeddingsWrap::new(dense_store());
    assert!(dense.view().is_some());
    assert_eq!(dense.vocab().words_len(), 3);
    assert!(dense.norms().is_some());
    assert_eq!(dense.storage().shape(), (3, 2));
    assert_eq!(dense.embedding(&w("man")), Some(bits(&[1.0, 0.0])));

    let quant = EmbeddingsWrap::new(subword_quantized_store());
    assert!(quant.view().is_none());
    assert!(quant.norms().is_none());
    assert_eq!(quant.storage().shape(), (6, 2));
}

#[test]
fn malformed_images_are_rejected() {
    assert!(matches!(read_embeddings(&Vec::new()), Err(Error::IOError)));
    assert!(matches!(read_embeddings(&w("garbage")), Err(Error::IOError)));
    let mut image = dense_store().write_embeddings();
    // Corrupt the magic number.
    image[0] ^= 0xFF;
    assert!(matches!(read_embeddings(&image), Err(Error::IOError)));
    // Truncations fail too.
    let image = dense_store().write_embeddings();
    for cut in [1usize, 7, image.len() / 2, image.len() - 1] {
        let shorter: Vec<u8> = image[..cut].to_vec();
        assert!(matches!(read_embeddings(&shorter), Err(Error::IOError)));
    }
    // Trailing bytes are rejected.
    let mut longer = image.clone();
    longer.push(0);
    assert!(matches!(read_embeddings(&longer), Err(Error::IOError)));
}

#[test]
fn metadata_validation_runs_on_read() {
    let vocab = VocabWrap::Simple(SimpleVocab::new(vec![w("a")]).unwrap());
    let storage = StorageWrap::Dense(DenseStorage::new(1, 1, bits(&[1.0])).unwrap());
    let e = Embeddings::new(vocab, storage, None, None).unwrap();
    let mut image = e.write_embeddings();
    // Rewrite the metadata section by hand: flag 1, length 3, "==x".
    let flag_at = image.len() - 4;
    image.truncate(flag_at);
    image.extend_from_slice(&1u32.to_le_bytes());
    image.extend_from_slice(&3u64.to_le_bytes());
    image.extend_from_slice(b"==x");
    assert!(matches!(read_embeddings(&image), Err(Error::InvalidMetadata)));
}

#[test]
fn toml_documents_are_validated() {
    assert!(Metadata::new(w("a = 1\nb = \"two\"\n")).is_ok());
    assert!(Metadata::new(w("[table]\nkey = [1, 2, 3]\n")).is_ok());
    assert!(Metadata::new(w("= nonsense")).is_err());
    assert!(Metadata::new(vec![0xFF, 0xFE, 0x00]).is_err());
}
