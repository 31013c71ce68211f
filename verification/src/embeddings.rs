//! The embedding store: vocabulary, storage, norms and metadata in one
//! value, with word lookup, subword composition and iteration.

use vstd::prelude::*;

use crate::metadata::toml_ok;
use crate::metadata::Metadata;
use crate::scalar::ONE_BITS;
use crate::storage::NormCache;
use crate::storage::StorageWrap;
use crate::subwords::lemma_buckets_nonempty;
use crate::vecmath::mean_of;
use crate::vecmath::mean_rows;
use crate::vecmath::norm;
use crate::vecmath::norm_of;
use crate::vecmath::rows_view;
use crate::vocab::contains_word;
use crate::vocab::copy_bytes;
use crate::vocab::word_index_of;
use crate::vocab::VocabWrap;
use crate::vocab::WordIndex;
use crate::Error;

verus! {

/// What `embedding_with_default` substitutes when a word has no
/// representation.
pub enum EmbeddingDefault {
    /// No substitute: the lookup reports nothing.
    Absent,
    /// A vector filled with one constant component.
    Constant(u32),
    /// A caller-supplied vector of matching dimensionality.
    Embedding(Vec<u32>),
}

impl Default for EmbeddingDefault {
    /// The default is to substitute nothing.
    fn default() -> (r: EmbeddingDefault)
        ensures
            r is Absent,
    {
        EmbeddingDefault::Absent
    }
}

/// A complete embedding store.
pub struct Embeddings {
    /// The vocabulary.
    pub vocab: VocabWrap,
    /// The matrix; its rows cover every index the vocabulary can produce.
    pub storage: StorageWrap,
    /// Optional cached norms, one per word row.
    pub norms: Option<NormCache>,
    /// Optional metadata document.
    pub metadata: Option<Metadata>,
}

impl Embeddings {
    /// Well-formedness: the parts are well-formed, the matrix covers the
    /// vocabulary's index range, and the norm cache (when present) is
    /// aligned with the word rows.
    pub open spec fn wf(&self) -> bool {
        &&& self.vocab.wf()
        &&& self.storage.wf()
        &&& self.storage.spec_rows() == self.vocab.spec_n_rows()
        &&& self.storage.spec_dims() >= 1
        &&& (match self.norms {
            Some(n) => n.norms@.len() == self.vocab.spec_words().len(),
            None => true,
        })
        &&& (match self.metadata {
            Some(m) => m.wf(),
            None => true,
        })
    }

    /// The word list.
    pub open spec fn spec_words(&self) -> Seq<Seq<u8>> {
        self.vocab.spec_words()
    }

    /// The embedding of a word: the stored row for a known word, the
    /// mean of the subword bucket rows for an unknown word of a subword
    /// vocabulary, nothing otherwise.
    pub open spec fn embedding_of(&self, w: Seq<u8>) -> Option<Seq<u32>> {
        let ws = self.vocab.spec_words();
        if contains_word(ws, w) {
            Some(self.storage.row_of(word_index_of(ws, w)))
        } else {
            match self.vocab {
                VocabWrap::Subword(v) => {
                    let rows = v.subword_rows_of(w);
                    if 0 < rows.len() <= u32::MAX {
                        Some(
                            mean_of(
                                rows.map_values(|r: int| self.storage.row_of(r)),
                                self.storage.spec_dims(),
                            ),
                        )
                    } else {
                        None
                    }
                },
                VocabWrap::Simple(_) => None,
            }
        }
    }

    /// The norm reported beside an embedding: the cached norm of the row
    /// of a known word (1.0 when no cache is present), and the norm
    /// computed from the composed vector for a subword composition.
    pub open spec fn embedding_norm_of(&self, w: Seq<u8>) -> u32 {
        let ws = self.vocab.spec_words();
        if contains_word(ws, w) {
            self.iter_norm_of(word_index_of(ws, w))
        } else {
            match self.embedding_of(w) {
                Some(v) => norm_of(v),
                None => ONE_BITS,
            }
        }
    }

    /// The norm that iteration reports for word row `i`: the cached norm,
    /// or 1.0 without a cache.
    pub open spec fn iter_norm_of(&self, i: int) -> u32 {
        match self.norms {
            Some(n) => n.norms@[i],
            None => ONE_BITS,
        }
    }

    /// Assembles a store, checking that the matrix covers the
    /// vocabulary's index range and that the norm cache is aligned.
    pub fn new(
        vocab: VocabWrap,
        storage: StorageWrap,
        norms: Option<NormCache>,
        metadata: Option<Metadata>,
    ) -> (r: Result<Embeddings, Error>)
        requires
            vocab.wf(),
            storage.wf(),
            (match metadata {
                Some(m) => m.wf(),
                None => true,
            }),
        ensures
            match r {
                Ok(e) => {
                    &&& e.wf()
                    &&& e.vocab == vocab
                    &&& e.storage == storage
                    &&& e.norms == norms
                    &&& e.metadata == metadata
                },
                Err(err) => {
                    &&& err == Error::InvalidShape
                    &&& (storage.spec_rows() != vocab.spec_n_rows() || storage.spec_dims() < 1
                        || (match norms {
                        Some(n) => n.norms@.len() != vocab.spec_words().len(),
                        None => false,
                    }))
                },
            },
    {
        let (rows, dims) = storage.shape();
        if rows != vocab.n_rows() || dims < 1 {
            return Err(Error::InvalidShape);
        }
        let norms_ok = match &norms {
            Some(n) => n.len() == vocab.words_len(),
            None => true,
        };
        if !norms_ok {
            return Err(Error::InvalidShape);
        }
        Ok(Embeddings { vocab, storage, norms, metadata })
    }

    /// Looks a word up: the stored row for a known word, the mean of its
    /// subword bucket rows for an unknown word of a subword vocabulary.
    pub fn embedding(&self, w: &Vec<u8>) -> (r: Option<Vec<u32>>)
        requires
            self.wf(),
        ensures
            match r {
                Some(v) => self.embedding_of(w@) == Some(v@) && v@.len()
                    == self.storage.spec_dims(),
                None => self.embedding_of(w@) is None,
            },
            (match self.vocab {
                VocabWrap::Subword(v) => (v.min_n <= w@.len() + 2 && v.subword_rows_of(w@).len()
                    <= u32::MAX) ==> r is Some,
                VocabWrap::Simple(_) => true,
            }),
    {
        let ghost ws = self.vocab.spec_words();
        match self.vocab.get(w) {
            Some(WordIndex::Word(i)) => {
                proof {
                    self.storage.lemma_row_len(i as int);
                }
                Some(self.storage.row_copy(i))
            },
            Some(WordIndex::Subword(rows_idx)) => {
                if rows_idx.len() > (u32::MAX as usize) {
                    proof {
                        assert(match self.vocab {
                            VocabWrap::Subword(v) => v.subword_rows_of(w@).len() > u32::MAX,
                            VocabWrap::Simple(_) => false,
                        });
                    }
                    return None;
                }
                let ghost spec_rows = (match &self.vocab {
                    VocabWrap::Subword(v) => v.subword_rows_of(w@),
                    VocabWrap::Simple(_) => Seq::empty(),
                });
                let (_, dims) = self.storage.shape();
                proof {
                    assert forall|j: int| 0 <= j < spec_rows.len() implies 0 <= #[trigger] spec_rows[j]
                        < self.storage.spec_rows() by {
                        match &self.vocab {
                            VocabWrap::Subword(v) => {
                                crate::subwords::lemma_bucket_in_range(
                                    crate::subwords::ngrams_of(
                                        w@,
                                        v.min_n as int,
                                        v.max_n as int,
                                    )[j],
                                    v.buckets_exp,
                                );
                            },
                            VocabWrap::Simple(_) => {},
                        }
                    }
                }
                let mut gathered: Vec<Vec<u32>> = Vec::new();
                let mut t: usize = 0;
                while t < rows_idx.len()
                    invariant
                        self.wf(),
                        t <= rows_idx@.len(),
                        rows_idx@.map_values(|x: usize| x as int) == spec_rows,
                        forall|j: int|
                            0 <= j < spec_rows.len() ==> 0 <= #[trigger] spec_rows[j]
                                < self.storage.spec_rows(),
                        dims == self.storage.spec_dims(),
                        gathered@.len() == t,
                        forall|j: int|
                            0 <= j < t ==> (#[trigger] gathered@[j])@ == self.storage.row_of(
                                spec_rows[j],
                            ) && gathered@[j]@.len() == dims,
                    decreases rows_idx@.len() - t,
                {
                    proof {
                        assert(spec_rows[t as int] == rows_idx@[t as int] as int);
                        self.storage.lemma_row_len(spec_rows[t as int]);
                    }
                    gathered.push(self.storage.row_copy(rows_idx[t]));
                    t = t + 1;
                }
                let m = mean_rows(&gathered, dims);
                proof {
                    assert(rows_view(gathered@) =~= spec_rows.map_values(
                        |r: int| self.storage.row_of(r),
                    ));
                }
                Some(m)
            },
            None => {
                proof {
                    match &self.vocab {
                        VocabWrap::Subword(v) => {
                            if v.min_n <= w@.len() + 2 {
                                lemma_buckets_nonempty(
                                    w@,
                                    v.min_n as int,
                                    v.max_n as int,
                                    v.buckets_exp,
                                );
                            }
                        },
                        VocabWrap::Simple(_) => {},
                    }
                }
                None
            },
        }
    }

    /// Looks a word up together with its norm: cached for a known word,
    /// computed from the composed vector for a subword composition.
    pub fn embedding_with_norm(&self, w: &Vec<u8>) -> (r: Option<(Vec<u32>, u32)>)
        requires
            self.wf(),
        ensures
            match r {
                Some(p) => self.embedding_of(w@) == Some(p.0@) && p.1 == self.embedding_norm_of(
                    w@,
                ),
                None => self.embedding_of(w@) is None,
            },
    {
        let ghost ws = self.vocab.spec_words();
        match self.vocab.get(w) {
            Some(WordIndex::Word(i)) => {
                let v = self.storage.row_copy(i);
                let n = match &self.norms {
                    Some(cache) => cache.norm(i),
                    None => ONE_BITS,
                };
                Some((v, n))
            },
            Some(WordIndex::Subword(_)) => match self.embedding(w) {
                Some(v) => {
                    let n = norm(&v);
                    Some((v, n))
                },
                None => None,
            },
            None => match self.embedding(w) {
                Some(v) => {
                    let n = norm(&v);
                    Some((v, n))
                },
                None => None,
            },
        }
    }

    /// Looks a word up, reporting an unknown word as an error naming it.
    pub fn get(&self, w: &Vec<u8>) -> (r: Result<Vec<u32>, Error>)
        requires
            self.wf(),
        ensures
            match r {
                Ok(v) => self.embedding_of(w@) == Some(v@),
                Err(e) => self.embedding_of(w@) is None && (match e {
                    Error::UnknownWord { words } => words@.len() == 1 && words@[0]@ == w@,
                    _ => false,
                }),
            },
    {
        match self.embedding(w) {
            Some(v) => Ok(v),
            None => {
                let mut failed: Vec<Vec<u8>> = Vec::new();
                failed.push(copy_bytes(w));
                Err(Error::UnknownWord { words: failed })
            },
        }
    }

    /// Looks a word up, substituting the caller's default when the word
    /// has no representation.  A default vector of the wrong
    /// dimensionality is rejected before the lookup.
    pub fn embedding_with_default(&self, w: &Vec<u8>, default: &EmbeddingDefault) -> (r: Result<
        Option<Vec<u32>>,
        Error,
    >)
        requires
            self.wf(),
        ensures
            match r {
                Ok(opt) => (match opt {
                    Some(v) => (self.embedding_of(w@) == Some(v@)) || (self.embedding_of(w@)
                        is None && (match default {
                        EmbeddingDefault::Constant(c) => v@ == Seq::new(
                            self.storage.spec_dims() as nat,
                            |j: int| *c,
                        ),
                        EmbeddingDefault::Embedding(d) => v@ == d@,
                        EmbeddingDefault::Absent => false,
                    })),
                    None => self.embedding_of(w@) is None && default is Absent,
                }),
                Err(e) => e == Error::InvalidShape && (match default {
                    EmbeddingDefault::Embedding(d) => d@.len() != self.storage.spec_dims(),
                    _ => false,
                }),
            },
    {
        let (_, dims) = self.storage.shape();
        if let EmbeddingDefault::Embedding(d) = default {
            if d.len() != dims {
                return Err(Error::InvalidShape);
            }
        }
        match self.embedding(w) {
            Some(v) => Ok(Some(v)),
            None => match default {
                EmbeddingDefault::Absent => Ok(None),
                EmbeddingDefault::Constant(c) => {
                    let mut filled: Vec<u32> = Vec::new();
                    let mut j: usize = 0;
                    while j < dims
                        invariant
                            j <= dims,
                            filled@.len() == j,
                            forall|t: int| 0 <= t < j ==> filled@[t] == *c,
                        decreases dims - j,
                    {
                        filled.push(*c);
                        j = j + 1;
                    }
                    proof {
                        assert(filled@ =~= Seq::new(
                            self.storage.spec_dims() as nat,
                            |j: int| *c,
                        ));
                    }
                    Ok(Some(filled))
                },
                EmbeddingDefault::Embedding(d) => {
                    let copy = crate::vecmath::copy_components(d);
                    Ok(Some(copy))
                },
            },
        }
    }

    /// The metadata document, if one was attached.
    pub fn metadata(&self) -> (r: Option<&Metadata>)
        ensures
            match r {
                Some(m) => self.metadata == Some(*m),
                None => self.metadata is None,
            },
    {
        match &self.metadata {
            Some(m) => Some(m),
            None => None,
        }
    }

    /// Replaces the metadata document wholesale after validating it; on
    /// rejection the store is unchanged.
    pub fn set_metadata(&mut self, doc: Vec<u8>) -> (r: Result<(), Error>)
        requires
            old(self).wf(),
        ensures
            final(self).wf(),
            final(self).vocab == old(self).vocab,
            final(self).storage == old(self).storage,
            final(self).norms == old(self).norms,
            match r {
                Ok(_) => toml_ok(doc@) && (match final(self).metadata {
                    Some(m) => m.doc@ == doc@,
                    None => false,
                }),
                Err(e) => e == Error::InvalidMetadata && !toml_ok(doc@) && final(self).metadata
                    == old(self).metadata,
            },
    {
        match Metadata::new(doc) {
            Ok(m) => {
                self.metadata = Some(m);
                Ok(())
            },
            Err(e) => Err(e),
        }
    }

    /// Starts a fresh iteration cursor over the word rows.
    pub fn iter(&self) -> (r: EmbeddingIterator<'_>)
        ensures
            r.store == self,
            r.idx == 0,
    {
        EmbeddingIterator { store: self, idx: 0 }
    }

    /// Starts a fresh iteration cursor over the words alone.
    pub fn vocab_iter(&self) -> (r: VocabIterator<'_>)
        ensures
            r.store == self,
            r.idx == 0,
    {
        VocabIterator { store: self, idx: 0 }
    }
}

/// A word with its embedding and norm, as iteration yields them.
pub struct Embedding {
    /// The word.
    pub word: Vec<u8>,
    /// The stored row.
    pub embedding: Vec<u32>,
    /// The cached norm of the row, or 1.0 without a cache.
    pub norm: u32,
}

impl Embedding {
    /// The word.
    pub fn get_word(&self) -> (r: &Vec<u8>)
        ensures
            r@ == self.word@,
    {
        &self.word
    }

    /// The stored row.
    pub fn get_embedding(&self) -> (r: &Vec<u32>)
        ensures
            r@ == self.embedding@,
    {
        &self.embedding
    }

    /// The cached norm of the row, or 1.0 without a cache.
    pub fn get_norm(&self) -> (r: u32)
        ensures
            r == self.norm,
    {
        self.norm
    }
}

/// A cursor over the word rows of a store, in row order.  The item at
/// each position is a function of the store and the position alone, so
/// any two cursors over the same store yield the same sequence.
pub struct EmbeddingIterator<'a> {
    /// The store being iterated.
    pub store: &'a Embeddings,
    /// The next row to yield.
    pub idx: usize,
}

impl<'a> EmbeddingIterator<'a> {
    /// Yields the word, row and norm at the cursor, then advances it.
    pub fn next(&mut self) -> (r: Option<Embedding>)
        requires
            old(self).store.wf(),
        ensures
            final(self).store == old(self).store,
            match r {
                Some(em) => {
                    &&& old(self).idx < old(self).store.spec_words().len()
                    &&& final(self).idx == old(self).idx + 1
                    &&& em.word@ == old(self).store.spec_words()[old(self).idx as int]
                    &&& em.embedding@ == old(self).store.storage.row_of(old(self).idx as int)
                    &&& em.norm == old(self).store.iter_norm_of(old(self).idx as int)
                },
                None => {
                    &&& old(self).idx >= old(self).store.spec_words().len()
                    &&& final(self).idx == old(self).idx
                },
            },
    {
        let i = self.idx;
        match self.store.vocab.word(i) {
            Ok(w) => {
                let word = copy_bytes(w);
                let row = self.store.storage.row_copy(i);
                let n = match &self.store.norms {
                    Some(cache) => cache.norm(i),
                    None => ONE_BITS,
                };
                self.idx = i + 1;
                Some(Embedding { word, embedding: row, norm: n })
            },
            Err(_) => None,
        }
    }
}

/// A cursor over the words of a store, in row order.
pub struct VocabIterator<'a> {
    /// The store being iterated.
    pub store: &'a Embeddings,
    /// The next row to yield.
    pub idx: usize,
}

impl<'a> VocabIterator<'a> {
    /// Yields the word at the cursor, then advances it.
    pub fn next(&mut self) -> (r: Option<Vec<u8>>)
        requires
            old(self).store.wf(),
        ensures
            final(self).store == old(self).store,
            match r {
                Some(w) => {
                    &&& old(self).idx < old(self).store.spec_words().len()
                    &&& final(self).idx == old(self).idx + 1
                    &&& w@ == old(self).store.spec_words()[old(self).idx as int]
                },
                None => {
                    &&& old(self).idx >= old(self).store.spec_words().len()
                    &&& final(self).idx == old(self).idx
                },
            },
    {
        let i = self.idx;
        match self.store.vocab.word(i) {
            Ok(w) => {
                let word = copy_bytes(w);
                self.idx = i + 1;
                Some(word)
            },
            Err(_) => None,
        }
    }
}

/// Iteration is deterministic: the item yielded at a position is fixed
/// by the store and the position, so two independent cursors over one
/// store see the same words, rows and norms in the same order.
pub proof fn lemma_iteration_deterministic(e1: &Embeddings, e2: &Embeddings, i: int)
    requires
        e1 == e2,
        0 <= i < e1.spec_words().len(),
    ensures
        e1.spec_words()[i] == e2.spec_words()[i],
        e1.storage.row_of(i) == e2.storage.row_of(i),
        e1.iter_norm_of(i) == e2.iter_norm_of(i),
{
}

} // verus!
