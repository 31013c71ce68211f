//! Vocabularies: the map from words to storage rows.
//!
//! A simple vocabulary knows only its word list; a subword vocabulary
//! additionally hashes character n-grams of unknown words onto bucket
//! rows that sit behind the word rows.  Words are unique and their list
//! order is the storage row order.

use vstd::prelude::*;

use crate::subwords::bucket_list;
use crate::subwords::buckets_of;
use crate::subwords::ngram_buckets;
use crate::subwords::ngrams_of;
use crate::subwords::bucket_of;
use crate::subwords::sub_bytes;
use crate::Error;

verus! {

/// The views of a list of byte-string words.
pub open spec fn words_view(ws: Seq<Vec<u8>>) -> Seq<Seq<u8>> {
    Seq::new(ws.len(), |i: int| ws[i]@)
}

/// No word occurs twice.
pub open spec fn distinct_words(ws: Seq<Seq<u8>>) -> bool {
    forall|i: int, j: int| 0 <= i < j < ws.len() ==> ws[i] != ws[j]
}

/// Membership of a word in a word list.
pub open spec fn contains_word(ws: Seq<Seq<u8>>, w: Seq<u8>) -> bool {
    exists|i: int| 0 <= i < ws.len() && ws[i] == w
}

/// The row index of a word in a distinct word list.
pub open spec fn word_index_of(ws: Seq<Seq<u8>>, w: Seq<u8>) -> int {
    choose|i: int| 0 <= i < ws.len() && ws[i] == w
}

/// In a distinct word list the row of a word is unique.
pub proof fn lemma_word_index(ws: Seq<Seq<u8>>, w: Seq<u8>, i: int)
    requires
        distinct_words(ws),
        0 <= i < ws.len(),
        ws[i] == w,
    ensures
        word_index_of(ws, w) == i,
        contains_word(ws, w),
{
    assert(contains_word(ws, w));
    let j = word_index_of(ws, w);
    if i < j {
        assert(ws[i] != ws[j]);
    } else if j < i {
        assert(ws[j] != ws[i]);
    }
}

/// Copies a byte string.
pub fn copy_bytes(b: &Vec<u8>) -> (r: Vec<u8>)
    ensures
        r@ == b@,
{
    let r = sub_bytes(b, 0, b.len());
    proof {
        assert(b@.subrange(0, b@.len() as int) =~= b@);
    }
    r
}

/// Compares two byte strings for equality.
#[verifier::loop_isolation(false)]
pub fn bytes_eq(a: &Vec<u8>, b: &Vec<u8>) -> (r: bool)
    ensures
        r == (a@ == b@),
{
    if a.len() != b.len() {
        return false;
    }
    let mut i: usize = 0;
    while i < a.len()
        invariant
            i <= a@.len(),
            a@.len() == b@.len(),
            forall|j: int| 0 <= j < i ==> a@[j] == b@[j],
        decreases a@.len() - i,
    {
        if a[i] != b[i] {
            return false;
        }
        i = i + 1;
    }
    proof {
        assert(a@ =~= b@);
    }
    true
}

/// Finds the row of a word in a word list, if any.
#[verifier::loop_isolation(false)]
pub fn find_word(words: &Vec<Vec<u8>>, w: &Vec<u8>) -> (r: Option<usize>)
    ensures
        match r {
            Some(i) => i < words@.len() && words_view(words@)[i as int] == w@,
            None => !contains_word(words_view(words@), w@),
        },
{
    let mut i: usize = 0;
    while i < words.len()
        invariant
            i <= words@.len(),
            forall|j: int| 0 <= j < i ==> words_view(words@)[j] != w@,
        decreases words@.len() - i,
    {
        if bytes_eq(&words[i], w) {
            return Some(i);
        }
        i = i + 1;
    }
    None
}

/// Checks that no word occurs twice in a word list.
#[verifier::loop_isolation(false)]
pub fn check_distinct(words: &Vec<Vec<u8>>) -> (r: bool)
    ensures
        r == distinct_words(words_view(words@)),
{
    let ghost ws = words_view(words@);
    let mut i: usize = 0;
    while i < words.len()
        invariant
            i <= ws.len(),
            forall|a: int, b: int| 0 <= a < b < i ==> ws[a] != ws[b],
        decreases ws.len() - i,
    {
        let mut j: usize = 0;
        while j < i
            invariant
                j <= i < ws.len(),
                forall|a: int| 0 <= a < j ==> ws[a] != ws[i as int],
            decreases i - j,
        {
            if bytes_eq(&words[j], &words[i]) {
                proof {
                    assert(ws[j as int] == ws[i as int]);
                    assert(!distinct_words(ws));
                }
                return false;
            }
            j = j + 1;
        }
        i = i + 1;
    }
    true
}

/// The result of resolving a word: its own row, or the subword bucket
/// rows that approximate it.
pub enum WordIndex {
    /// The word has a row of its own.
    Word(usize),
    /// The word is approximated by these subword bucket rows.
    Subword(Vec<usize>),
}

/// A vocabulary of words alone: unknown words cannot be resolved.
pub struct SimpleVocab {
    /// The words, in storage row order.
    pub words: Vec<Vec<u8>>,
}

/// A vocabulary whose unknown words fall back to hashed n-gram buckets.
pub struct SubwordVocab {
    /// The words, in storage row order; bucket rows follow them.
    pub words: Vec<Vec<u8>>,
    /// Shortest n-gram length taken from a bracketed word.
    pub min_n: usize,
    /// Longest n-gram length taken from a bracketed word.
    pub max_n: usize,
    /// The bucket table holds `2^buckets_exp` rows.
    pub buckets_exp: u32,
}

/// One of the two vocabulary variants.
pub enum VocabWrap {
    /// Words alone.
    Simple(SimpleVocab),
    /// Words with subword fallback.
    Subword(SubwordVocab),
}

impl SimpleVocab {
    /// Well-formedness: the words are distinct.
    pub open spec fn wf(&self) -> bool {
        distinct_words(words_view(self.words@))
    }

    /// Builds a simple vocabulary after checking word uniqueness.
    pub fn new(words: Vec<Vec<u8>>) -> (r: Result<SimpleVocab, Error>)
        ensures
            match r {
                Ok(v) => v.wf() && v.words@ == words@,
                Err(e) => e == Error::IOError && !distinct_words(words_view(words@)),
            },
    {
        if check_distinct(&words) {
            Ok(SimpleVocab { words })
        } else {
            Err(Error::IOError)
        }
    }
}

impl SubwordVocab {
    /// Well-formedness: distinct words and hashing parameters inside the
    /// supported ranges, with the total row count representable.
    pub open spec fn wf(&self) -> bool {
        &&& distinct_words(words_view(self.words@))
        &&& 1 <= self.min_n <= self.max_n
        &&& self.max_n < usize::MAX
        &&& self.buckets_exp <= 30
        &&& self.words@.len() + (1u64 << self.buckets_exp) <= usize::MAX
    }

    /// The number of bucket rows behind the word rows.
    pub open spec fn spec_n_buckets(&self) -> int {
        (1u64 << self.buckets_exp) as int
    }

    /// Builds a subword vocabulary after checking word uniqueness and the
    /// hashing parameters.
    pub fn new(words: Vec<Vec<u8>>, min_n: usize, max_n: usize, buckets_exp: u32) -> (r: Result<
        SubwordVocab,
        Error,
    >)
        ensures
            match r {
                Ok(v) => v.wf() && v.words@ == words@ && v.min_n == min_n && v.max_n == max_n
                    && v.buckets_exp == buckets_exp,
                Err(e) => e == Error::IOError && !({
                    &&& 1 <= min_n <= max_n
                    &&& max_n < usize::MAX
                    &&& buckets_exp <= 30
                    &&& words@.len() + (1u64 << buckets_exp) <= usize::MAX
                    &&& distinct_words(words_view(words@))
                }),
            },
    {
        if min_n < 1 || min_n > max_n || max_n >= usize::MAX || buckets_exp > 30 {
            return Err(Error::IOError);
        }
        proof {
            crate::subwords::lemma_bucket_in_range(Seq::empty(), buckets_exp);
        }
        let n_buckets = (1u64 << buckets_exp) as usize;
        if words.len() > usize::MAX - n_buckets {
            return Err(Error::IOError);
        }
        if check_distinct(&words) {
            Ok(SubwordVocab { words, min_n, max_n, buckets_exp })
        } else {
            Err(Error::IOError)
        }
    }

    /// The storage rows of a word's subword buckets, in n-gram order.
    pub open spec fn subword_rows_of(&self, w: Seq<u8>) -> Seq<int> {
        buckets_of(w, self.min_n as int, self.max_n as int, self.buckets_exp).map_values(
            |b: int| self.words@.len() + b,
        )
    }

    /// Lists the storage rows of a word's subword buckets.
    #[verifier::loop_isolation(false)]
    pub fn subword_indices(&self, w: &Vec<u8>) -> (r: Vec<usize>)
        requires
            self.wf(),
        ensures
            r@.map_values(|x: usize| x as int) == self.subword_rows_of(w@),
            forall|i: int|
                0 <= i < r@.len() ==> self.words@.len() <= #[trigger] r@[i] < self.words@.len()
                    + self.spec_n_buckets(),
    {
        let buckets = bucket_list(w, self.min_n, self.max_n, self.buckets_exp);
        let offset = self.words.len();
        let ghost bs = buckets_of(w@, self.min_n as int, self.max_n as int, self.buckets_exp);
        let mut out: Vec<usize> = Vec::new();
        let mut i: usize = 0;
        while i < buckets.len()
            invariant
                i <= buckets@.len(),
                offset == self.words@.len(),
                buckets@.map_values(|x: usize| x as int) == bs,
                forall|j: int| 0 <= j < buckets@.len() ==> (#[trigger] buckets@[j]) < (1u64
                    << self.buckets_exp),
                out@.len() == i,
                forall|j: int|
                    0 <= j < i ==> (#[trigger] out@[j]) == offset + bs[j] && offset <= out@[j]
                        < offset + self.spec_n_buckets(),
            decreases buckets@.len() - i,
        {
            proof {
                assert(bs[i as int] == buckets@[i as int] as int);
                assert(0 <= buckets@[i as int] as int);
            }
            out.push(offset + buckets[i]);
            i = i + 1;
        }
        proof {
            assert(out@.map_values(|x: usize| x as int) =~= self.subword_rows_of(w@));
        }
        out
    }

    /// Lists each n-gram of a word with the storage row of its bucket.
    #[verifier::loop_isolation(false)]
    pub fn ngram_indices(&self, w: &Vec<u8>) -> (r: Vec<(Vec<u8>, usize)>)
        requires
            self.wf(),
        ensures
            r@.len() == ngrams_of(w@, self.min_n as int, self.max_n as int).len(),
            forall|i: int|
                0 <= i < r@.len() ==> (#[trigger] r@[i]).0@ == ngrams_of(
                    w@,
                    self.min_n as int,
                    self.max_n as int,
                )[i] && r@[i].1 == self.words@.len() + bucket_of(
                    ngrams_of(w@, self.min_n as int, self.max_n as int)[i],
                    self.buckets_exp,
                ),
    {
        let pairs = ngram_buckets(w, self.min_n, self.max_n, self.buckets_exp);
        let offset = self.words.len();
        let ghost ngs = ngrams_of(w@, self.min_n as int, self.max_n as int);
        let mut out: Vec<(Vec<u8>, usize)> = Vec::new();
        let mut i: usize = 0;
        while i < pairs.len()
            invariant
                i <= pairs@.len(),
                offset == self.words@.len(),
                pairs@.len() == ngs.len(),
                forall|j: int|
                    0 <= j < pairs@.len() ==> (#[trigger] pairs@[j]).0@ == ngs[j] && pairs@[j].1
                        == bucket_of(ngs[j], self.buckets_exp),
                out@.len() == i,
                forall|j: int|
                    0 <= j < i ==> (#[trigger] out@[j]).0@ == ngs[j] && out@[j].1 == offset
                        + bucket_of(ngs[j], self.buckets_exp),
            decreases pairs@.len() - i,
        {
            let ng = copy_bytes(&pairs[i].0);
            proof {
                crate::subwords::lemma_bucket_in_range(ngs[i as int], self.buckets_exp);
            }
            out.push((ng, offset + pairs[i].1));
            i = i + 1;
        }
        out
    }
}

impl VocabWrap {
    /// Whether this is the simple variant.
    pub open spec fn is_simple(&self) -> bool {
        match self {
            VocabWrap::Simple(_) => true,
            VocabWrap::Subword(_) => false,
        }
    }

    /// Whether this is the subword variant.
    pub open spec fn is_subword(&self) -> bool {
        !self.is_simple()
    }

    /// Well-formedness of the wrapped vocabulary.
    pub open spec fn wf(&self) -> bool {
        match self {
            VocabWrap::Simple(v) => v.wf(),
            VocabWrap::Subword(v) => v.wf(),
        }
    }

    /// The word list of either variant.
    pub open spec fn spec_words(&self) -> Seq<Seq<u8>> {
        match self {
            VocabWrap::Simple(v) => words_view(v.words@),
            VocabWrap::Subword(v) => words_view(v.words@),
        }
    }

    /// The number of storage rows the vocabulary can address: the words,
    /// plus the bucket table for the subword variant.
    pub open spec fn spec_n_rows(&self) -> int {
        match self {
            VocabWrap::Simple(v) => v.words@.len() as int,
            VocabWrap::Subword(v) => v.words@.len() + v.spec_n_buckets(),
        }
    }

    /// The number of words.
    pub fn words_len(&self) -> (r: usize)
        ensures
            r == self.spec_words().len(),
    {
        match self {
            VocabWrap::Simple(v) => v.words.len(),
            VocabWrap::Subword(v) => v.words.len(),
        }
    }

    /// The number of storage rows the vocabulary can address.
    pub fn n_rows(&self) -> (r: usize)
        requires
            self.wf(),
        ensures
            r == self.spec_n_rows(),
    {
        match self {
            VocabWrap::Simple(v) => v.words.len(),
            VocabWrap::Subword(v) => {
                proof {
                    crate::subwords::lemma_bucket_in_range(Seq::empty(), v.buckets_exp);
                }
                v.words.len() + ((1u64 << v.buckets_exp) as usize)
            },
        }
    }

    /// Whether the word has a row of its own.
    pub fn contains_exact(&self, w: &Vec<u8>) -> (r: bool)
        ensures
            r == contains_word(self.spec_words(), w@),
    {
        let words = match self {
            VocabWrap::Simple(v) => &v.words,
            VocabWrap::Subword(v) => &v.words,
        };
        match find_word(words, w) {
            Some(_) => true,
            None => false,
        }
    }

    /// The word at a row known to be in bounds.
    pub fn word_at(&self, i: usize) -> (r: &Vec<u8>)
        requires
            i < self.spec_words().len(),
        ensures
            r@ == self.spec_words()[i as int],
    {
        let words = match self {
            VocabWrap::Simple(v) => &v.words,
            VocabWrap::Subword(v) => &v.words,
        };
        &words[i]
    }

    /// The word at a row, bounds-checked.
    pub fn word(&self, i: usize) -> (r: Result<&Vec<u8>, Error>)
        ensures
            match r {
                Ok(w) => i < self.spec_words().len() && w@ == self.spec_words()[i as int],
                Err(e) => e == Error::IndexOutOfRange && i >= self.spec_words().len(),
            },
    {
        let words = match self {
            VocabWrap::Simple(v) => &v.words,
            VocabWrap::Subword(v) => &v.words,
        };
        if i < words.len() {
            Ok(&words[i])
        } else {
            Err(Error::IndexOutOfRange)
        }
    }

    /// Converts a possibly negative position (counted from the end, as a
    /// sequence index) into a row, bounds-checked.
    pub fn abs_index(&self, idx: isize) -> (r: Result<usize, Error>)
        ensures
            match r {
                Ok(i) => {
                    &&& i < self.spec_words().len()
                    &&& (idx >= 0 ==> i == idx)
                    &&& (idx < 0 ==> i == self.spec_words().len() + idx)
                },
                Err(e) => {
                    &&& e == Error::IndexOutOfRange
                    &&& (idx >= 0 ==> idx >= self.spec_words().len())
                    &&& (idx < 0 ==> self.spec_words().len() + idx < 0)
                },
            },
    {
        let len = self.words_len();
        if idx >= 0 {
            let i = idx as usize;
            if i < len {
                Ok(i)
            } else {
                Err(Error::IndexOutOfRange)
            }
        } else {
            let mag_minus_one = (-(idx + 1)) as usize;
            if mag_minus_one < len {
                Ok(len - mag_minus_one - 1)
            } else {
                Err(Error::IndexOutOfRange)
            }
        }
    }

    /// Resolves a word: its own row when it is known, else its subword
    /// rows when the vocabulary has them, else nothing.
    pub fn get(&self, w: &Vec<u8>) -> (r: Option<WordIndex>)
        requires
            self.wf(),
        ensures
            match r {
                Some(WordIndex::Word(i)) => contains_word(self.spec_words(), w@) && i
                    < self.spec_words().len() && self.spec_words()[i as int] == w@ && i
                    == word_index_of(self.spec_words(), w@),
                Some(WordIndex::Subword(rows)) => {
                    &&& !contains_word(self.spec_words(), w@)
                    &&& self.is_subword()
                    &&& rows@.len() > 0
                    &&& (match self {
                        VocabWrap::Subword(v) => rows@.map_values(|x: usize| x as int)
                            == v.subword_rows_of(w@),
                        _ => false,
                    })
                },
                None => {
                    &&& !contains_word(self.spec_words(), w@)
                    &&& (match self {
                        VocabWrap::Subword(v) => v.subword_rows_of(w@).len() == 0,
                        VocabWrap::Simple(_) => true,
                    })
                },
            },
    {
        let words = match self {
            VocabWrap::Simple(v) => &v.words,
            VocabWrap::Subword(v) => &v.words,
        };
        match find_word(words, w) {
            Some(i) => {
                proof {
                    lemma_word_index(self.spec_words(), w@, i as int);
                }
                Some(WordIndex::Word(i))
            },
            None => match self {
                VocabWrap::Simple(_) => None,
                VocabWrap::Subword(v) => {
                    let rows = v.subword_indices(w);
                    if rows.len() == 0 {
                        None
                    } else {
                        Some(WordIndex::Subword(rows))
                    }
                },
            },
        }
    }

    /// Resolves a word as `get` does, reporting an unknown word as an
    /// error naming it.
    pub fn resolve(&self, w: &Vec<u8>) -> (r: Result<WordIndex, Error>)
        requires
            self.wf(),
        ensures
            match r {
                Ok(WordIndex::Word(i)) => contains_word(self.spec_words(), w@) && i
                    < self.spec_words().len() && self.spec_words()[i as int] == w@ && i
                    == word_index_of(self.spec_words(), w@),
                Ok(WordIndex::Subword(rows)) => {
                    &&& !contains_word(self.spec_words(), w@)
                    &&& self.is_subword()
                    &&& rows@.len() > 0
                    &&& (match self {
                        VocabWrap::Subword(v) => rows@.map_values(|x: usize| x as int)
                            == v.subword_rows_of(w@),
                        _ => false,
                    })
                },
                Err(e) => {
                    &&& !contains_word(self.spec_words(), w@)
                    &&& (match self {
                        VocabWrap::Subword(v) => v.subword_rows_of(w@).len() == 0,
                        VocabWrap::Simple(_) => true,
                    })
                    &&& (match e {
                        Error::UnknownWord { words } => words@.len() == 1 && words@[0]@ == w@,
                        _ => false,
                    })
                },
            },
    {
        match self.get(w) {
            Some(ix) => Ok(ix),
            None => {
                let mut failed: Vec<Vec<u8>> = Vec::new();
                failed.push(copy_bytes(w));
                Err(Error::UnknownWord { words: failed })
            },
        }
    }

    /// Lists the storage rows of a word's subword buckets; simple
    /// vocabularies do not support the query.
    pub fn subword_indices(&self, w: &Vec<u8>) -> (r: Result<Vec<usize>, Error>)
        requires
            self.wf(),
        ensures
            match r {
                Ok(rows) => (match self {
                    VocabWrap::Subword(v) => rows@.map_values(|x: usize| x as int)
                        == v.subword_rows_of(w@),
                    _ => false,
                }),
                Err(e) => e == Error::UnsupportedOperation && self.is_simple(),
            },
    {
        match self {
            VocabWrap::Simple(_) => Err(Error::UnsupportedOperation),
            VocabWrap::Subword(v) => Ok(v.subword_indices(w)),
        }
    }

    /// Lists each n-gram of a word with the storage row of its bucket;
    /// simple vocabularies do not support the query.
    pub fn ngram_indices(&self, w: &Vec<u8>) -> (r: Result<Vec<(Vec<u8>, usize)>, Error>)
        requires
            self.wf(),
        ensures
            match r {
                Ok(pairs) => (match self {
                    VocabWrap::Subword(v) => pairs@.len() == ngrams_of(
                        w@,
                        v.min_n as int,
                        v.max_n as int,
                    ).len() && forall|i: int|
                        0 <= i < pairs@.len() ==> (#[trigger] pairs@[i]).0@ == ngrams_of(
                            w@,
                            v.min_n as int,
                            v.max_n as int,
                        )[i] && pairs@[i].1 == v.words@.len() + bucket_of(
                            ngrams_of(w@, v.min_n as int, v.max_n as int)[i],
                            v.buckets_exp,
                        ),
                    _ => false,
                }),
                Err(e) => e == Error::UnsupportedOperation && self.is_simple(),
            },
    {
        match self {
            VocabWrap::Simple(_) => Err(Error::UnsupportedOperation),
            VocabWrap::Subword(v) => Ok(v.ngram_indices(w)),
        }
    }
}

} // verus!
