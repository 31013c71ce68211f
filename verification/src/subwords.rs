//! Character n-gram extraction and deterministic bucket hashing.
//!
//! A word is bracketed with `<` and `>` markers; every n-gram of the
//! bracketed byte string whose length lies in `[min_n, max_n]` is hashed
//! with FNV-1a onto one of `2^buckets_exp` buckets.  The same word and
//! parameters always give the same bucket sequence, which is what makes
//! subword-composed vectors reproducible.

use vstd::prelude::*;

verus! {

/// The byte that opens a bracketed word.
pub const BRACKET_OPEN: u8 = 0x3C;

/// The byte that closes a bracketed word.
pub const BRACKET_CLOSE: u8 = 0x3E;

/// The FNV-1a offset basis for 64-bit hashes.
pub const FNV_OFFSET: u64 = 0xCBF2_9CE4_8422_2325;

/// The FNV-1a prime for 64-bit hashes.
pub const FNV_PRIME: u64 = 0x0000_0100_0000_01B3;

/// A word with its bracket markers around it.
pub open spec fn bracketed_of(w: Seq<u8>) -> Seq<u8> {
    seq![BRACKET_OPEN] + w + seq![BRACKET_CLOSE]
}

/// All substrings of `b` of length `n`, ordered by start position.
pub open spec fn slides_of(b: Seq<u8>, n: int) -> Seq<Seq<u8>> {
    if 1 <= n <= b.len() {
        Seq::new((b.len() - n + 1) as nat, |s: int| b.subrange(s, s + n))
    } else {
        Seq::empty()
    }
}

/// The n-grams of `b` with lengths from `min_n` through `n`, shorter
/// lengths first, each length ordered by start position.
pub open spec fn ngrams_upto(b: Seq<u8>, min_n: int, n: int) -> Seq<Seq<u8>>
    decreases n - min_n + 1,
{
    if n < min_n {
        Seq::empty()
    } else {
        ngrams_upto(b, min_n, n - 1) + slides_of(b, n)
    }
}

/// The n-grams of the bracketed form of `w` with lengths in
/// `[min_n, max_n]`.
pub open spec fn ngrams_of(w: Seq<u8>, min_n: int, max_n: int) -> Seq<Seq<u8>> {
    ngrams_upto(bracketed_of(w), min_n, max_n)
}

/// The FNV-1a hash of a byte string, folded left to right.
pub open spec fn fnv1a_of(bytes: Seq<u8>) -> u64
    decreases bytes.len(),
{
    if bytes.len() == 0 {
        FNV_OFFSET
    } else {
        vstd::wrapping::u64_specs::wrapping_mul(
            fnv1a_of(bytes.drop_last()) ^ (bytes.last() as u64),
            FNV_PRIME,
        )
    }
}

/// The bucket that an n-gram hashes to under a `2^exp` bucket table.
pub open spec fn bucket_of(ng: Seq<u8>, exp: u32) -> int {
    fnv1a_of(ng) as int % (1u64 << exp) as int
}

/// The bucket sequence of a word: one bucket per n-gram, in n-gram order.
pub open spec fn buckets_of(w: Seq<u8>, min_n: int, max_n: int, exp: u32) -> Seq<int> {
    ngrams_of(w, min_n, max_n).map_values(|ng: Seq<u8>| bucket_of(ng, exp))
}

/// Copies `n` bytes of `b` starting at `start` into a fresh vector.
#[verifier::loop_isolation(false)]
pub fn sub_bytes(b: &Vec<u8>, start: usize, n: usize) -> (r: Vec<u8>)
    requires
        start + n <= b@.len(),
    ensures
        r@ == b@.subrange(start as int, start + n),
{
    let blen = b.len();
    let mut out: Vec<u8> = Vec::new();
    let mut i: usize = 0;
    while i < n
        invariant
            i <= n,
            out@.len() == i,
            forall|j: int| 0 <= j < i ==> out@[j] == b@[start + j],
        decreases n - i,
    {
        out.push(b[start + i]);
        i = i + 1;
    }
    proof {
        assert(out@ =~= b@.subrange(start as int, start + n));
    }
    out
}

/// Wraps a word in its bracket markers.
#[verifier::loop_isolation(false)]
pub fn bracket(w: &Vec<u8>) -> (r: Vec<u8>)
    ensures
        r@ == bracketed_of(w@),
{
    let wlen = w.len();
    let mut out: Vec<u8> = Vec::new();
    out.push(BRACKET_OPEN);
    let mut i: usize = 0;
    while i < wlen
        invariant
            i <= w@.len(),
            out@.len() == i + 1,
            out@[0] == BRACKET_OPEN,
            forall|j: int| 0 <= j < i ==> out@[j + 1] == w@[j],
        decreases w@.len() - i,
    {
        out.push(w[i]);
        i = i + 1;
    }
    out.push(BRACKET_CLOSE);
    proof {
        assert(out@ =~= bracketed_of(w@));
    }
    out
}

/// Lists the n-grams of `b` with lengths in `[min_n, max_n]`, shorter
/// lengths first, each length by start position.
#[verifier::loop_isolation(false)]
pub fn ngram_list(b: &Vec<u8>, min_n: usize, max_n: usize) -> (r: Vec<Vec<u8>>)
    requires
        1 <= min_n <= max_n < usize::MAX,
    ensures
        r@.len() == ngrams_upto(b@, min_n as int, max_n as int).len(),
        forall|i: int|
            0 <= i < r@.len() ==> (#[trigger] r@[i])@ == ngrams_upto(
                b@,
                min_n as int,
                max_n as int,
            )[i],
{
    let blen = b.len();
    let mut out: Vec<Vec<u8>> = Vec::new();
    let mut n: usize = min_n;
    while n <= max_n
        invariant
            min_n <= n <= max_n + 1,
            out@.len() == ngrams_upto(b@, min_n as int, n - 1).len(),
            forall|i: int|
                0 <= i < out@.len() ==> (#[trigger] out@[i])@ == ngrams_upto(
                    b@,
                    min_n as int,
                    n - 1,
                )[i],
        decreases max_n + 1 - n,
    {
        let count: usize = if n <= blen {
            blen - n + 1
        } else {
            0
        };
        let ghost prefix = ngrams_upto(b@, min_n as int, n - 1);
        let ghost slides = slides_of(b@, n as int);
        assert(slides.len() == count);
        let mut s: usize = 0;
        while s < count
            invariant
                s <= count,
                out@.len() == prefix.len() + s,
                forall|i: int|
                    0 <= i < prefix.len() ==> (#[trigger] out@[i])@ == prefix[i],
                forall|i: int|
                    prefix.len() <= i < out@.len() ==> (#[trigger] out@[i])@ == slides[
                        i - prefix.len()
                    ],
            decreases count - s,
        {
            let ng = sub_bytes(b, s, n);
            out.push(ng);
            s = s + 1;
        }
        proof {
            assert(ngrams_upto(b@, min_n as int, n as int) == prefix + slides);
            assert(forall|i: int|
                0 <= i < out@.len() ==> (#[trigger] out@[i])@ == (prefix + slides)[i]);
        }
        n = n + 1;
    }
    proof {
        assert(n == max_n + 1);
    }
    out
}

/// Hashes one n-gram to its bucket under a `2^exp` bucket table.
#[verifier::loop_isolation(false)]
pub fn hash_bucket(ng: &Vec<u8>, exp: u32) -> (r: usize)
    requires
        exp <= 30,
    ensures
        r == bucket_of(ng@, exp),
        r < (1u64 << exp),
{
    let nglen = ng.len();
    let mut h: u64 = FNV_OFFSET;
    let mut i: usize = 0;
    while i < nglen
        invariant
            i <= ng@.len(),
            h == fnv1a_of(ng@.take(i as int)),
        decreases ng@.len() - i,
    {
        h = (h ^ (ng[i] as u64)).wrapping_mul(FNV_PRIME);
        i = i + 1;
        proof {
            assert(ng@.take(i as int).drop_last() =~= ng@.take(i - 1));
        }
    }
    proof {
        assert(ng@.take(ng@.len() as int) =~= ng@);
        assert(1u64 << exp > 0) by (bit_vector)
            requires
                exp <= 30,
        ;
        assert((1u64 << exp) <= 0x4000_0000) by (bit_vector)
            requires
                exp <= 30,
        ;
    }
    let buckets: u64 = 1u64 << exp;
    (h % buckets) as usize
}

/// Lists each n-gram of the bracketed word together with its bucket.
#[verifier::loop_isolation(false)]
pub fn ngram_buckets(w: &Vec<u8>, min_n: usize, max_n: usize, exp: u32) -> (r: Vec<(Vec<u8>, usize)>)
    requires
        1 <= min_n <= max_n < usize::MAX,
        exp <= 30,
    ensures
        r@.len() == ngrams_of(w@, min_n as int, max_n as int).len(),
        forall|i: int|
            0 <= i < r@.len() ==> (#[trigger] r@[i]).0@ == ngrams_of(
                w@,
                min_n as int,
                max_n as int,
            )[i] && r@[i].1 == bucket_of(ngrams_of(w@, min_n as int, max_n as int)[i], exp),
{
    let b = bracket(w);
    let ngrams = ngram_list(&b, min_n, max_n);
    let ghost target = ngrams_of(w@, min_n as int, max_n as int);
    let mut out: Vec<(Vec<u8>, usize)> = Vec::new();
    let mut i: usize = 0;
    while i < ngrams.len()
        invariant
            i <= ngrams@.len(),
            ngrams@.len() == target.len(),
            forall|j: int| 0 <= j < target.len() ==> (#[trigger] ngrams@[j])@ == target[j],
            out@.len() == i,
            forall|j: int|
                0 <= j < i ==> (#[trigger] out@[j]).0@ == target[j] && out@[j].1 == bucket_of(
                    target[j],
                    exp,
                ),
        decreases ngrams@.len() - i,
    {
        let bucket = hash_bucket(&ngrams[i], exp);
        let nglen = ngrams[i].len();
        let ng = sub_bytes(&ngrams[i], 0, nglen);
        proof {
            assert(ngrams@[i as int]@.subrange(0, ngrams@[i as int]@.len() as int) =~= ngrams@[
                i as int
            ]@);
        }
        out.push((ng, bucket));
        i = i + 1;
    }
    out
}

/// Lists the bucket of every n-gram of the bracketed word, in n-gram
/// order.
#[verifier::loop_isolation(false)]
pub fn bucket_list(w: &Vec<u8>, min_n: usize, max_n: usize, exp: u32) -> (r: Vec<usize>)
    requires
        1 <= min_n <= max_n < usize::MAX,
        exp <= 30,
    ensures
        r@.map_values(|x: usize| x as int) == buckets_of(w@, min_n as int, max_n as int, exp),
        forall|i: int| 0 <= i < r@.len() ==> (#[trigger] r@[i]) < (1u64 << exp),
{
    let b = bracket(w);
    let ngrams = ngram_list(&b, min_n, max_n);
    let ghost target = ngrams_of(w@, min_n as int, max_n as int);
    let mut out: Vec<usize> = Vec::new();
    let mut i: usize = 0;
    while i < ngrams.len()
        invariant
            i <= ngrams@.len(),
            ngrams@.len() == target.len(),
            forall|j: int| 0 <= j < target.len() ==> (#[trigger] ngrams@[j])@ == target[j],
            out@.len() == i,
            forall|j: int|
                0 <= j < i ==> (#[trigger] out@[j]) == bucket_of(target[j], exp) && out@[j] < (
                1u64 << exp),
        decreases ngrams@.len() - i,
    {
        let bucket = hash_bucket(&ngrams[i], exp);
        out.push(bucket);
        i = i + 1;
    }
    proof {
        assert(out@.map_values(|x: usize| x as int) =~= buckets_of(
            w@,
            min_n as int,
            max_n as int,
            exp,
        ));
    }
    out
}

/// A word whose subword decomposition can be inspected under chosen
/// n-gram lengths and bucket-table sizes.
pub struct SubwordInfo {
    /// The word under inspection.
    pub word: Vec<u8>,
}

impl SubwordInfo {
    /// Wraps a word for subword inspection.
    pub fn new(word: Vec<u8>) -> (r: SubwordInfo)
        ensures
            r.word@ == word@,
    {
        SubwordInfo { word }
    }

    /// Lists each n-gram of the bracketed word with its bucket.
    pub fn get_ngrams_indices(&self, min_n: usize, max_n: usize, buckets_exp: u32) -> (r: Vec<
        (Vec<u8>, usize),
    >)
        requires
            1 <= min_n <= max_n < usize::MAX,
            buckets_exp <= 30,
        ensures
            r@.len() == ngrams_of(self.word@, min_n as int, max_n as int).len(),
            forall|i: int|
                0 <= i < r@.len() ==> (#[trigger] r@[i]).0@ == ngrams_of(
                    self.word@,
                    min_n as int,
                    max_n as int,
                )[i] && r@[i].1 == bucket_of(
                    ngrams_of(self.word@, min_n as int, max_n as int)[i],
                    buckets_exp,
                ),
    {
        ngram_buckets(&self.word, min_n, max_n, buckets_exp)
    }

    /// Lists the bucket of every n-gram of the bracketed word.
    pub fn get_subword_indices(&self, min_n: usize, max_n: usize, buckets_exp: u32) -> (r: Vec<
        usize,
    >)
        requires
            1 <= min_n <= max_n < usize::MAX,
            buckets_exp <= 30,
        ensures
            r@.map_values(|x: usize| x as int) == buckets_of(
                self.word@,
                min_n as int,
                max_n as int,
                buckets_exp,
            ),
    {
        bucket_list(&self.word, min_n, max_n, buckets_exp)
    }
}

/// A bucket index always lies inside the `2^exp`-entry table.
pub proof fn lemma_bucket_in_range(ng: Seq<u8>, exp: u32)
    requires
        exp <= 30,
    ensures
        0 <= bucket_of(ng, exp) < (1u64 << exp),
        (1u64 << exp) <= 0x4000_0000,
{
    assert(1u64 << exp > 0) by (bit_vector)
        requires
            exp <= 30,
    ;
    assert((1u64 << exp) <= 0x4000_0000) by (bit_vector)
        requires
            exp <= 30,
    ;
}

/// The subword decomposition is a function of the word and the
/// parameters alone: the same inputs always give the same bucket
/// sequence.
pub proof fn lemma_buckets_deterministic(w1: Seq<u8>, w2: Seq<u8>, min_n: int, max_n: int, exp: u32)
    requires
        w1 == w2,
    ensures
        buckets_of(w1, min_n, max_n, exp) == buckets_of(w2, min_n, max_n, exp),
{
}

/// A non-empty word whose bracketed form is at least `min_n` long always
/// has at least one n-gram, hence at least one bucket.
pub proof fn lemma_buckets_nonempty(w: Seq<u8>, min_n: int, max_n: int, exp: u32)
    requires
        1 <= min_n <= max_n,
        min_n <= w.len() + 2,
    ensures
        buckets_of(w, min_n, max_n, exp).len() > 0,
{
    lemma_ngrams_nonempty(w, min_n, max_n);
}

/// The n-gram list is non-empty whenever the shortest requested length
/// fits inside the bracketed word.
pub proof fn lemma_ngrams_nonempty(w: Seq<u8>, min_n: int, max_n: int)
    requires
        1 <= min_n <= max_n,
        min_n <= w.len() + 2,
    ensures
        ngrams_of(w, min_n, max_n).len() > 0,
    decreases max_n - min_n,
{
    let b = bracketed_of(w);
    if max_n == min_n {
        assert(slides_of(b, min_n).len() > 0);
    } else {
        lemma_ngrams_nonempty(w, min_n, max_n - 1);
        assert(ngrams_upto(b, min_n, max_n) == ngrams_upto(b, min_n, max_n - 1) + slides_of(
            b,
            max_n,
        ));
    }
}

} // verus!
