//! Cosine-similarity ranking: top-k queries over the word rows.
//!
//! Ranking only runs over viewable storage.  Scores are compared through
//! the verified total order on bit patterns, with ties broken by
//! ascending row index, so a query has exactly one correct answer and
//! the contracts below pin it down: every returned row is an allowed
//! candidate carrying its true score, the list is strictly ordered, its
//! length is `min(k, candidates)`, and every returned row beats every
//! candidate left out.

use vstd::prelude::*;

use crate::embeddings::Embeddings;
use crate::scalar::beats;
use crate::vecmath::cos_of;
use crate::vecmath::cosine;
use crate::vecmath::norm;
use crate::vecmath::norm_of;
use crate::vocab::contains_word;
use crate::vocab::copy_bytes;
use crate::vocab::word_index_of;
use crate::Error;

verus! {

/// A ranked word with its cosine similarity to the query.
pub struct WordSimilarity {
    /// The ranked word.
    pub word: Vec<u8>,
    /// The cosine similarity bit pattern.
    pub similarity: u32,
}

impl WordSimilarity {
    /// Pairs a word with its similarity.
    pub fn new(word: Vec<u8>, similarity: u32) -> (r: WordSimilarity)
        ensures
            r.word@ == word@,
            r.similarity == similarity,
    {
        WordSimilarity { word, similarity }
    }

    /// The ranked word.
    pub fn get_word(&self) -> (r: &Vec<u8>)
        ensures
            r@ == self.word@,
    {
        &self.word
    }

    /// The cosine similarity bit pattern.
    pub fn get_similarity(&self) -> (r: u32)
        ensures
            r == self.similarity,
    {
        self.similarity
    }
}

/// The norm used for a stored row during ranking: the cached norm when a
/// cache is present, else the norm computed from the row.
pub open spec fn rank_norm_of(e: Embeddings, i: int) -> u32 {
    match e.norms {
        Some(n) => n.norms@[i],
        None => norm_of(e.storage.row_of(i)),
    }
}

/// The ranking score of word row `i` against a query with norm `qn`.
pub open spec fn score_of(e: Embeddings, q: Seq<u32>, qn: u32, i: int) -> u32 {
    cos_of(q, qn, e.storage.row_of(i), rank_norm_of(e, i))
}

/// How many entries of a mask are set.
pub open spec fn count_true(s: Seq<bool>) -> int
    decreases s.len(),
{
    if s.len() == 0 {
        0
    } else {
        count_true(s.drop_last()) + if s.last() {
            1int
        } else {
            0int
        }
    }
}

/// Setting an unset entry raises the count by one.
pub proof fn lemma_count_true_update(s: Seq<bool>, i: int)
    requires
        0 <= i < s.len(),
        !s[i],
    ensures
        count_true(s.update(i, true)) == count_true(s) + 1,
    decreases s.len(),
{
    let s2 = s.update(i, true);
    if i == s.len() - 1 {
        assert(s2.drop_last() =~= s.drop_last());
    } else {
        assert(s2.drop_last() =~= s.drop_last().update(i, true));
        assert(s2.last() == s.last());
        lemma_count_true_update(s.drop_last(), i);
    }
}

/// A pointwise-smaller mask has no larger count.
pub proof fn lemma_count_true_le(a: Seq<bool>, b: Seq<bool>)
    requires
        a.len() == b.len(),
        forall|i: int| 0 <= i < a.len() ==> (a[i] ==> #[trigger] b[i]),
    ensures
        count_true(a) <= count_true(b),
    decreases a.len(),
{
    if a.len() > 0 {
        assert(a.last() ==> b.last());
        lemma_count_true_le(a.drop_last(), b.drop_last());
    }
}

/// The count lies between zero and the mask length.
pub proof fn lemma_count_true_bound(s: Seq<bool>)
    ensures
        0 <= count_true(s) <= s.len(),
    decreases s.len(),
{
    if s.len() > 0 {
        lemma_count_true_bound(s.drop_last());
    }
}

/// Whether row `i` occurs in a ranked index list.
pub open spec fn in_result(r: Seq<(usize, u32)>, i: int) -> bool {
    exists|j: int| 0 <= j < r.len() && (#[trigger] r[j]).0 == i
}

/// What a correct top-k answer over allowed rows looks like: every entry
/// is an allowed row with its true score, entries strictly descend in
/// the ranking order, the list is as long as candidates and `k` permit,
/// and every entry beats every allowed row left out.
pub open spec fn top_k_post(
    e: Embeddings,
    q: Seq<u32>,
    qn: u32,
    k: int,
    allowed: Seq<bool>,
    r: Seq<(usize, u32)>,
) -> bool {
    &&& r.len() == (if k <= count_true(allowed) {
        k
    } else {
        count_true(allowed)
    })
    &&& forall|j: int|
        0 <= j < r.len() ==> 0 <= (#[trigger] r[j]).0 < allowed.len() && allowed[r[j].0 as int]
            && r[j].1 == score_of(e, q, qn, r[j].0 as int)
    &&& forall|j1: int, j2: int|
        0 <= j1 < j2 < r.len() ==> beats(
            (#[trigger] r[j1]).1,
            r[j1].0 as int,
            (#[trigger] r[j2]).1,
            r[j2].0 as int,
        )
    &&& forall|j: int, i: int|
        0 <= j < r.len() && 0 <= i < allowed.len() && (#[trigger] allowed[i]) && !in_result(r, i)
            ==> beats((#[trigger] r[j]).1, r[j].0 as int, score_of(e, q, qn, i), i)
}

/// Builds an all-false mask.
#[verifier::loop_isolation(false)]
fn falses(n: usize) -> (r: Vec<bool>)
    ensures
        r@.len() == n,
        forall|i: int| 0 <= i < n ==> !(#[trigger] r@[i]),
        count_true(r@) == 0,
{
    let mut out: Vec<bool> = Vec::new();
    let mut i: usize = 0;
    while i < n
        invariant
            i <= n,
            out@.len() == i,
            forall|j: int| 0 <= j < i ==> !(#[trigger] out@[j]),
            count_true(out@) == 0,
        decreases n - i,
    {
        let ghost before = out@;
        out.push(false);
        i = i + 1;
        proof {
            assert(out@.drop_last() =~= before);
        }
    }
    out
}

/// Computes the ranking score of every word row.
#[verifier::loop_isolation(false)]
fn all_scores(e: &Embeddings, q: &Vec<u32>, qn: u32) -> (r: Vec<u32>)
    requires
        e.wf(),
        q@.len() == e.storage.spec_dims(),
    ensures
        r@.len() == e.spec_words().len(),
        forall|i: int| 0 <= i < r@.len() ==> (#[trigger] r@[i]) == score_of(*e, q@, qn, i),
{
    let n = e.vocab.words_len();
    proof {
        assert(e.spec_words().len() <= e.vocab.spec_n_rows());
    }
    let mut out: Vec<u32> = Vec::new();
    let mut i: usize = 0;
    while i < n
        invariant
            i <= n,
            n <= e.storage.spec_rows(),
            out@.len() == i,
            forall|j: int| 0 <= j < i ==> (#[trigger] out@[j]) == score_of(*e, q@, qn, j),
        decreases n - i,
    {
        let row = self_row(e, i);
        let rn = match &e.norms {
            Some(cache) => cache.norm(i),
            None => norm(&row),
        };
        let s = cosine(q, qn, &row, rn);
        out.push(s);
        i = i + 1;
    }
    out
}

/// Copies word row `i` of the storage.
fn self_row(e: &Embeddings, i: usize) -> (r: Vec<u32>)
    requires
        e.wf(),
        i < e.storage.spec_rows(),
    ensures
        r@ == e.storage.row_of(i as int),
        r@.len() == e.storage.spec_dims(),
{
    proof {
        e.storage.lemma_row_len(i as int);
    }
    e.storage.row_copy(i)
}

/// Selects the top `k` allowed rows by descending score, ties to the
/// smaller row index.
#[verifier::loop_isolation(false)]
fn top_k(e: &Embeddings, q: &Vec<u32>, qn: u32, k: usize, allowed: &Vec<bool>) -> (r: Vec<
    (usize, u32),
>)
    requires
        e.wf(),
        q@.len() == e.storage.spec_dims(),
        allowed@.len() == e.spec_words().len(),
    ensures
        top_k_post(*e, q@, qn, k as int, allowed@, r@),
{
    let scores = all_scores(e, q, qn);
    let n = scores.len();
    let mut chosen = falses(n);
    let mut out: Vec<(usize, u32)> = Vec::new();
    let mut exhausted = false;
    proof {
        lemma_count_true_bound(allowed@);
    }
    while out.len() < k && !exhausted
        invariant
            exhausted ==> count_true(chosen@) == count_true(allowed@),
            n == allowed@.len(),
            scores@.len() == n,
            forall|i: int| 0 <= i < n ==> (#[trigger] scores@[i]) == score_of(*e, q@, qn, i),
            chosen@.len() == n,
            forall|i: int| 0 <= i < n ==> (#[trigger] chosen@[i] ==> allowed@[i]),
            out@.len() == count_true(chosen@),
            out@.len() <= k,
            forall|i: int| 0 <= i < n ==> ((#[trigger] chosen@[i]) <==> in_result(out@, i)),
            forall|j: int|
                0 <= j < out@.len() ==> 0 <= (#[trigger] out@[j]).0 < n && allowed@[out@[j].0 as int]
                    && out@[j].1 == score_of(*e, q@, qn, out@[j].0 as int),
            forall|j1: int, j2: int|
                0 <= j1 < j2 < out@.len() ==> beats(
                    (#[trigger] out@[j1]).1,
                    out@[j1].0 as int,
                    (#[trigger] out@[j2]).1,
                    out@[j2].0 as int,
                ),
            forall|j: int, i: int|
                0 <= j < out@.len() && 0 <= i < n && (#[trigger] allowed@[i]) && !chosen@[i]
                    ==> beats((#[trigger] out@[j]).1, out@[j].0 as int, score_of(*e, q@, qn, i), i),
        decreases k - out@.len() + (if exhausted {
            0int
        } else {
            1int
        }),
    {
        let mut best: Option<(usize, u32)> = None;
        let mut i: usize = 0;
        while i < n
            invariant
                i <= n,
                n == allowed@.len(),
                scores@.len() == n,
                chosen@.len() == n,
                forall|t: int| 0 <= t < n ==> (#[trigger] scores@[t]) == score_of(*e, q@, qn, t),
                match best {
                    Some(p) => {
                        &&& p.0 < i <= n
                        &&& allowed@[p.0 as int]
                        &&& !chosen@[p.0 as int]
                        &&& p.1 == score_of(*e, q@, qn, p.0 as int)
                        &&& forall|t: int|
                            0 <= t < i && (#[trigger] allowed@[t]) && !chosen@[t] && t != p.0
                                ==> beats(p.1, p.0 as int, score_of(*e, q@, qn, t), t)
                    },
                    None => forall|t: int| 0 <= t < i ==> !(allowed@[t] && !(#[trigger] chosen@[t])),
                },
            decreases n - i,
        {
            if allowed[i] && !chosen[i] {
                let take = match &best {
                    Some(p) => crate::scalar::score_beats(scores[i], i, p.1, p.0),
                    None => true,
                };
                if take {
                    best = Some((i, scores[i]));
                }
            }
            i = i + 1;
        }
        match best {
            Some(p) => {
                proof {
                    lemma_count_true_update(chosen@, p.0 as int);
                }
                let ghost old_out = out@;
                let ghost old_chosen = chosen@;
                out.push(p);
                chosen.set(p.0, true);
                proof {
                    assert(forall|i: int|
                        0 <= i < n && i != p.0 ==> chosen@[i] == old_chosen[i]);
                    assert forall|i: int| 0 <= i < n implies ((#[trigger] chosen@[i])
                        <==> in_result(out@, i)) by {
                        if i == p.0 {
                            assert(out@[out@.len() - 1].0 == i);
                            assert(in_result(out@, i));
                        } else {
                            if in_result(out@, i) {
                                let j = choose|j: int|
                                    0 <= j < out@.len() && (#[trigger] out@[j]).0 == i;
                                assert(j < old_out.len());
                                assert(old_out[j].0 == i);
                                assert(in_result(old_out, i));
                            }
                            if old_chosen[i] {
                                let j = choose|j: int|
                                    0 <= j < old_out.len() && (#[trigger] old_out[j]).0 == i;
                                assert(out@[j].0 == i);
                                assert(in_result(out@, i));
                            }
                        }
                    }
                }
            },
            None => {
                proof {
                    assert forall|i: int| 0 <= i < n implies ((#[trigger] chosen@[i])
                        == allowed@[i]) by {}
                    assert(chosen@ =~= allowed@);
                }
                exhausted = true;
            },
        }
    }
    proof {
        lemma_count_true_le(chosen@, allowed@);
    }
    out
}

/// One missing entry caps the count below the length.
pub proof fn lemma_count_true_missing(s: Seq<bool>, i: int)
    requires
        0 <= i < s.len(),
        !s[i],
    ensures
        count_true(s) <= s.len() - 1,
    decreases s.len(),
{
    if i == s.len() - 1 {
        lemma_count_true_bound(s.drop_last());
    } else {
        lemma_count_true_missing(s.drop_last(), i);
    }
}

/// The norm a word query is ranked with: the row's ranking norm for a
/// known word, the norm of the composed vector otherwise.
pub open spec fn word_query_norm_of(e: Embeddings, w: Seq<u8>) -> u32 {
    let ws = e.spec_words();
    if contains_word(ws, w) {
        rank_norm_of(e, word_index_of(ws, w))
    } else {
        match e.embedding_of(w) {
            Some(v) => norm_of(v),
            None => crate::scalar::ONE_BITS,
        }
    }
}

/// The candidate mask of a word-similarity query: every word row except
/// the query word's own row.
pub open spec fn word_sim_allowed(e: Embeddings, w: Seq<u8>) -> Seq<bool> {
    let ws = e.spec_words();
    Seq::new(ws.len(), |i: int| !(contains_word(ws, w) && i == word_index_of(ws, w)))
}

/// The candidate mask of an embedding-similarity query: every word row
/// whose word is not in the skip set.
pub open spec fn skip_allowed(e: Embeddings, skips: Seq<Seq<u8>>) -> Seq<bool> {
    let ws = e.spec_words();
    Seq::new(ws.len(), |i: int| !contains_word(skips, ws[i]))
}

/// The candidate mask of an analogy query: every word row except the
/// rows of the query words that the mask excludes.
pub open spec fn analogy_allowed(
    e: Embeddings,
    a: Seq<u8>,
    b: Seq<u8>,
    c: Seq<u8>,
    mask: (bool, bool, bool),
) -> Seq<bool> {
    let ws = e.spec_words();
    Seq::new(
        ws.len(),
        |i: int|
            {
                &&& !(mask.0 && contains_word(ws, a) && i == word_index_of(ws, a))
                &&& !(mask.1 && contains_word(ws, b) && i == word_index_of(ws, b))
                &&& !(mask.2 && contains_word(ws, c) && i == word_index_of(ws, c))
            },
    )
}

/// The analogy target vector `b - a + c` over the resolved embeddings.
pub open spec fn analogy_target_of(e: Embeddings, a: Seq<u8>, b: Seq<u8>, c: Seq<u8>) -> Seq<
    u32,
> {
    match (e.embedding_of(a), e.embedding_of(b), e.embedding_of(c)) {
        (Some(va), Some(vb), Some(vc)) => crate::vecmath::vadd_of(
            crate::vecmath::vsub_of(vb, va),
            vc,
        ),
        _ => Seq::empty(),
    }
}

/// The query words among `a`, `b`, `c` that cannot be resolved, in that
/// order.
pub open spec fn failed_words_of(e: Embeddings, a: Seq<u8>, b: Seq<u8>, c: Seq<u8>) -> Seq<
    Seq<u8>,
> {
    (if e.embedding_of(a) is None {
        seq![a]
    } else {
        Seq::empty()
    }) + (if e.embedding_of(b) is None {
        seq![b]
    } else {
        Seq::empty()
    }) + (if e.embedding_of(c) is None {
        seq![c]
    } else {
        Seq::empty()
    })
}

/// Whether some listed word names row `i`.
pub open spec fn word_listed(e: Embeddings, r: Seq<WordSimilarity>, i: int) -> bool {
    exists|j: int|
        0 <= j < r.len() && word_index_of(e.spec_words(), (#[trigger] r[j]).word@) == i
}

/// What a correct ranked answer looks like once rows are replaced by
/// their words: every entry is an allowed word row with its true score,
/// entries strictly descend in the ranking order, the list is as long as
/// candidates and `k` permit, and every entry beats every allowed row
/// whose word is not listed.
pub open spec fn ranking_post(
    e: Embeddings,
    q: Seq<u32>,
    qn: u32,
    k: int,
    allowed: Seq<bool>,
    r: Seq<WordSimilarity>,
) -> bool {
    let ws = e.spec_words();
    &&& r.len() == (if k <= count_true(allowed) {
        k
    } else {
        count_true(allowed)
    })
    &&& forall|j: int|
        0 <= j < r.len() ==> contains_word(ws, (#[trigger] r[j]).word@) && {
            let i = word_index_of(ws, r[j].word@);
            &&& 0 <= i < allowed.len()
            &&& allowed[i]
            &&& r[j].similarity == score_of(e, q, qn, i)
        }
    &&& forall|j1: int, j2: int|
        0 <= j1 < j2 < r.len() ==> beats(
            (#[trigger] r[j1]).similarity,
            word_index_of(ws, r[j1].word@),
            (#[trigger] r[j2]).similarity,
            word_index_of(ws, r[j2].word@),
        )
    &&& forall|j: int, i: int|
        0 <= j < r.len() && 0 <= i < allowed.len() && (#[trigger] allowed[i]) && !word_listed(
            e,
            r,
            i,
        ) ==> beats(
            (#[trigger] r[j]).similarity,
            word_index_of(ws, r[j].word@),
            score_of(e, q, qn, i),
            i,
        )
}

/// Replaces ranked rows by their words.
#[verifier::loop_isolation(false)]
fn to_results(e: &Embeddings, pairs: &Vec<(usize, u32)>) -> (r: Vec<WordSimilarity>)
    requires
        e.wf(),
        forall|j: int| 0 <= j < pairs@.len() ==> (#[trigger] pairs@[j]).0 < e.spec_words().len(),
    ensures
        r@.len() == pairs@.len(),
        forall|j: int|
            0 <= j < r@.len() ==> (#[trigger] r@[j]).word@ == e.spec_words()[pairs@[j].0 as int]
                && r@[j].similarity == pairs@[j].1,
{
    let mut out: Vec<WordSimilarity> = Vec::new();
    let mut j: usize = 0;
    while j < pairs.len()
        invariant
            j <= pairs@.len(),
            out@.len() == j,
            forall|t: int|
                0 <= t < j ==> (#[trigger] out@[t]).word@ == e.spec_words()[pairs@[t].0 as int]
                    && out@[t].similarity == pairs@[t].1,
        decreases pairs@.len() - j,
    {
        let i = pairs[j].0;
        let word = copy_bytes(e.vocab.word_at(i));
        out.push(WordSimilarity { word, similarity: pairs[j].1 });
        j = j + 1;
    }
    out
}

/// A ranked row list and its word list say the same thing: carrying the
/// rows over to words preserves the top-k answer.
proof fn lemma_results_post(
    e: Embeddings,
    q: Seq<u32>,
    qn: u32,
    k: int,
    allowed: Seq<bool>,
    pairs: Seq<(usize, u32)>,
    r: Seq<WordSimilarity>,
)
    requires
        e.wf(),
        allowed.len() == e.spec_words().len(),
        top_k_post(e, q, qn, k, allowed, pairs),
        r.len() == pairs.len(),
        forall|j: int|
            0 <= j < r.len() ==> (#[trigger] r[j]).word@ == e.spec_words()[pairs[j].0 as int]
                && r[j].similarity == pairs[j].1,
    ensures
        ranking_post(e, q, qn, k, allowed, r),
        forall|j: int|
            0 <= j < r.len() ==> word_index_of(e.spec_words(), (#[trigger] r[j]).word@)
                == pairs[j].0,
{
    let ws = e.spec_words();
    assert forall|j: int| 0 <= j < r.len() implies word_index_of(
        ws,
        (#[trigger] r[j]).word@,
    ) == pairs[j].0 && contains_word(ws, r[j].word@) by {
        crate::vocab::lemma_word_index(ws, r[j].word@, pairs[j].0 as int);
    }
    assert forall|i: int| 0 <= i < allowed.len() implies (word_listed(e, r, i) == in_result(
        pairs,
        i,
    )) by {
        if word_listed(e, r, i) {
            let j = choose|j: int|
                0 <= j < r.len() && word_index_of(ws, (#[trigger] r[j]).word@) == i;
            assert(pairs[j].0 == i);
            assert(in_result(pairs, i));
        }
        if in_result(pairs, i) {
            let j = choose|j: int| 0 <= j < pairs.len() && (#[trigger] pairs[j]).0 == i;
            assert(word_index_of(ws, r[j].word@) == i);
            assert(word_listed(e, r, i));
        }
    }
}

impl Embeddings {
    /// Ranks every other word by cosine similarity to a query word: the
    /// top `k` by descending score, ties to the smaller row, the query
    /// word itself excluded.  Needs viewable storage; fails with the
    /// unknown word named when it cannot be resolved.
    #[verifier::loop_isolation(false)]
    pub fn word_similarity(&self, w: &Vec<u8>, k: usize) -> (r: Result<Vec<WordSimilarity>, Error>)
        requires
            self.wf(),
        ensures
            match r {
                Ok(list) => {
                    &&& self.storage.spec_viewable()
                    &&& (match self.embedding_of(w@) {
                        Some(q) => ranking_post(
                            *self,
                            q,
                            word_query_norm_of(*self, w@),
                            k as int,
                            word_sim_allowed(*self, w@),
                            list@,
                        ),
                        None => false,
                    })
                    &&& (contains_word(self.spec_words(), w@) ==> list@.len()
                        <= self.spec_words().len() - 1 && forall|j: int|
                        0 <= j < list@.len() ==> (#[trigger] list@[j]).word@ != w@)
                },
                Err(Error::UnsupportedOperation) => !self.storage.spec_viewable(),
                Err(Error::UnknownWord { words }) => {
                    &&& self.storage.spec_viewable()
                    &&& self.embedding_of(w@) is None
                    &&& words@.len() == 1
                    &&& words@[0]@ == w@
                },
                Err(_) => false,
            },
    {
        let ghost ws = self.spec_words();
        if !self.storage.is_viewable() {
            return Err(Error::UnsupportedOperation);
        }
        let n = self.vocab.words_len();
        let (query, qn, exclude) = match self.vocab.get(w) {
            Some(crate::vocab::WordIndex::Word(i)) => {
                let row = self_row(self, i);
                let qn = match &self.norms {
                    Some(cache) => cache.norm(i),
                    None => norm(&row),
                };
                (row, qn, Some(i))
            },
            _ => match self.embedding(w) {
                Some(v) => {
                    let qn = norm(&v);
                    (v, qn, None)
                },
                None => {
                    let mut failed: Vec<Vec<u8>> = Vec::new();
                    failed.push(copy_bytes(w));
                    return Err(Error::UnknownWord { words: failed });
                },
            },
        };
        proof {
            assert(self.embedding_of(w@) == Some(query@));
            assert(qn == word_query_norm_of(*self, w@));
        }
        let mut allowed: Vec<bool> = Vec::new();
        let mut i: usize = 0;
        while i < n
            invariant
                i <= n,
                n == ws.len(),
                (match exclude {
                    Some(x) => contains_word(ws, w@) && x == word_index_of(ws, w@),
                    None => !contains_word(ws, w@),
                }),
                allowed@.len() == i,
                forall|t: int| 0 <= t < i ==> (#[trigger] allowed@[t]) == word_sim_allowed(
                    *self,
                    w@,
                )[t],
            decreases n - i,
        {
            let keep = match exclude {
                Some(x) => i != x,
                None => true,
            };
            allowed.push(keep);
            i = i + 1;
        }
        proof {
            assert(allowed@ =~= word_sim_allowed(*self, w@));
        }
        let pairs = top_k(self, &query, qn, k, &allowed);
        let list = to_results(self, &pairs);
        proof {
            lemma_results_post(
                *self,
                query@,
                qn,
                k as int,
                allowed@,
                pairs@,
                list@,
            );
            if contains_word(ws, w@) {
                let x = word_index_of(ws, w@);
                lemma_count_true_missing(allowed@, x);
                assert forall|j: int| 0 <= j < list@.len() implies (#[trigger] list@[j]).word@
                    != w@ by {
                    let i2 = word_index_of(ws, list@[j].word@);
                    assert(allowed@[i2]);
                    if list@[j].word@ == w@ {
                        assert(i2 == x);
                    }
                }
            }
        }
        Ok(list)
    }

    /// Ranks every word by cosine similarity to a caller-supplied query
    /// vector, skipping the given words.  Needs viewable storage; a
    /// query of the wrong dimensionality is rejected before any ranking.
    #[verifier::loop_isolation(false)]
    pub fn embedding_similarity(&self, query: &Vec<u32>, k: usize, skip: &Vec<Vec<u8>>) -> (r:
        Result<Vec<WordSimilarity>, Error>)
        requires
            self.wf(),
        ensures
            match r {
                Ok(list) => {
                    &&& self.storage.spec_viewable()
                    &&& query@.len() == self.storage.spec_dims()
                    &&& ranking_post(
                        *self,
                        query@,
                        norm_of(query@),
                        k as int,
                        skip_allowed(*self, crate::vocab::words_view(skip@)),
                        list@,
                    )
                    &&& forall|j: int|
                        0 <= j < list@.len() ==> !contains_word(
                            crate::vocab::words_view(skip@),
                            (#[trigger] list@[j]).word@,
                        )
                },
                Err(Error::UnsupportedOperation) => !self.storage.spec_viewable(),
                Err(Error::InvalidShape) => self.storage.spec_viewable() && query@.len()
                    != self.storage.spec_dims(),
                Err(_) => false,
            },
    {
        let ghost ws = self.spec_words();
        let ghost skips = crate::vocab::words_view(skip@);
        if !self.storage.is_viewable() {
            return Err(Error::UnsupportedOperation);
        }
        let (_, dims) = self.storage.shape();
        if query.len() != dims {
            return Err(Error::InvalidShape);
        }
        let qn = norm(query);
        let n = self.vocab.words_len();
        let mut allowed: Vec<bool> = Vec::new();
        let mut i: usize = 0;
        while i < n
            invariant
                i <= n,
                n == ws.len(),
                skips == crate::vocab::words_view(skip@),
                allowed@.len() == i,
                forall|t: int| 0 <= t < i ==> (#[trigger] allowed@[t]) == skip_allowed(
                    *self,
                    skips,
                )[t],
            decreases n - i,
        {
            let wi = self.vocab.word_at(i);
            let in_skip = match crate::vocab::find_word(skip, wi) {
                Some(_) => true,
                None => false,
            };
            allowed.push(!in_skip);
            i = i + 1;
        }
        proof {
            assert(allowed@ =~= skip_allowed(*self, skips));
        }
        let pairs = top_k(self, query, qn, k, &allowed);
        let list = to_results(self, &pairs);
        proof {
            lemma_results_post(*self, query@, qn, k as int, allowed@, pairs@, list@);
            assert forall|j: int| 0 <= j < list@.len() implies !contains_word(
                skips,
                (#[trigger] list@[j]).word@,
            ) by {
                let i2 = word_index_of(ws, list@[j].word@);
                assert(allowed@[i2]);
                assert(list@[j].word@ == ws[i2]);
            }
        }
        Ok(list)
    }

    /// Ranks words by cosine similarity to the analogy target
    /// `b - a + c`, excluding whichever of the three query words the
    /// mask excludes.  Needs viewable storage; fails naming every query
    /// word that cannot be resolved, not just the first.
    #[verifier::loop_isolation(false)]
    pub fn analogy(
        &self,
        a: &Vec<u8>,
        b: &Vec<u8>,
        c: &Vec<u8>,
        k: usize,
        mask: (bool, bool, bool),
    ) -> (r: Result<Vec<WordSimilarity>, Error>)
        requires
            self.wf(),
        ensures
            match r {
                Ok(list) => {
                    &&& self.storage.spec_viewable()
                    &&& self.embedding_of(a@) is Some
                    &&& self.embedding_of(b@) is Some
                    &&& self.embedding_of(c@) is Some
                    &&& ranking_post(
                        *self,
                        analogy_target_of(*self, a@, b@, c@),
                        norm_of(analogy_target_of(*self, a@, b@, c@)),
                        k as int,
                        analogy_allowed(*self, a@, b@, c@, mask),
                        list@,
                    )
                    &&& (mask.0 && contains_word(self.spec_words(), a@) ==> forall|j: int|
                        0 <= j < list@.len() ==> (#[trigger] list@[j]).word@ != a@)
                    &&& (mask.1 && contains_word(self.spec_words(), b@) ==> forall|j: int|
                        0 <= j < list@.len() ==> (#[trigger] list@[j]).word@ != b@)
                    &&& (mask.2 && contains_word(self.spec_words(), c@) ==> forall|j: int|
                        0 <= j < list@.len() ==> (#[trigger] list@[j]).word@ != c@)
                },
                Err(Error::UnsupportedOperation) => !self.storage.spec_viewable(),
                Err(Error::UnknownWord { words }) => {
                    &&& self.storage.spec_viewable()
                    &&& crate::vocab::words_view(words@) == failed_words_of(*self, a@, b@, c@)
                    &&& words@.len() >= 1
                },
                Err(_) => false,
            },
    {
        let ghost ws = self.spec_words();
        if !self.storage.is_viewable() {
            return Err(Error::UnsupportedOperation);
        }
        let va = self.embedding(a);
        let vb = self.embedding(b);
        let vc = self.embedding(c);
        let resolved = match (&va, &vb, &vc) {
            (Some(_), Some(_), Some(_)) => true,
            _ => false,
        };
        if !resolved {
            let mut failed: Vec<Vec<u8>> = Vec::new();
            if match &va {
                Some(_) => false,
                None => true,
            } {
                failed.push(copy_bytes(a));
            }
            if match &vb {
                Some(_) => false,
                None => true,
            } {
                failed.push(copy_bytes(b));
            }
            if match &vc {
                Some(_) => false,
                None => true,
            } {
                failed.push(copy_bytes(c));
            }
            proof {
                assert(crate::vocab::words_view(failed@) =~= failed_words_of(
                    *self,
                    a@,
                    b@,
                    c@,
                ));
            }
            return Err(Error::UnknownWord { words: failed });
        }
        let va = match va {
            Some(v) => v,
            None => Vec::new(),
        };
        let vb = match vb {
            Some(v) => v,
            None => Vec::new(),
        };
        let vc = match vc {
            Some(v) => v,
            None => Vec::new(),
        };
        let diff = crate::vecmath::vec_sub(&vb, &va);
        let target = crate::vecmath::vec_add(&diff, &vc);
        proof {
            assert(target@ == analogy_target_of(*self, a@, b@, c@));
            assert(target@.len() == self.storage.spec_dims());
        }
        let qn = norm(&target);
        let ia = match self.vocab.get(a) {
            Some(crate::vocab::WordIndex::Word(i)) => Some(i),
            _ => None,
        };
        let ib = match self.vocab.get(b) {
            Some(crate::vocab::WordIndex::Word(i)) => Some(i),
            _ => None,
        };
        let ic = match self.vocab.get(c) {
            Some(crate::vocab::WordIndex::Word(i)) => Some(i),
            _ => None,
        };
        let n = self.vocab.words_len();
        let mut allowed: Vec<bool> = Vec::new();
        let mut i: usize = 0;
        while i < n
            invariant
                i <= n,
                n == ws.len(),
                (match ia {
                    Some(x) => contains_word(ws, a@) && x == word_index_of(ws, a@),
                    None => !contains_word(ws, a@),
                }),
                (match ib {
                    Some(x) => contains_word(ws, b@) && x == word_index_of(ws, b@),
                    None => !contains_word(ws, b@),
                }),
                (match ic {
                    Some(x) => contains_word(ws, c@) && x == word_index_of(ws, c@),
                    None => !contains_word(ws, c@),
                }),
                allowed@.len() == i,
                forall|t: int| 0 <= t < i ==> (#[trigger] allowed@[t]) == analogy_allowed(
                    *self,
                    a@,
                    b@,
                    c@,
                    mask,
                )[t],
            decreases n - i,
        {
            let ex_a = mask.0 && (match ia {
                Some(x) => i == x,
                None => false,
            });
            let ex_b = mask.1 && (match ib {
                Some(x) => i == x,
                None => false,
            });
            let ex_c = mask.2 && (match ic {
                Some(x) => i == x,
                None => false,
            });
            allowed.push(!ex_a && !ex_b && !ex_c);
            i = i + 1;
        }
        proof {
            assert(allowed@ =~= analogy_allowed(*self, a@, b@, c@, mask));
        }
        let pairs = top_k(self, &target, qn, k, &allowed);
        let list = to_results(self, &pairs);
        proof {
            lemma_results_post(*self, target@, qn, k as int, allowed@, pairs@, list@);
            if mask.0 && contains_word(ws, a@) {
                assert forall|j: int| 0 <= j < list@.len() implies (#[trigger] list@[j]).word@
                    != a@ by {
                    let i2 = word_index_of(ws, list@[j].word@);
                    assert(allowed@[i2]);
                    if list@[j].word@ == a@ {
                        assert(i2 == word_index_of(ws, a@));
                    }
                }
            }
            if mask.1 && contains_word(ws, b@) {
                assert forall|j: int| 0 <= j < list@.len() implies (#[trigger] list@[j]).word@
                    != b@ by {
                    let i2 = word_index_of(ws, list@[j].word@);
                    assert(allowed@[i2]);
                    if list@[j].word@ == b@ {
                        assert(i2 == word_index_of(ws, b@));
                    }
                }
            }
            if mask.2 && contains_word(ws, c@) {
                assert forall|j: int| 0 <= j < list@.len() implies (#[trigger] list@[j]).word@
                    != c@ by {
                    let i2 = word_index_of(ws, list@[j].word@);
                    assert(allowed@[i2]);
                    if list@[j].word@ == c@ {
                        assert(i2 == word_index_of(ws, c@));
                    }
                }
            }
        }
        Ok(list)
    }
}

} // verus!
