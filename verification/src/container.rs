//! The native container format: one byte image holding the vocabulary,
//! the matrix, the optional norms and the optional metadata.
//!
//! The image of a store is a spec-level function of its fields; the
//! writer produces exactly that image, and a successful read yields a
//! well-formed store whose image is exactly the bytes that were read.

use vstd::bytes::lemma_auto_spec_u32_to_from_le_bytes;
use vstd::bytes::lemma_auto_spec_u64_to_from_le_bytes;
use vstd::bytes::spec_u32_to_le_bytes;
use vstd::bytes::spec_u64_to_le_bytes;
use vstd::bytes::u32_from_le_bytes;
use vstd::bytes::u32_to_le_bytes;
use vstd::bytes::u64_from_le_bytes;
use vstd::bytes::u64_to_le_bytes;
use vstd::prelude::*;
use vstd::slice::slice_subrange;

use crate::embeddings::Embeddings;
use crate::embeddings_wrap::EmbeddingsWrap;
use crate::metadata::Metadata;
use crate::storage::DenseStorage;
use crate::storage::NormCache;
use crate::storage::QuantizedStorage;
use crate::storage::StorageWrap;
use crate::vocab::words_view;
use crate::vocab::SimpleVocab;
use crate::vocab::SubwordVocab;
use crate::vocab::VocabWrap;
use crate::Error;

verus! {

/// The magic number that opens a container image.
pub const CONTAINER_MAGIC: u32 = 0x4653_4245;

/// The image of a word list: each word length-prefixed, in row order.
pub open spec fn words_image(ws: Seq<Seq<u8>>) -> Seq<u8>
    decreases ws.len(),
{
    if ws.len() == 0 {
        Seq::empty()
    } else {
        words_image(ws.drop_last()) + spec_u64_to_le_bytes(ws.last().len() as u64) + ws.last()
    }
}

/// The image of an array of components, each in little-endian order.
pub open spec fn u32s_image(xs: Seq<u32>) -> Seq<u8>
    decreases xs.len(),
{
    if xs.len() == 0 {
        Seq::empty()
    } else {
        u32s_image(xs.drop_last()) + spec_u32_to_le_bytes(xs.last())
    }
}

/// The image of a vocabulary: its kind tag, its hashing parameters for
/// the subword kind, and its words.
pub open spec fn vocab_image(v: VocabWrap) -> Seq<u8> {
    match v {
        VocabWrap::Simple(sv) => spec_u32_to_le_bytes(0) + spec_u64_to_le_bytes(
            sv.words@.len() as u64,
        ) + words_image(words_view(sv.words@)),
        VocabWrap::Subword(sv) => spec_u32_to_le_bytes(1) + spec_u64_to_le_bytes(
            sv.min_n as u64,
        ) + spec_u64_to_le_bytes(sv.max_n as u64) + spec_u32_to_le_bytes(sv.buckets_exp)
            + spec_u64_to_le_bytes(sv.words@.len() as u64) + words_image(words_view(sv.words@)),
    }
}

/// The image of the storage: its kind tag, its shape, and its tables.
pub open spec fn storage_image(s: StorageWrap) -> Seq<u8> {
    match s {
        StorageWrap::Dense(d) => spec_u32_to_le_bytes(0) + spec_u64_to_le_bytes(d.rows as u64)
            + spec_u64_to_le_bytes(d.dims as u64) + u32s_image(d.data@),
        StorageWrap::Quantized(q) => spec_u32_to_le_bytes(1) + spec_u64_to_le_bytes(
            q.rows as u64,
        ) + spec_u64_to_le_bytes(q.dims as u64) + spec_u64_to_le_bytes(q.n_segments as u64)
            + spec_u64_to_le_bytes(q.seg_len as u64) + spec_u64_to_le_bytes(q.n_centroids as u64)
            + u32s_image(q.centroids@) + q.codes@,
    }
}

/// The image of the optional norm cache: a presence flag, then the
/// norms.
pub open spec fn norms_image(n: Option<NormCache>) -> Seq<u8> {
    match n {
        None => spec_u32_to_le_bytes(0),
        Some(c) => spec_u32_to_le_bytes(1) + spec_u64_to_le_bytes(c.norms@.len() as u64)
            + u32s_image(c.norms@),
    }
}

/// The image of the optional metadata: a presence flag, then the
/// length-prefixed document bytes.
pub open spec fn metadata_image(m: Option<Metadata>) -> Seq<u8> {
    match m {
        None => spec_u32_to_le_bytes(0),
        Some(md) => spec_u32_to_le_bytes(1) + spec_u64_to_le_bytes(md.doc@.len() as u64)
            + md.doc@,
    }
}

/// The container image of a whole store.
pub open spec fn image_of(e: Embeddings) -> Seq<u8> {
    spec_u32_to_le_bytes(CONTAINER_MAGIC) + vocab_image(e.vocab) + storage_image(e.storage)
        + norms_image(e.norms) + metadata_image(e.metadata)
}

/// Appends bytes to the image being built.
#[verifier::loop_isolation(false)]
fn push_bytes(out: &mut Vec<u8>, b: &Vec<u8>)
    ensures
        final(out)@ == old(out)@ + b@,
{
    let mut i: usize = 0;
    while i < b.len()
        invariant
            i <= b@.len(),
            out@.len() == old(out)@.len() + i,
            out@ =~= old(out)@ + b@.take(i as int),
        decreases b@.len() - i,
    {
        out.push(b[i]);
        i = i + 1;
        proof {
            assert(out@ =~= old(out)@ + b@.take(i as int));
        }
    }
    proof {
        assert(b@.take(b@.len() as int) =~= b@);
    }
}

/// Appends one little-endian component.
fn push_u32(out: &mut Vec<u8>, x: u32)
    ensures
        final(out)@ == old(out)@ + spec_u32_to_le_bytes(x),
{
    let b = u32_to_le_bytes(x);
    push_bytes(out, &b);
}

/// Appends one little-endian eight-byte count.
fn push_u64(out: &mut Vec<u8>, x: u64)
    ensures
        final(out)@ == old(out)@ + spec_u64_to_le_bytes(x),
{
    let b = u64_to_le_bytes(x);
    push_bytes(out, &b);
}

/// Appends an array of components.
#[verifier::loop_isolation(false)]
fn push_u32s(out: &mut Vec<u8>, xs: &Vec<u32>)
    ensures
        final(out)@ == old(out)@ + u32s_image(xs@),
{
    let mut i: usize = 0;
    proof {
        assert(out@ =~= old(out)@ + u32s_image(xs@.take(0)));
    }
    while i < xs.len()
        invariant
            i <= xs@.len(),
            out@ == old(out)@ + u32s_image(xs@.take(i as int)),
        decreases xs@.len() - i,
    {
        push_u32(out, xs[i]);
        i = i + 1;
        proof {
            assert(xs@.take(i as int).drop_last() =~= xs@.take(i - 1));
            assert(out@ =~= old(out)@ + u32s_image(xs@.take(i as int)));
        }
    }
    proof {
        assert(xs@.take(xs@.len() as int) =~= xs@);
    }
}

/// Appends a word list, each word length-prefixed.
#[verifier::loop_isolation(false)]
fn push_words(out: &mut Vec<u8>, words: &Vec<Vec<u8>>)
    ensures
        final(out)@ == old(out)@ + words_image(words_view(words@)),
{
    let ghost ws = words_view(words@);
    let mut i: usize = 0;
    proof {
        assert(out@ =~= old(out)@ + words_image(ws.take(0)));
    }
    while i < words.len()
        invariant
            i <= words@.len(),
            ws == words_view(words@),
            out@ == old(out)@ + words_image(ws.take(i as int)),
        decreases words@.len() - i,
    {
        let w = &words[i];
        push_u64(out, w.len() as u64);
        push_bytes(out, w);
        i = i + 1;
        proof {
            assert(ws.take(i as int).drop_last() =~= ws.take(i - 1));
            assert(ws.take(i as int).last() == words@[i - 1]@);
            assert(out@ =~= old(out)@ + words_image(ws.take(i as int)));
        }
    }
    proof {
        assert(ws.take(ws.len() as int) =~= ws);
    }
}

impl Embeddings {
    /// Serializes the store to its container image.
    #[verifier::rlimit(60)]
    pub fn write_embeddings(&self) -> (r: Vec<u8>)
        requires
            self.wf(),
        ensures
            r@ == image_of(*self),
    {
        let mut out: Vec<u8> = Vec::new();
        push_u32(&mut out, CONTAINER_MAGIC);
        match &self.vocab {
            VocabWrap::Simple(sv) => {
                push_u32(&mut out, 0);
                push_u64(&mut out, sv.words.len() as u64);
                push_words(&mut out, &sv.words);
            },
            VocabWrap::Subword(sv) => {
                push_u32(&mut out, 1);
                push_u64(&mut out, sv.min_n as u64);
                push_u64(&mut out, sv.max_n as u64);
                push_u32(&mut out, sv.buckets_exp);
                push_u64(&mut out, sv.words.len() as u64);
                push_words(&mut out, &sv.words);
            },
        }
        proof {
            assert(out@ =~= spec_u32_to_le_bytes(CONTAINER_MAGIC) + vocab_image(self.vocab));
        }
        let ghost after_vocab = out@;
        match &self.storage {
            StorageWrap::Dense(d) => {
                push_u32(&mut out, 0);
                push_u64(&mut out, d.rows as u64);
                push_u64(&mut out, d.dims as u64);
                push_u32s(&mut out, &d.data);
            },
            StorageWrap::Quantized(q) => {
                push_u32(&mut out, 1);
                push_u64(&mut out, q.rows as u64);
                push_u64(&mut out, q.dims as u64);
                push_u64(&mut out, q.n_segments as u64);
                push_u64(&mut out, q.seg_len as u64);
                push_u64(&mut out, q.n_centroids as u64);
                push_u32s(&mut out, &q.centroids);
                push_bytes(&mut out, &q.codes);
            },
        }
        proof {
            assert(out@ =~= after_vocab + storage_image(self.storage));
        }
        let ghost after_storage = out@;
        match &self.norms {
            Some(c) => {
                push_u32(&mut out, 1);
                push_u64(&mut out, c.norms.len() as u64);
                push_u32s(&mut out, &c.norms);
            },
            None => {
                push_u32(&mut out, 0);
            },
        }
        proof {
            assert(out@ =~= after_storage + norms_image(self.norms));
        }
        let ghost after_norms = out@;
        match &self.metadata {
            Some(md) => {
                push_u32(&mut out, 1);
                push_u64(&mut out, md.doc.len() as u64);
                push_bytes(&mut out, &md.doc);
            },
            None => {
                push_u32(&mut out, 0);
            },
        }
        proof {
            assert(out@ =~= after_norms + metadata_image(self.metadata));
            assert(out@ =~= image_of(*self));
        }
        out
    }
}

/// Reads one little-endian component.
fn read_u32_at(b: &Vec<u8>, pos: usize) -> (r: Result<(u32, usize), Error>)
    ensures
        match r {
            Ok(p) => p.1 == pos + 4 && pos + 4 <= b@.len() && b@.subrange(pos as int, p.1 as int)
                == spec_u32_to_le_bytes(p.0),
            Err(e) => e == Error::IOError && pos + 4 > b@.len(),
        },
{
    let n = b.len();
    if pos <= n && n - pos >= 4 {
        let s = slice_subrange(b.as_slice(), pos, pos + 4);
        let x = u32_from_le_bytes(s);
        proof {
            lemma_auto_spec_u32_to_from_le_bytes();
            assert(spec_u32_to_le_bytes(x) =~= b@.subrange(pos as int, pos + 4));
        }
        Ok((x, pos + 4))
    } else {
        Err(Error::IOError)
    }
}

/// Reads one little-endian eight-byte count.
fn read_u64_at(b: &Vec<u8>, pos: usize) -> (r: Result<(u64, usize), Error>)
    ensures
        match r {
            Ok(p) => p.1 == pos + 8 && pos + 8 <= b@.len() && b@.subrange(pos as int, p.1 as int)
                == spec_u64_to_le_bytes(p.0),
            Err(e) => e == Error::IOError && pos + 8 > b@.len(),
        },
{
    let n = b.len();
    if pos <= n && n - pos >= 8 {
        let s = slice_subrange(b.as_slice(), pos, pos + 8);
        let x = u64_from_le_bytes(s);
        proof {
            lemma_auto_spec_u64_to_from_le_bytes();
            assert(spec_u64_to_le_bytes(x) =~= b@.subrange(pos as int, pos + 8));
        }
        Ok((x, pos + 8))
    } else {
        Err(Error::IOError)
    }
}

/// Reads a run of raw bytes.
fn read_bytes_at(b: &Vec<u8>, pos: usize, count: usize) -> (r: Result<(Vec<u8>, usize), Error>)
    ensures
        match r {
            Ok(p) => p.1 == pos + count && pos + count <= b@.len() && p.0@ == b@.subrange(
                pos as int,
                p.1 as int,
            ),
            Err(e) => e == Error::IOError && pos + count > b@.len(),
        },
{
    let n = b.len();
    if pos <= n && n - pos >= count {
        let s = slice_subrange(b.as_slice(), pos, pos + count);
        let v = vstd::slice::slice_to_vec(s);
        Ok((v, pos + count))
    } else {
        Err(Error::IOError)
    }
}

/// Reads an array of components.
#[verifier::loop_isolation(false)]
fn read_u32s_at(b: &Vec<u8>, pos: usize, count: usize) -> (r: Result<(Vec<u32>, usize), Error>)
    requires
        pos <= b@.len(),
    ensures
        match r {
            Ok(p) => p.0@.len() == count && pos <= p.1 <= b@.len() && b@.subrange(
                pos as int,
                p.1 as int,
            ) == u32s_image(p.0@),
            Err(e) => e == Error::IOError && pos + 4 * count > b@.len(),
        },
{
    let mut out: Vec<u32> = Vec::new();
    let mut cur: usize = pos;
    let mut i: usize = 0;
    proof {
        assert(b@.subrange(pos as int, pos as int) =~= u32s_image(out@));
    }
    while i < count
        invariant
            i <= count,
            pos <= cur <= b@.len(),
            cur == pos + 4 * i,
            out@.len() == i,
            b@.subrange(pos as int, cur as int) == u32s_image(out@),
        decreases count - i,
    {
        let (x, nxt) = match read_u32_at(b, cur) {
            Ok(p) => p,
            Err(e) => {
                return Err(e);
            },
        };
        let ghost before = out@;
        out.push(x);
        proof {
            assert(out@.drop_last() =~= before);
            assert(b@.subrange(pos as int, nxt as int) =~= b@.subrange(pos as int, cur as int)
                + b@.subrange(cur as int, nxt as int));
        }
        cur = nxt;
        i = i + 1;
    }
    Ok((out, cur))
}

/// Whether the bytes from `pos` on start with `count` length-prefixed
/// words of representable lengths.
spec fn words_ahead(b: Seq<u8>, pos: int, count: int) -> bool {
    exists|ws: Seq<Seq<u8>>, rest: Seq<u8>|
        {
            &&& ws.len() == count
            &&& (forall|i: int| 0 <= i < ws.len() ==> (#[trigger] ws[i]).len() <= usize::MAX)
            &&& b.subrange(pos, b.len() as int) == words_image(ws) + rest
        }
}

/// Reads a word list, each word length-prefixed.  Reading fails only
/// when the bytes ahead are not that many words.
#[verifier::loop_isolation(false)]
fn read_words_at(b: &Vec<u8>, pos: usize, count: usize) -> (r: Result<(Vec<Vec<u8>>, usize), Error>)
    requires
        pos <= b@.len(),
    ensures
        match r {
            Ok(p) => p.0@.len() == count && pos <= p.1 <= b@.len() && b@.subrange(
                pos as int,
                p.1 as int,
            ) == words_image(words_view(p.0@)),
            Err(e) => e == Error::IOError,
        },
        words_ahead(b@, pos as int, count as int) ==> r is Ok,
{
    proof {
        lemma_auto_spec_u32_to_from_le_bytes();
        lemma_auto_spec_u64_to_from_le_bytes();
    }
    let mut out: Vec<Vec<u8>> = Vec::new();
    let mut cur: usize = pos;
    let mut i: usize = 0;
    proof {
        assert(b@.subrange(pos as int, pos as int) =~= words_image(words_view(out@)));
    }
    while i < count
        invariant
            i <= count,
            pos <= cur <= b@.len(),
            out@.len() == i,
            b@.subrange(pos as int, cur as int) == words_image(words_view(out@)),
            words_ahead(b@, pos as int, count as int) ==> words_ahead(
                b@,
                cur as int,
                count - i,
            ),
        decreases count - i,
    {
        let ghost premise = words_ahead(b@, pos as int, count as int);
        proof {
            if premise {
                let (ws2, rest2) = choose|ws2: Seq<Seq<u8>>, rest2: Seq<u8>|
                    {
                        &&& ws2.len() == count - i
                        &&& (forall|t: int|
                            0 <= t < ws2.len() ==> (#[trigger] ws2[t]).len() <= usize::MAX)
                        &&& b@.subrange(cur as int, b@.len() as int) == words_image(ws2) + rest2
                    };
                lemma_words_image_first(ws2);
                assert(b@.subrange(cur as int, b@.len() as int) =~= spec_u64_to_le_bytes(
                    ws2.first().len() as u64,
                ) + (ws2.first() + (words_image(ws2.drop_first()) + rest2)));
                assert(b@.len() - cur >= 8);
            }
        }
        let (len64, p1) = match read_u64_at(b, cur) {
            Ok(p) => p,
            Err(e) => {
                return Err(e);
            },
        };
        proof {
            if premise {
                let (ws2, rest2) = choose|ws2: Seq<Seq<u8>>, rest2: Seq<u8>|
                    {
                        &&& ws2.len() == count - i
                        &&& (forall|t: int|
                            0 <= t < ws2.len() ==> (#[trigger] ws2[t]).len() <= usize::MAX)
                        &&& b@.subrange(cur as int, b@.len() as int) == words_image(ws2) + rest2
                    };
                lemma_words_image_first(ws2);
                let tail = ws2.first() + (words_image(ws2.drop_first()) + rest2);
                assert(b@.subrange(cur as int, b@.len() as int) =~= spec_u64_to_le_bytes(
                    ws2.first().len() as u64,
                ) + tail);
                assert(b@.subrange(cur as int, b@.len() as int) =~= spec_u64_to_le_bytes(len64)
                    + b@.subrange(p1 as int, b@.len() as int));
                lemma_split_u64(
                    len64,
                    b@.subrange(p1 as int, b@.len() as int),
                    ws2.first().len() as u64,
                    tail,
                );
                assert(len64 <= usize::MAX);
                assert(b@.len() - p1 >= ws2.first().len());
            }
        }
        if len64 > (usize::MAX as u64) {
            return Err(Error::IOError);
        }
        let wl = len64 as usize;
        let (w, p2) = match read_bytes_at(b, p1, wl) {
            Ok(p) => p,
            Err(e) => {
                return Err(e);
            },
        };
        let ghost before = out@;
        out.push(w);
        proof {
            assert(words_view(out@).drop_last() =~= words_view(before));
            assert(words_view(out@).last() == out@[out@.len() - 1]@);
            assert(b@.subrange(pos as int, p2 as int) =~= b@.subrange(pos as int, cur as int)
                + b@.subrange(cur as int, p1 as int) + b@.subrange(p1 as int, p2 as int));
            assert(b@.subrange(pos as int, p2 as int) =~= words_image(words_view(out@)));
            if premise {
                let (ws2, rest2) = choose|ws2: Seq<Seq<u8>>, rest2: Seq<u8>|
                    {
                        &&& ws2.len() == count - i
                        &&& (forall|t: int|
                            0 <= t < ws2.len() ==> (#[trigger] ws2[t]).len() <= usize::MAX)
                        &&& b@.subrange(cur as int, b@.len() as int) == words_image(ws2) + rest2
                    };
                lemma_words_image_first(ws2);
                let tail = ws2.first() + (words_image(ws2.drop_first()) + rest2);
                assert(b@.subrange(cur as int, b@.len() as int) =~= spec_u64_to_le_bytes(
                    ws2.first().len() as u64,
                ) + tail);
                assert(b@.subrange(cur as int, b@.len() as int) =~= spec_u64_to_le_bytes(len64)
                    + b@.subrange(p1 as int, b@.len() as int));
                lemma_split_u64(
                    len64,
                    b@.subrange(p1 as int, b@.len() as int),
                    ws2.first().len() as u64,
                    tail,
                );
                assert(b@.subrange(p1 as int, b@.len() as int) =~= w@ + b@.subrange(
                    p2 as int,
                    b@.len() as int,
                ));
                lemma_split_concat(
                    w@,
                    b@.subrange(p2 as int, b@.len() as int),
                    ws2.first(),
                    words_image(ws2.drop_first()) + rest2,
                );
                assert(words_ahead(b@, p2 as int, count - i - 1));
            }
        }
        cur = p2;
        i = i + 1;
    }
    Ok((out, cur))
}

/// Whether the bytes from `pos` on start with the image of some
/// well-formed vocabulary.
spec fn vocab_ahead(b: Seq<u8>, pos: int) -> bool {
    exists|v: VocabWrap, rest: Seq<u8>|
        v.wf() && b.subrange(pos, b.len() as int) == vocab_image(v) + rest
}

/// Under a vocabulary image, the kind tag read first matches the
/// variant, and the bytes after it decompose accordingly.
proof fn lemma_vocab_ahead_align(
    b: Seq<u8>,
    pos: int,
    kind: u32,
    p1: int,
    v: VocabWrap,
    rest: Seq<u8>,
)
    requires
        0 <= pos,
        p1 == pos + 4,
        p1 <= b.len(),
        b.subrange(pos, b.len() as int) == vocab_image(v) + rest,
        b.subrange(pos, p1) == spec_u32_to_le_bytes(kind),
    ensures
        match v {
            VocabWrap::Simple(sv) => kind == 0 && b.subrange(p1, b.len() as int)
                == spec_u64_to_le_bytes(sv.words@.len() as u64) + (words_image(
                words_view(sv.words@),
            ) + rest),
            VocabWrap::Subword(sv) => kind == 1 && b.subrange(p1, b.len() as int)
                == spec_u64_to_le_bytes(sv.min_n as u64) + (spec_u64_to_le_bytes(
                sv.max_n as u64,
            ) + (spec_u32_to_le_bytes(sv.buckets_exp) + (spec_u64_to_le_bytes(
                sv.words@.len() as u64,
            ) + (words_image(words_view(sv.words@)) + rest)))),
        },
{
    lemma_auto_spec_u32_to_from_le_bytes();
    lemma_auto_spec_u64_to_from_le_bytes();
    assert(b.subrange(pos, b.len() as int) =~= b.subrange(pos, p1) + b.subrange(
        p1,
        b.len() as int,
    ));
    match v {
        VocabWrap::Simple(sv) => {
            let t = spec_u64_to_le_bytes(sv.words@.len() as u64) + (words_image(
                words_view(sv.words@),
            ) + rest);
            assert(spec_u32_to_le_bytes(0) + t =~= vocab_image(v) + rest);
            lemma_split_u32(kind, b.subrange(p1, b.len() as int), 0, t);
        },
        VocabWrap::Subword(sv) => {
            let t = spec_u64_to_le_bytes(sv.min_n as u64) + (spec_u64_to_le_bytes(
                sv.max_n as u64,
            ) + (spec_u32_to_le_bytes(sv.buckets_exp) + (spec_u64_to_le_bytes(
                sv.words@.len() as u64,
            ) + (words_image(words_view(sv.words@)) + rest))));
            assert(spec_u32_to_le_bytes(1) + t =~= vocab_image(v) + rest);
            lemma_split_u32(kind, b.subrange(p1, b.len() as int), 1, t);
        },
    }
}

/// Reads the vocabulary section.  Reading fails only when the bytes
/// ahead are not the image of a well-formed vocabulary.
#[verifier::loop_isolation(false)]
#[verifier::rlimit(100)]
fn read_vocab_at(b: &Vec<u8>, pos: usize) -> (r: Result<(VocabWrap, usize), Error>)
    requires
        pos <= b@.len(),
    ensures
        match r {
            Ok(p) => p.0.wf() && pos <= p.1 <= b@.len() && b@.subrange(pos as int, p.1 as int)
                == vocab_image(p.0),
            Err(e) => e == Error::IOError,
        },
        vocab_ahead(b@, pos as int) ==> r is Ok,
{
    proof {
        lemma_auto_spec_u32_to_from_le_bytes();
        lemma_auto_spec_u64_to_from_le_bytes();
    }
    let ghost premise = vocab_ahead(b@, pos as int);
    let ghost gpair = choose|v: VocabWrap, rest: Seq<u8>|
        v.wf() && b@.subrange(pos as int, b@.len() as int) == vocab_image(v) + rest;
    let (kind, p1) = match read_u32_at(b, pos) {
        Ok(p) => p,
        Err(e) => {
            proof {
                if premise {
                    match gpair.0 {
                        VocabWrap::Simple(sv) => {
                            assert(b@.subrange(pos as int, b@.len() as int)
                                =~= spec_u32_to_le_bytes(0) + (spec_u64_to_le_bytes(
                                sv.words@.len() as u64,
                            ) + (words_image(words_view(sv.words@)) + gpair.1)));
                        },
                        VocabWrap::Subword(sv) => {
                            assert(b@.subrange(pos as int, b@.len() as int)
                                =~= spec_u32_to_le_bytes(1) + (spec_u64_to_le_bytes(
                                sv.min_n as u64,
                            ) + (spec_u64_to_le_bytes(sv.max_n as u64) + (spec_u32_to_le_bytes(
                                sv.buckets_exp,
                            ) + (spec_u64_to_le_bytes(sv.words@.len() as u64) + (words_image(
                                words_view(sv.words@),
                            ) + gpair.1))))));
                        },
                    }
                    assert(false);
                }
            }
            return Err(e);
        },
    };
    if kind == 0 {
        let (count64, p2) = match read_u64_at(b, p1) {
            Ok(p) => p,
            Err(e) => {
                proof {
                    if premise {
                        lemma_vocab_ahead_align(
                            b@,
                            pos as int,
                            kind,
                            p1 as int,
                            gpair.0,
                            gpair.1,
                        );
                        match gpair.0 {
                            VocabWrap::Simple(sv) => {
                                assert((spec_u64_to_le_bytes(sv.words@.len() as u64) + (
                                words_image(words_view(sv.words@)) + gpair.1)).len() >= 8);
                            },
                            VocabWrap::Subword(_) => {},
                        }
                        assert(false);
                    }
                }
                return Err(e);
            },
        };
        proof {
            if premise {
                lemma_vocab_ahead_align(b@, pos as int, kind, p1 as int, gpair.0, gpair.1);
                match gpair.0 {
                    VocabWrap::Simple(sv) => {
                        lemma_word_lens_bounded(sv.words);
                        assert(b@.subrange(p1 as int, b@.len() as int) =~= spec_u64_to_le_bytes(
                            count64,
                        ) + b@.subrange(p2 as int, b@.len() as int));
                        lemma_split_u64(
                            count64,
                            b@.subrange(p2 as int, b@.len() as int),
                            sv.words@.len() as u64,
                            words_image(words_view(sv.words@)) + gpair.1,
                        );
                        assert(count64 <= usize::MAX);
                        assert(words_ahead(b@, p2 as int, count64 as int));
                    },
                    VocabWrap::Subword(_) => {
                        assert(false);
                    },
                }
            }
        }
        if count64 > (usize::MAX as u64) {
            proof {
                if premise {
                    assert(false);
                }
            }
            return Err(Error::IOError);
        }
        let (words, p3) = match read_words_at(b, p2, count64 as usize) {
            Ok(p) => p,
            Err(e) => {
                proof {
                    if premise {
                        assert(false);
                    }
                }
                return Err(e);
            },
        };
        let sv = match SimpleVocab::new(words) {
            Ok(v) => v,
            Err(_) => {
                proof {
                    if premise {
                        match gpair.0 {
                            VocabWrap::Simple(sv0) => {
                                lemma_word_lens_bounded(sv0.words);
                                lemma_word_lens_bounded(words);
                                assert(b@.subrange(p2 as int, b@.len() as int) =~= words_image(
                                    words_view(words@),
                                ) + b@.subrange(p3 as int, b@.len() as int));
                                lemma_split_words(
                                    words_view(words@),
                                    b@.subrange(p3 as int, b@.len() as int),
                                    words_view(sv0.words@),
                                    gpair.1,
                                );
                            },
                            VocabWrap::Subword(_) => {},
                        }
                        assert(false);
                    }
                }
                return Err(Error::IOError);
            },
        };
        let v = VocabWrap::Simple(sv);
        proof {
            assert(b@.subrange(pos as int, p3 as int) =~= b@.subrange(pos as int, p1 as int)
                + b@.subrange(p1 as int, p2 as int) + b@.subrange(p2 as int, p3 as int));
            assert(b@.subrange(pos as int, p3 as int) =~= vocab_image(v));
        }
        Ok((v, p3))
    } else if kind == 1 {
        let (min64, p2) = match read_u64_at(b, p1) {
            Ok(p) => p,
            Err(e) => {
                proof {
                    if premise {
                        lemma_vocab_ahead_align(
                            b@,
                            pos as int,
                            kind,
                            p1 as int,
                            gpair.0,
                            gpair.1,
                        );
                        match gpair.0 {
                            VocabWrap::Subword(sv) => {
                                assert((spec_u64_to_le_bytes(sv.min_n as u64) + (
                                spec_u64_to_le_bytes(sv.max_n as u64) + (spec_u32_to_le_bytes(
                                    sv.buckets_exp,
                                ) + (spec_u64_to_le_bytes(sv.words@.len() as u64) + (
                                words_image(words_view(sv.words@)) + gpair.1))))).len() >= 8);
                            },
                            VocabWrap::Simple(_) => {},
                        }
                        assert(false);
                    }
                }
                return Err(e);
            },
        };
        let (max64, p3) = match read_u64_at(b, p2) {
            Ok(p) => p,
            Err(e) => {
                proof {
                    if premise {
                        lemma_vocab_ahead_align(
                            b@,
                            pos as int,
                            kind,
                            p1 as int,
                            gpair.0,
                            gpair.1,
                        );
                        match gpair.0 {
                            VocabWrap::Subword(sv) => {
                                lemma_subword_tail_align(b@, p1 as int, min64, p2 as int, sv, gpair.1);
                            },
                            VocabWrap::Simple(_) => {},
                        }
                        assert(false);
                    }
                }
                return Err(e);
            },
        };
        let (bexp, p4) = match read_u32_at(b, p3) {
            Ok(p) => p,
            Err(e) => {
                proof {
                    if premise {
                        lemma_vocab_ahead_align(
                            b@,
                            pos as int,
                            kind,
                            p1 as int,
                            gpair.0,
                            gpair.1,
                        );
                        match gpair.0 {
                            VocabWrap::Subword(sv) => {
                                lemma_subword_tail_align(b@, p1 as int, min64, p2 as int, sv, gpair.1);
                                lemma_subword_tail_align2(b@, p2 as int, max64, p3 as int, sv, gpair.1);
                            },
                            VocabWrap::Simple(_) => {},
                        }
                        assert(false);
                    }
                }
                return Err(e);
            },
        };
        let (count64, p5) = match read_u64_at(b, p4) {
            Ok(p) => p,
            Err(e) => {
                proof {
                    if premise {
                        lemma_vocab_ahead_align(
                            b@,
                            pos as int,
                            kind,
                            p1 as int,
                            gpair.0,
                            gpair.1,
                        );
                        match gpair.0 {
                            VocabWrap::Subword(sv) => {
                                lemma_subword_tail_align(b@, p1 as int, min64, p2 as int, sv, gpair.1);
                                lemma_subword_tail_align2(b@, p2 as int, max64, p3 as int, sv, gpair.1);
                                lemma_subword_tail_align3(b@, p3 as int, bexp, p4 as int, sv, gpair.1);
                            },
                            VocabWrap::Simple(_) => {},
                        }
                        assert(false);
                    }
                }
                return Err(e);
            },
        };
        proof {
            if premise {
                lemma_vocab_ahead_align(b@, pos as int, kind, p1 as int, gpair.0, gpair.1);
                match gpair.0 {
                    VocabWrap::Subword(sv) => {
                        lemma_word_lens_bounded(sv.words);
                        lemma_subword_tail_align(b@, p1 as int, min64, p2 as int, sv, gpair.1);
                        lemma_subword_tail_align2(b@, p2 as int, max64, p3 as int, sv, gpair.1);
                        lemma_subword_tail_align3(b@, p3 as int, bexp, p4 as int, sv, gpair.1);
                        lemma_subword_tail_align4(b@, p4 as int, count64, p5 as int, sv, gpair.1);
                        assert(min64 <= usize::MAX && max64 <= usize::MAX && count64
                            <= usize::MAX);
                        assert(words_ahead(b@, p5 as int, count64 as int));
                    },
                    VocabWrap::Simple(_) => {
                        assert(false);
                    },
                }
            }
        }
        if min64 > (usize::MAX as u64) || max64 > (usize::MAX as u64) || count64 > (usize::MAX
            as u64) {
            proof {
                if premise {
                    assert(false);
                }
            }
            return Err(Error::IOError);
        }
        let (words, p6) = match read_words_at(b, p5, count64 as usize) {
            Ok(p) => p,
            Err(e) => {
                proof {
                    if premise {
                        assert(false);
                    }
                }
                return Err(e);
            },
        };
        let sv = match SubwordVocab::new(words, min64 as usize, max64 as usize, bexp) {
            Ok(v) => v,
            Err(_) => {
                proof {
                    if premise {
                        match gpair.0 {
                            VocabWrap::Subword(sv0) => {
                                lemma_word_lens_bounded(sv0.words);
                                lemma_word_lens_bounded(words);
                                assert(b@.subrange(p5 as int, b@.len() as int) =~= words_image(
                                    words_view(words@),
                                ) + b@.subrange(p6 as int, b@.len() as int));
                                lemma_split_words(
                                    words_view(words@),
                                    b@.subrange(p6 as int, b@.len() as int),
                                    words_view(sv0.words@),
                                    gpair.1,
                                );
                            },
                            VocabWrap::Simple(_) => {},
                        }
                        assert(false);
                    }
                }
                return Err(Error::IOError);
            },
        };
        let v = VocabWrap::Subword(sv);
        proof {
            assert(b@.subrange(pos as int, p6 as int) =~= b@.subrange(pos as int, p1 as int)
                + b@.subrange(p1 as int, p2 as int) + b@.subrange(p2 as int, p3 as int)
                + b@.subrange(p3 as int, p4 as int) + b@.subrange(p4 as int, p5 as int)
                + b@.subrange(p5 as int, p6 as int));
            assert(b@.subrange(pos as int, p6 as int) =~= vocab_image(v));
        }
        Ok((v, p6))
    } else {
        proof {
            if premise {
                lemma_vocab_ahead_align(b@, pos as int, kind, p1 as int, gpair.0, gpair.1);
                assert(false);
            }
        }
        Err(Error::IOError)
    }
}

/// Under a subword image, the first eight bytes after the kind tag are
/// the shortest n-gram length.
proof fn lemma_subword_tail_align(
    b: Seq<u8>,
    p1: int,
    min64: u64,
    p2: int,
    sv: SubwordVocab,
    rest: Seq<u8>,
)
    requires
        0 <= p1,
        p2 == p1 + 8,
        p2 <= b.len(),
        b.subrange(p1, b.len() as int) == spec_u64_to_le_bytes(sv.min_n as u64) + (
        spec_u64_to_le_bytes(sv.max_n as u64) + (spec_u32_to_le_bytes(sv.buckets_exp) + (
        spec_u64_to_le_bytes(sv.words@.len() as u64) + (words_image(words_view(sv.words@))
            + rest)))),
        b.subrange(p1, p2) == spec_u64_to_le_bytes(min64),
    ensures
        min64 == sv.min_n as u64,
        b.subrange(p2, b.len() as int) == spec_u64_to_le_bytes(sv.max_n as u64) + (
        spec_u32_to_le_bytes(sv.buckets_exp) + (spec_u64_to_le_bytes(sv.words@.len() as u64) + (
        words_image(words_view(sv.words@)) + rest))),
{
    lemma_auto_spec_u64_to_from_le_bytes();
    assert(b.subrange(p1, b.len() as int) =~= b.subrange(p1, p2) + b.subrange(
        p2,
        b.len() as int,
    ));
    lemma_split_u64(
        min64,
        b.subrange(p2, b.len() as int),
        sv.min_n as u64,
        spec_u64_to_le_bytes(sv.max_n as u64) + (spec_u32_to_le_bytes(sv.buckets_exp) + (
        spec_u64_to_le_bytes(sv.words@.len() as u64) + (words_image(words_view(sv.words@))
            + rest))),
    );
}

/// Under a subword image, the next eight bytes are the longest n-gram
/// length.
proof fn lemma_subword_tail_align2(
    b: Seq<u8>,
    p2: int,
    max64: u64,
    p3: int,
    sv: SubwordVocab,
    rest: Seq<u8>,
)
    requires
        0 <= p2,
        p3 == p2 + 8,
        p3 <= b.len(),
        b.subrange(p2, b.len() as int) == spec_u64_to_le_bytes(sv.max_n as u64) + (
        spec_u32_to_le_bytes(sv.buckets_exp) + (spec_u64_to_le_bytes(sv.words@.len() as u64) + (
        words_image(words_view(sv.words@)) + rest))),
        b.subrange(p2, p3) == spec_u64_to_le_bytes(max64),
    ensures
        max64 == sv.max_n as u64,
        b.subrange(p3, b.len() as int) == spec_u32_to_le_bytes(sv.buckets_exp) + (
        spec_u64_to_le_bytes(sv.words@.len() as u64) + (words_image(words_view(sv.words@))
            + rest)),
{
    lemma_auto_spec_u64_to_from_le_bytes();
    assert(b.subrange(p2, b.len() as int) =~= b.subrange(p2, p3) + b.subrange(
        p3,
        b.len() as int,
    ));
    lemma_split_u64(
        max64,
        b.subrange(p3, b.len() as int),
        sv.max_n as u64,
        spec_u32_to_le_bytes(sv.buckets_exp) + (spec_u64_to_le_bytes(sv.words@.len() as u64) + (
        words_image(words_view(sv.words@)) + rest)),
    );
}

/// Under a subword image, the next four bytes are the bucket exponent.
proof fn lemma_subword_tail_align3(
    b: Seq<u8>,
    p3: int,
    bexp: u32,
    p4: int,
    sv: SubwordVocab,
    rest: Seq<u8>,
)
    requires
        0 <= p3,
        p4 == p3 + 4,
        p4 <= b.len(),
        b.subrange(p3, b.len() as int) == spec_u32_to_le_bytes(sv.buckets_exp) + (
        spec_u64_to_le_bytes(sv.words@.len() as u64) + (words_image(words_view(sv.words@))
            + rest)),
        b.subrange(p3, p4) == spec_u32_to_le_bytes(bexp),
    ensures
        bexp == sv.buckets_exp,
        b.subrange(p4, b.len() as int) == spec_u64_to_le_bytes(sv.words@.len() as u64) + (
        words_image(words_view(sv.words@)) + rest),
{
    lemma_auto_spec_u32_to_from_le_bytes();
    assert(b.subrange(p3, b.len() as int) =~= b.subrange(p3, p4) + b.subrange(
        p4,
        b.len() as int,
    ));
    lemma_split_u32(
        bexp,
        b.subrange(p4, b.len() as int),
        sv.buckets_exp,
        spec_u64_to_le_bytes(sv.words@.len() as u64) + (words_image(words_view(sv.words@))
            + rest),
    );
}

/// Under a subword image, the next eight bytes are the word count.
proof fn lemma_subword_tail_align4(
    b: Seq<u8>,
    p4: int,
    count64: u64,
    p5: int,
    sv: SubwordVocab,
    rest: Seq<u8>,
)
    requires
        0 <= p4,
        p5 == p4 + 8,
        p5 <= b.len(),
        b.subrange(p4, b.len() as int) == spec_u64_to_le_bytes(sv.words@.len() as u64) + (
        words_image(words_view(sv.words@)) + rest),
        b.subrange(p4, p5) == spec_u64_to_le_bytes(count64),
    ensures
        count64 == sv.words@.len() as u64,
        b.subrange(p5, b.len() as int) == words_image(words_view(sv.words@)) + rest,
{
    lemma_auto_spec_u64_to_from_le_bytes();
    assert(b.subrange(p4, b.len() as int) =~= b.subrange(p4, p5) + b.subrange(
        p5,
        b.len() as int,
    ));
    lemma_split_u64(
        count64,
        b.subrange(p5, b.len() as int),
        sv.words@.len() as u64,
        words_image(words_view(sv.words@)) + rest,
    );
}

/// Stripping a known eight-byte head off an aligned tail.
proof fn lemma_strip_u64(b: Seq<u8>, p: int, x: u64, q: int, y: u64, t: Seq<u8>)
    requires
        0 <= p,
        q == p + 8,
        q <= b.len(),
        b.subrange(p, b.len() as int) == spec_u64_to_le_bytes(y) + t,
        b.subrange(p, q) == spec_u64_to_le_bytes(x),
    ensures
        x == y,
        b.subrange(q, b.len() as int) == t,
{
    lemma_auto_spec_u64_to_from_le_bytes();
    assert(b.subrange(p, b.len() as int) =~= b.subrange(p, q) + b.subrange(q, b.len() as int));
    lemma_split_u64(x, b.subrange(q, b.len() as int), y, t);
}

/// Stripping a known four-byte head off an aligned tail.
proof fn lemma_strip_u32(b: Seq<u8>, p: int, x: u32, q: int, y: u32, t: Seq<u8>)
    requires
        0 <= p,
        q == p + 4,
        q <= b.len(),
        b.subrange(p, b.len() as int) == spec_u32_to_le_bytes(y) + t,
        b.subrange(p, q) == spec_u32_to_le_bytes(x),
    ensures
        x == y,
        b.subrange(q, b.len() as int) == t,
{
    lemma_auto_spec_u32_to_from_le_bytes();
    assert(b.subrange(p, b.len() as int) =~= b.subrange(p, q) + b.subrange(q, b.len() as int));
    lemma_split_u32(x, b.subrange(q, b.len() as int), y, t);
}

/// Whether the bytes from `pos` on start with the image of some
/// well-formed storage with at least one component per row.
spec fn storage_ahead(b: Seq<u8>, pos: int) -> bool {
    exists|s: StorageWrap, rest: Seq<u8>|
        s.wf() && s.spec_dims() >= 1 && b.subrange(pos, b.len() as int) == storage_image(s)
            + rest
}

/// Under a storage image, the kind tag read first matches the variant,
/// and the bytes after it decompose accordingly.
proof fn lemma_storage_ahead_align(
    b: Seq<u8>,
    pos: int,
    kind: u32,
    p1: int,
    s: StorageWrap,
    rest: Seq<u8>,
)
    requires
        0 <= pos,
        p1 == pos + 4,
        p1 <= b.len(),
        b.subrange(pos, b.len() as int) == storage_image(s) + rest,
        b.subrange(pos, p1) == spec_u32_to_le_bytes(kind),
    ensures
        match s {
            StorageWrap::Dense(d) => kind == 0 && b.subrange(p1, b.len() as int)
                == spec_u64_to_le_bytes(d.rows as u64) + (spec_u64_to_le_bytes(d.dims as u64) + (
            u32s_image(d.data@) + rest)),
            StorageWrap::Quantized(q) => kind == 1 && b.subrange(p1, b.len() as int)
                == spec_u64_to_le_bytes(q.rows as u64) + (spec_u64_to_le_bytes(q.dims as u64) + (
            spec_u64_to_le_bytes(q.n_segments as u64) + (spec_u64_to_le_bytes(q.seg_len as u64)
                + (spec_u64_to_le_bytes(q.n_centroids as u64) + (u32s_image(q.centroids@) + (
            q.codes@ + rest)))))),
        },
{
    lemma_auto_spec_u32_to_from_le_bytes();
    lemma_auto_spec_u64_to_from_le_bytes();
    assert(b.subrange(pos, b.len() as int) =~= b.subrange(pos, p1) + b.subrange(
        p1,
        b.len() as int,
    ));
    match s {
        StorageWrap::Dense(d) => {
            let t = spec_u64_to_le_bytes(d.rows as u64) + (spec_u64_to_le_bytes(d.dims as u64)
                + (u32s_image(d.data@) + rest));
            assert(spec_u32_to_le_bytes(0) + t =~= storage_image(s) + rest);
            lemma_split_u32(kind, b.subrange(p1, b.len() as int), 0, t);
        },
        StorageWrap::Quantized(q) => {
            let t = spec_u64_to_le_bytes(q.rows as u64) + (spec_u64_to_le_bytes(q.dims as u64)
                + (spec_u64_to_le_bytes(q.n_segments as u64) + (spec_u64_to_le_bytes(
                q.seg_len as u64,
            ) + (spec_u64_to_le_bytes(q.n_centroids as u64) + (u32s_image(q.centroids@) + (
            q.codes@ + rest))))));
            assert(spec_u32_to_le_bytes(1) + t =~= storage_image(s) + rest);
            lemma_split_u32(kind, b.subrange(p1, b.len() as int), 1, t);
        },
    }
}

/// Reads the storage section.  Reading fails only when the bytes ahead
/// are not the image of a well-formed storage with at least one
/// component per row.
#[verifier::loop_isolation(false)]
#[verifier::rlimit(100)]
fn read_storage_at(b: &Vec<u8>, pos: usize) -> (r: Result<(StorageWrap, usize), Error>)
    requires
        pos <= b@.len(),
    ensures
        match r {
            Ok(p) => p.0.wf() && pos <= p.1 <= b@.len() && b@.subrange(pos as int, p.1 as int)
                == storage_image(p.0),
            Err(e) => e == Error::IOError,
        },
        storage_ahead(b@, pos as int) ==> r is Ok,
{
    proof {
        lemma_auto_spec_u32_to_from_le_bytes();
        lemma_auto_spec_u64_to_from_le_bytes();
    }
    let ghost premise = storage_ahead(b@, pos as int);
    let ghost gpair = choose|s: StorageWrap, rest: Seq<u8>|
        s.wf() && s.spec_dims() >= 1 && b@.subrange(pos as int, b@.len() as int)
            == storage_image(s) + rest;
    proof {
        if premise {
            match gpair.0 {
                StorageWrap::Dense(d) => {
                    assert((spec_u32_to_le_bytes(0) + (spec_u64_to_le_bytes(d.rows as u64) + (
                    spec_u64_to_le_bytes(d.dims as u64) + (u32s_image(d.data@)
                        + gpair.1)))).len() >= 20);
                    assert(b@.subrange(pos as int, b@.len() as int) =~= spec_u32_to_le_bytes(0)
                        + (spec_u64_to_le_bytes(d.rows as u64) + (spec_u64_to_le_bytes(
                        d.dims as u64,
                    ) + (u32s_image(d.data@) + gpair.1))));
                },
                StorageWrap::Quantized(q) => {
                    assert((spec_u32_to_le_bytes(1) + (spec_u64_to_le_bytes(q.rows as u64) + (
                    spec_u64_to_le_bytes(q.dims as u64) + (spec_u64_to_le_bytes(
                        q.n_segments as u64,
                    ) + (spec_u64_to_le_bytes(q.seg_len as u64) + (spec_u64_to_le_bytes(
                        q.n_centroids as u64,
                    ) + (u32s_image(q.centroids@) + (q.codes@ + gpair.1)))))))).len() >= 20);
                    assert(b@.subrange(pos as int, b@.len() as int) =~= spec_u32_to_le_bytes(1)
                        + (spec_u64_to_le_bytes(q.rows as u64) + (spec_u64_to_le_bytes(
                        q.dims as u64,
                    ) + (spec_u64_to_le_bytes(q.n_segments as u64) + (spec_u64_to_le_bytes(
                        q.seg_len as u64,
                    ) + (spec_u64_to_le_bytes(q.n_centroids as u64) + (u32s_image(q.centroids@)
                        + (q.codes@ + gpair.1))))))));
                },
            }
            assert(b@.len() - pos >= 20);
        }
    }
    let (kind, p1) = match read_u32_at(b, pos) {
        Ok(p) => p,
        Err(e) => {
            proof {
                if premise {
                    assert(false);
                }
            }
            return Err(e);
        },
    };
    let (rows64, p2) = match read_u64_at(b, p1) {
        Ok(p) => p,
        Err(e) => {
            proof {
                if premise {
                    assert(false);
                }
            }
            return Err(e);
        },
    };
    let (dims64, p3) = match read_u64_at(b, p2) {
        Ok(p) => p,
        Err(e) => {
            proof {
                if premise {
                    assert(false);
                }
            }
            return Err(e);
        },
    };
    if rows64 > (usize::MAX as u64) || dims64 > (usize::MAX as u64) {
        proof {
            if premise {
                lemma_storage_ahead_align(b@, pos as int, kind, p1 as int, gpair.0, gpair.1);
                match gpair.0 {
                    StorageWrap::Dense(d) => {
                        lemma_strip_u64(
                            b@,
                            p1 as int,
                            rows64,
                            p2 as int,
                            d.rows as u64,
                            spec_u64_to_le_bytes(d.dims as u64) + (u32s_image(d.data@)
                                + gpair.1),
                        );
                        lemma_strip_u64(
                            b@,
                            p2 as int,
                            dims64,
                            p3 as int,
                            d.dims as u64,
                            u32s_image(d.data@) + gpair.1,
                        );
                    },
                    StorageWrap::Quantized(q) => {
                        lemma_strip_u64(
                            b@,
                            p1 as int,
                            rows64,
                            p2 as int,
                            q.rows as u64,
                            spec_u64_to_le_bytes(q.dims as u64) + (spec_u64_to_le_bytes(
                                q.n_segments as u64,
                            ) + (spec_u64_to_le_bytes(q.seg_len as u64) + (spec_u64_to_le_bytes(
                                q.n_centroids as u64,
                            ) + (u32s_image(q.centroids@) + (q.codes@ + gpair.1))))),
                        );
                        lemma_strip_u64(
                            b@,
                            p2 as int,
                            dims64,
                            p3 as int,
                            q.dims as u64,
                            spec_u64_to_le_bytes(q.n_segments as u64) + (spec_u64_to_le_bytes(
                                q.seg_len as u64,
                            ) + (spec_u64_to_le_bytes(q.n_centroids as u64) + (u32s_image(
                                q.centroids@,
                            ) + (q.codes@ + gpair.1)))),
                        );
                    },
                }
                assert(false);
            }
        }
        return Err(Error::IOError);
    }
    let rows = rows64 as usize;
    let dims = dims64 as usize;
    if kind == 0 {
        proof {
            if premise {
                lemma_storage_ahead_align(b@, pos as int, kind, p1 as int, gpair.0, gpair.1);
                match gpair.0 {
                    StorageWrap::Dense(d) => {
                        vstd::std_specs::vec::axiom_spec_len(&d.data);
                        lemma_strip_u64(
                            b@,
                            p1 as int,
                            rows64,
                            p2 as int,
                            d.rows as u64,
                            spec_u64_to_le_bytes(d.dims as u64) + (u32s_image(d.data@)
                                + gpair.1),
                        );
                        lemma_strip_u64(
                            b@,
                            p2 as int,
                            dims64,
                            p3 as int,
                            d.dims as u64,
                            u32s_image(d.data@) + gpair.1,
                        );
                        lemma_u32s_image_len(d.data@);
                        assert(rows == d.rows && dims == d.dims);
                        assert(dims >= 1);
                        assert(rows * dims == d.data@.len()) by (nonlinear_arith)
                            requires
                                rows == d.rows && dims == d.dims && d.data@.len() == d.rows
                                    * d.dims,
                        ;
                        assert(rows <= usize::MAX / dims) by (nonlinear_arith)
                            requires
                                dims >= 1 && rows * dims <= usize::MAX && rows >= 0 && dims
                                    >= 0,
                        ;
                        assert(b@.len() - p3 >= 4 * (rows * dims));
                    },
                    StorageWrap::Quantized(_) => {
                        assert(false);
                    },
                }
            }
        }
        if dims != 0 && rows > usize::MAX / dims {
            proof {
                if premise {
                    assert(false);
                }
            }
            return Err(Error::IOError);
        }
        proof {
            if dims != 0 {
                assert(rows * dims <= usize::MAX) by (nonlinear_arith)
                    requires
                        dims != 0 && rows <= usize::MAX / dims && rows >= 0 && dims >= 0,
                ;
            }
        }
        let count: usize = if dims == 0 {
            0
        } else {
            rows * dims
        };
        if dims == 0 && rows != 0 {
            proof {
                if premise {
                    assert(false);
                }
            }
            return Err(Error::IOError);
        }
        let (data, p4) = match read_u32s_at(b, p3, count) {
            Ok(p) => p,
            Err(e) => {
                proof {
                    if premise {
                        assert(false);
                    }
                }
                return Err(e);
            },
        };
        let d = match DenseStorage::new(rows, dims, data) {
            Ok(v) => v,
            Err(_) => {
                proof {
                    assert(false);
                }
                return Err(Error::IOError);
            },
        };
        let s = StorageWrap::Dense(d);
        proof {
            assert(b@.subrange(pos as int, p4 as int) =~= b@.subrange(pos as int, p1 as int)
                + b@.subrange(p1 as int, p2 as int) + b@.subrange(p2 as int, p3 as int)
                + b@.subrange(p3 as int, p4 as int));
            assert(b@.subrange(pos as int, p4 as int) =~= storage_image(s));
        }
        Ok((s, p4))
    } else if kind == 1 {
        proof {
            if premise {
                lemma_storage_ahead_align(b@, pos as int, kind, p1 as int, gpair.0, gpair.1);
                match gpair.0 {
                    StorageWrap::Quantized(q) => {
                        lemma_strip_u64(
                            b@,
                            p1 as int,
                            rows64,
                            p2 as int,
                            q.rows as u64,
                            spec_u64_to_le_bytes(q.dims as u64) + (spec_u64_to_le_bytes(
                                q.n_segments as u64,
                            ) + (spec_u64_to_le_bytes(q.seg_len as u64) + (spec_u64_to_le_bytes(
                                q.n_centroids as u64,
                            ) + (u32s_image(q.centroids@) + (q.codes@ + gpair.1))))),
                        );
                        lemma_strip_u64(
                            b@,
                            p2 as int,
                            dims64,
                            p3 as int,
                            q.dims as u64,
                            spec_u64_to_le_bytes(q.n_segments as u64) + (spec_u64_to_le_bytes(
                                q.seg_len as u64,
                            ) + (spec_u64_to_le_bytes(q.n_centroids as u64) + (u32s_image(
                                q.centroids@,
                            ) + (q.codes@ + gpair.1)))),
                        );
                        assert((spec_u64_to_le_bytes(q.n_segments as u64)
                            + (spec_u64_to_le_bytes(q.seg_len as u64) + (spec_u64_to_le_bytes(
                            q.n_centroids as u64,
                        ) + (u32s_image(q.centroids@) + (q.codes@ + gpair.1))))).len() >= 24);
                    },
                    StorageWrap::Dense(_) => {
                        assert(false);
                    },
                }
            }
        }
        let (nseg64, p4) = match read_u64_at(b, p3) {
            Ok(p) => p,
            Err(e) => {
                proof {
                    if premise {
                        assert(false);
                    }
                }
                return Err(e);
            },
        };
        let (slen64, p5) = match read_u64_at(b, p4) {
            Ok(p) => p,
            Err(e) => {
                proof {
                    if premise {
                        assert(false);
                    }
                }
                return Err(e);
            },
        };
        let (ncent64, p6) = match read_u64_at(b, p5) {
            Ok(p) => p,
            Err(e) => {
                proof {
                    if premise {
                        assert(false);
                    }
                }
                return Err(e);
            },
        };
        let ghost gq = (
        match gpair.0 {
            StorageWrap::Quantized(q) => q,
            StorageWrap::Dense(_) => arbitrary(),
        });
        proof {
            if premise {
                lemma_strip_u64(
                    b@,
                    p3 as int,
                    nseg64,
                    p4 as int,
                    gq.n_segments as u64,
                    spec_u64_to_le_bytes(gq.seg_len as u64) + (spec_u64_to_le_bytes(
                        gq.n_centroids as u64,
                    ) + (u32s_image(gq.centroids@) + (gq.codes@ + gpair.1))),
                );
                lemma_strip_u64(
                    b@,
                    p4 as int,
                    slen64,
                    p5 as int,
                    gq.seg_len as u64,
                    spec_u64_to_le_bytes(gq.n_centroids as u64) + (u32s_image(gq.centroids@) + (
                    gq.codes@ + gpair.1)),
                );
                lemma_strip_u64(
                    b@,
                    p5 as int,
                    ncent64,
                    p6 as int,
                    gq.n_centroids as u64,
                    u32s_image(gq.centroids@) + (gq.codes@ + gpair.1),
                );
                vstd::std_specs::vec::axiom_spec_len(&gq.centroids);
                vstd::std_specs::vec::axiom_spec_len(&gq.codes);
                lemma_u32s_image_len(gq.centroids@);
            }
        }
        if nseg64 > (usize::MAX as u64) || slen64 > (usize::MAX as u64) || ncent64 > (usize::MAX
            as u64) {
            proof {
                if premise {
                    assert(false);
                }
            }
            return Err(Error::IOError);
        }
        let nseg = nseg64 as usize;
        let slen = slen64 as usize;
        let ncent = ncent64 as usize;
        proof {
            if premise {
                assert(nseg == gq.n_segments && slen == gq.seg_len && ncent == gq.n_centroids);
                assert(nseg >= 1 && slen >= 1 && 1 <= ncent <= 256);
                assert(nseg * ncent <= usize::MAX && nseg <= usize::MAX / ncent && (nseg * ncent)
                    * slen <= usize::MAX && nseg * ncent <= usize::MAX / slen && rows * nseg
                    <= usize::MAX && rows <= usize::MAX / nseg) by (nonlinear_arith)
                    requires
                        nseg == gq.n_segments && slen == gq.seg_len && ncent == gq.n_centroids,
                        rows == gq.rows,
                        nseg >= 1 && slen >= 1 && ncent >= 1,
                        gq.centroids@.len() == gq.n_segments * gq.n_centroids * gq.seg_len,
                        gq.codes@.len() == gq.rows * gq.n_segments,
                        gq.centroids@.len() <= usize::MAX,
                        gq.codes@.len() <= usize::MAX,
                        rows >= 0,
                ;
            }
        }
        if nseg < 1 || slen < 1 || ncent < 1 || ncent > 256 {
            proof {
                if premise {
                    assert(false);
                }
            }
            return Err(Error::IOError);
        }
        if nseg > usize::MAX / ncent {
            proof {
                if premise {
                    assert(false);
                }
            }
            return Err(Error::IOError);
        }
        proof {
            assert(nseg * ncent <= usize::MAX) by (nonlinear_arith)
                requires
                    ncent >= 1 && nseg <= usize::MAX / ncent && nseg >= 0 && ncent >= 0,
            ;
        }
        let table = nseg * ncent;
        if table > usize::MAX / slen {
            proof {
                if premise {
                    assert(false);
                }
            }
            return Err(Error::IOError);
        }
        proof {
            assert(table * slen <= usize::MAX) by (nonlinear_arith)
                requires
                    slen >= 1 && table <= usize::MAX / slen && table >= 0 && slen >= 0,
            ;
        }
        let cent_count = table * slen;
        if rows > usize::MAX / nseg {
            proof {
                if premise {
                    assert(false);
                }
            }
            return Err(Error::IOError);
        }
        proof {
            assert(rows * nseg <= usize::MAX) by (nonlinear_arith)
                requires
                    nseg >= 1 && rows <= usize::MAX / nseg && rows >= 0 && nseg >= 0,
            ;
        }
        let code_count = rows * nseg;
        proof {
            if premise {
                assert(cent_count == gq.centroids@.len()) by (nonlinear_arith)
                    requires
                        cent_count == (nseg * ncent) * slen,
                        nseg == gq.n_segments && slen == gq.seg_len && ncent == gq.n_centroids,
                        gq.centroids@.len() == gq.n_segments * gq.n_centroids * gq.seg_len,
                ;
                assert(code_count == gq.codes@.len());
                assert(b@.len() - p6 >= 4 * cent_count + code_count);
            }
        }
        let (cents, p7) = match read_u32s_at(b, p6, cent_count) {
            Ok(p) => p,
            Err(e) => {
                proof {
                    if premise {
                        assert(false);
                    }
                }
                return Err(e);
            },
        };
        proof {
            if premise {
                assert(b@.subrange(p6 as int, b@.len() as int) =~= u32s_image(cents@)
                    + b@.subrange(p7 as int, b@.len() as int));
                lemma_split_u32s(
                    cents@,
                    b@.subrange(p7 as int, b@.len() as int),
                    gq.centroids@,
                    gq.codes@ + gpair.1,
                );
            }
        }
        let (codes, p8) = match read_bytes_at(b, p7, code_count) {
            Ok(p) => p,
            Err(e) => {
                proof {
                    if premise {
                        assert((gq.codes@ + gpair.1).len() >= code_count);
                        assert(false);
                    }
                }
                return Err(e);
            },
        };
        let q = match QuantizedStorage::new(rows, dims, nseg, slen, ncent, cents, codes) {
            Ok(v) => v,
            Err(_) => {
                proof {
                    if premise {
                        assert(b@.subrange(p7 as int, b@.len() as int) =~= codes@ + b@.subrange(
                            p8 as int,
                            b@.len() as int,
                        ));
                        lemma_split_concat(
                            codes@,
                            b@.subrange(p8 as int, b@.len() as int),
                            gq.codes@,
                            gpair.1,
                        );
                        assert(dims == gq.dims);
                        assert(crate::storage::quantized_params_ok(
                            rows as int,
                            dims as int,
                            nseg as int,
                            slen as int,
                            ncent as int,
                            cents@,
                            codes@,
                        ));
                        assert(false);
                    }
                }
                return Err(Error::IOError);
            },
        };
        let s = StorageWrap::Quantized(q);
        proof {
            assert(b@.subrange(pos as int, p8 as int) =~= b@.subrange(pos as int, p1 as int)
                + b@.subrange(p1 as int, p2 as int) + b@.subrange(p2 as int, p3 as int)
                + b@.subrange(p3 as int, p4 as int) + b@.subrange(p4 as int, p5 as int)
                + b@.subrange(p5 as int, p6 as int) + b@.subrange(p6 as int, p7 as int)
                + b@.subrange(p7 as int, p8 as int));
            assert(b@.subrange(pos as int, p8 as int) =~= storage_image(s));
        }
        Ok((s, p8))
    } else {
        proof {
            if premise {
                lemma_storage_ahead_align(b@, pos as int, kind, p1 as int, gpair.0, gpair.1);
                assert(false);
            }
        }
        Err(Error::IOError)
    }
}

/// Whether the bytes from `pos` on start with the image of some norm
/// section.
spec fn norms_ahead(b: Seq<u8>, pos: int) -> bool {
    exists|n: Option<NormCache>, rest: Seq<u8>|
        b.subrange(pos, b.len() as int) == norms_image(n) + rest
}

/// Reads the optional norms section.  Reading fails only when the bytes
/// ahead are not a norm section.
#[verifier::rlimit(100)]
fn read_norms_at(b: &Vec<u8>, pos: usize) -> (r: Result<(Option<NormCache>, usize), Error>)
    requires
        pos <= b@.len(),
    ensures
        match r {
            Ok(p) => pos <= p.1 <= b@.len() && b@.subrange(pos as int, p.1 as int) == norms_image(
                p.0,
            ),
            Err(e) => e == Error::IOError,
        },
        norms_ahead(b@, pos as int) ==> r is Ok,
{
    proof {
        lemma_auto_spec_u32_to_from_le_bytes();
        lemma_auto_spec_u64_to_from_le_bytes();
    }
    let ghost premise = norms_ahead(b@, pos as int);
    let ghost gpair = choose|n: Option<NormCache>, rest: Seq<u8>|
        b@.subrange(pos as int, b@.len() as int) == norms_image(n) + rest;
    proof {
        if premise {
            match gpair.0 {
                None => {
                    assert(b@.subrange(pos as int, b@.len() as int) =~= spec_u32_to_le_bytes(0)
                        + gpair.1);
                },
                Some(c) => {
                    assert(b@.subrange(pos as int, b@.len() as int) =~= spec_u32_to_le_bytes(1)
                        + (spec_u64_to_le_bytes(c.norms@.len() as u64) + (u32s_image(c.norms@)
                        + gpair.1)));
                    assert((spec_u64_to_le_bytes(c.norms@.len() as u64) + (u32s_image(c.norms@)
                        + gpair.1)).len() >= 8);
                },
            }
            assert(b@.len() - pos >= 4);
        }
    }
    let (flag, p1) = match read_u32_at(b, pos) {
        Ok(p) => p,
        Err(e) => {
            proof {
                if premise {
                    assert(false);
                }
            }
            return Err(e);
        },
    };
    proof {
        if premise {
            match gpair.0 {
                None => {
                    lemma_strip_u32(b@, pos as int, flag, p1 as int, 0, gpair.1);
                },
                Some(c) => {
                    lemma_strip_u32(
                        b@,
                        pos as int,
                        flag,
                        p1 as int,
                        1,
                        spec_u64_to_le_bytes(c.norms@.len() as u64) + (u32s_image(c.norms@)
                            + gpair.1),
                    );
                    vstd::std_specs::vec::axiom_spec_len(&c.norms);
                    lemma_u32s_image_len(c.norms@);
                },
            }
        }
    }
    if flag == 0 {
        Ok((None, p1))
    } else if flag == 1 {
        let (count64, p2) = match read_u64_at(b, p1) {
            Ok(p) => p,
            Err(e) => {
                proof {
                    if premise {
                        assert(false);
                    }
                }
                return Err(e);
            },
        };
        proof {
            if premise {
                match gpair.0 {
                    Some(c) => {
                        lemma_strip_u64(
                            b@,
                            p1 as int,
                            count64,
                            p2 as int,
                            c.norms@.len() as u64,
                            u32s_image(c.norms@) + gpair.1,
                        );
                        assert(b@.len() - p2 >= 4 * (count64 as int));
                    },
                    None => {
                        assert(false);
                    },
                }
            }
        }
        if count64 > (usize::MAX as u64) {
            proof {
                if premise {
                    assert(false);
                }
            }
            return Err(Error::IOError);
        }
        let (norms, p3) = match read_u32s_at(b, p2, count64 as usize) {
            Ok(p) => p,
            Err(e) => {
                proof {
                    if premise {
                        assert(false);
                    }
                }
                return Err(e);
            },
        };
        let c = NormCache::new(norms);
        proof {
            assert(b@.subrange(pos as int, p3 as int) =~= b@.subrange(pos as int, p1 as int)
                + b@.subrange(p1 as int, p2 as int) + b@.subrange(p2 as int, p3 as int));
            assert(b@.subrange(pos as int, p3 as int) =~= norms_image(Some(c)));
        }
        Ok((Some(c), p3))
    } else {
        proof {
            if premise {
                assert(false);
            }
        }
        Err(Error::IOError)
    }
}

/// Whether the bytes from `pos` on start with the image of some
/// metadata section whose document (when present) is valid.
spec fn metadata_ahead(b: Seq<u8>, pos: int) -> bool {
    exists|m: Option<Metadata>, rest: Seq<u8>|
        (match m {
            Some(d) => d.wf(),
            None => true,
        }) && b.subrange(pos, b.len() as int) == metadata_image(m) + rest
}

/// Reads the optional metadata section, validating the document.
/// Reading fails only when the bytes ahead are not a metadata section
/// carrying a valid document.
#[verifier::rlimit(100)]
fn read_metadata_at(b: &Vec<u8>, pos: usize) -> (r: Result<(Option<Metadata>, usize), Error>)
    requires
        pos <= b@.len(),
    ensures
        match r {
            Ok(p) => pos <= p.1 <= b@.len() && b@.subrange(pos as int, p.1 as int)
                == metadata_image(p.0) && (match p.0 {
                Some(m) => m.wf(),
                None => true,
            }),
            Err(e) => e == Error::IOError || e == Error::InvalidMetadata,
        },
        metadata_ahead(b@, pos as int) ==> r is Ok,
{
    proof {
        lemma_auto_spec_u32_to_from_le_bytes();
        lemma_auto_spec_u64_to_from_le_bytes();
    }
    let ghost premise = metadata_ahead(b@, pos as int);
    let ghost gpair = choose|m: Option<Metadata>, rest: Seq<u8>|
        (match m {
            Some(d) => d.wf(),
            None => true,
        }) && b@.subrange(pos as int, b@.len() as int) == metadata_image(m) + rest;
    proof {
        if premise {
            match gpair.0 {
                None => {
                    assert(b@.subrange(pos as int, b@.len() as int) =~= spec_u32_to_le_bytes(0)
                        + gpair.1);
                },
                Some(d) => {
                    assert(b@.subrange(pos as int, b@.len() as int) =~= spec_u32_to_le_bytes(1)
                        + (spec_u64_to_le_bytes(d.doc@.len() as u64) + (d.doc@ + gpair.1)));
                    assert((spec_u64_to_le_bytes(d.doc@.len() as u64) + (d.doc@
                        + gpair.1)).len() >= 8);
                },
            }
            assert(b@.len() - pos >= 4);
        }
    }
    let (flag, p1) = match read_u32_at(b, pos) {
        Ok(p) => p,
        Err(e) => {
            proof {
                if premise {
                    assert(false);
                }
            }
            return Err(e);
        },
    };
    proof {
        if premise {
            match gpair.0 {
                None => {
                    lemma_strip_u32(b@, pos as int, flag, p1 as int, 0, gpair.1);
                },
                Some(d) => {
                    lemma_strip_u32(
                        b@,
                        pos as int,
                        flag,
                        p1 as int,
                        1,
                        spec_u64_to_le_bytes(d.doc@.len() as u64) + (d.doc@ + gpair.1),
                    );
                    vstd::std_specs::vec::axiom_spec_len(&d.doc);
                },
            }
        }
    }
    if flag == 0 {
        Ok((None, p1))
    } else if flag == 1 {
        let (len64, p2) = match read_u64_at(b, p1) {
            Ok(p) => p,
            Err(e) => {
                proof {
                    if premise {
                        assert(false);
                    }
                }
                return Err(e);
            },
        };
        proof {
            if premise {
                match gpair.0 {
                    Some(d) => {
                        lemma_strip_u64(
                            b@,
                            p1 as int,
                            len64,
                            p2 as int,
                            d.doc@.len() as u64,
                            d.doc@ + gpair.1,
                        );
                        assert(b@.len() - p2 >= len64 as int);
                    },
                    None => {
                        assert(false);
                    },
                }
            }
        }
        if len64 > (usize::MAX as u64) {
            proof {
                if premise {
                    assert(false);
                }
            }
            return Err(Error::IOError);
        }
        let (doc, p3) = match read_bytes_at(b, p2, len64 as usize) {
            Ok(p) => p,
            Err(e) => {
                proof {
                    if premise {
                        assert(false);
                    }
                }
                return Err(e);
            },
        };
        let m = match Metadata::new(doc) {
            Ok(m) => m,
            Err(e) => {
                proof {
                    if premise {
                        match gpair.0 {
                            Some(d) => {
                                assert(b@.subrange(p2 as int, b@.len() as int) =~= b@.subrange(
                                    p2 as int,
                                    p3 as int,
                                ) + b@.subrange(p3 as int, b@.len() as int));
                                lemma_split_concat(
                                    b@.subrange(p2 as int, p3 as int),
                                    b@.subrange(p3 as int, b@.len() as int),
                                    d.doc@,
                                    gpair.1,
                                );
                            },
                            None => {},
                        }
                        assert(false);
                    }
                }
                return Err(e);
            },
        };
        proof {
            assert(b@.subrange(pos as int, p3 as int) =~= b@.subrange(pos as int, p1 as int)
                + b@.subrange(p1 as int, p2 as int) + b@.subrange(p2 as int, p3 as int));
            assert(b@.subrange(pos as int, p3 as int) =~= metadata_image(Some(m)));
        }
        Ok((Some(m), p3))
    } else {
        proof {
            if premise {
                assert(false);
            }
        }
        Err(Error::IOError)
    }
}

/// Reads a whole container image back into a store, tagged by the
/// storage capability it arrived with.  A successful read yields a
/// well-formed store whose image is exactly the input bytes, and
/// reading fails only on bytes that are not the image of any
/// well-formed store.
#[verifier::rlimit(100)]
pub fn read_embeddings(bytes: &Vec<u8>) -> (r: Result<EmbeddingsWrap, Error>)
    ensures
        match r {
            Ok(w) => w.wf() && image_of(w.inner()) == bytes@,
            Err(e) => e == Error::IOError || e == Error::InvalidMetadata,
        },
        (exists|e: Embeddings| e.wf() && bytes@ == image_of(e)) ==> r is Ok,
{
    proof {
        lemma_auto_spec_u32_to_from_le_bytes();
        lemma_auto_spec_u64_to_from_le_bytes();
    }
    let ghost premise = exists|e: Embeddings| e.wf() && bytes@ == image_of(e);
    let ghost ge = choose|e: Embeddings| e.wf() && bytes@ == image_of(e);
    let ghost tail_v = storage_image(ge.storage) + (norms_image(ge.norms) + metadata_image(
        ge.metadata,
    ));
    let ghost tail_s = norms_image(ge.norms) + metadata_image(ge.metadata);
    let ghost tail_n = metadata_image(ge.metadata);
    let n = bytes.len();
    proof {
        if premise {
            assert(bytes@ =~= spec_u32_to_le_bytes(CONTAINER_MAGIC) + (vocab_image(ge.vocab)
                + tail_v));
            assert((vocab_image(ge.vocab) + tail_v).len() >= 0);
            assert(bytes@.subrange(0, n as int) =~= bytes@);
        }
    }
    let (magic, p1) = match read_u32_at(bytes, 0) {
        Ok(p) => p,
        Err(e) => {
            proof {
                if premise {
                    assert(false);
                }
            }
            return Err(e);
        },
    };
    proof {
        if premise {
            assert(bytes@.subrange(0, n as int) =~= bytes@);
            lemma_strip_u32(
                bytes@,
                0,
                magic,
                p1 as int,
                CONTAINER_MAGIC,
                vocab_image(ge.vocab) + tail_v,
            );
            assert(vocab_ahead(bytes@, p1 as int));
        }
    }
    if magic != CONTAINER_MAGIC {
        proof {
            if premise {
                assert(false);
            }
        }
        return Err(Error::IOError);
    }
    let (vocab, p2) = match read_vocab_at(bytes, p1) {
        Ok(p) => p,
        Err(e) => {
            proof {
                if premise {
                    assert(false);
                }
            }
            return Err(e);
        },
    };
    proof {
        if premise {
            assert(bytes@.subrange(p1 as int, bytes@.len() as int) =~= vocab_image(vocab)
                + bytes@.subrange(p2 as int, bytes@.len() as int));
            lemma_vocab_image_injective(
                vocab,
                bytes@.subrange(p2 as int, bytes@.len() as int),
                ge.vocab,
                tail_v,
            );
            assert(storage_ahead(bytes@, p2 as int));
        }
    }
    let (storage, p3) = match read_storage_at(bytes, p2) {
        Ok(p) => p,
        Err(e) => {
            proof {
                if premise {
                    assert(false);
                }
            }
            return Err(e);
        },
    };
    proof {
        if premise {
            assert(bytes@.subrange(p2 as int, bytes@.len() as int) =~= storage_image(storage)
                + bytes@.subrange(p3 as int, bytes@.len() as int));
            lemma_storage_image_injective(
                storage,
                bytes@.subrange(p3 as int, bytes@.len() as int),
                ge.storage,
                tail_s,
            );
            assert(norms_ahead(bytes@, p3 as int));
        }
    }
    let (norms, p4) = match read_norms_at(bytes, p3) {
        Ok(p) => p,
        Err(e) => {
            proof {
                if premise {
                    assert(false);
                }
            }
            return Err(e);
        },
    };
    proof {
        if premise {
            assert(bytes@.subrange(p3 as int, bytes@.len() as int) =~= norms_image(norms)
                + bytes@.subrange(p4 as int, bytes@.len() as int));
            lemma_norms_image_injective(
                norms,
                bytes@.subrange(p4 as int, bytes@.len() as int),
                ge.norms,
                tail_n,
            );
            assert(bytes@.subrange(p4 as int, bytes@.len() as int) =~= metadata_image(
                ge.metadata,
            ) + Seq::<u8>::empty());
            assert(match ge.metadata {
                Some(d) => d.wf(),
                None => true,
            });
            assert(metadata_ahead(bytes@, p4 as int));
        }
    }
    let (meta, p5) = match read_metadata_at(bytes, p4) {
        Ok(p) => p,
        Err(e) => {
            proof {
                if premise {
                    assert(false);
                }
            }
            return Err(e);
        },
    };
    proof {
        if premise {
            assert(bytes@.subrange(p3 as int, bytes@.len() as int) =~= norms_image(norms)
                + bytes@.subrange(p4 as int, bytes@.len() as int));
            lemma_norms_image_injective(
                norms,
                bytes@.subrange(p4 as int, bytes@.len() as int),
                ge.norms,
                tail_n,
            );
            assert(bytes@.subrange(p4 as int, bytes@.len() as int) =~= metadata_image(meta)
                + bytes@.subrange(p5 as int, bytes@.len() as int));
            lemma_metadata_image_injective(
                meta,
                bytes@.subrange(p5 as int, bytes@.len() as int),
                ge.metadata,
                Seq::<u8>::empty(),
            );
            assert(bytes@.subrange(p5 as int, bytes@.len() as int).len() == 0);
        }
    }
    if p5 != n {
        proof {
            if premise {
                assert(false);
            }
        }
        return Err(Error::IOError);
    }
    let e = match Embeddings::new(vocab, storage, norms, meta) {
        Ok(e) => e,
        Err(_) => {
            proof {
                if premise {
                    assert(bytes@.subrange(p1 as int, bytes@.len() as int) =~= vocab_image(
                        vocab,
                    ) + bytes@.subrange(p2 as int, bytes@.len() as int));
                    lemma_vocab_image_injective(
                        vocab,
                        bytes@.subrange(p2 as int, bytes@.len() as int),
                        ge.vocab,
                        tail_v,
                    );
                    assert(bytes@.subrange(p2 as int, bytes@.len() as int) =~= storage_image(
                        storage,
                    ) + bytes@.subrange(p3 as int, bytes@.len() as int));
                    lemma_storage_image_injective(
                        storage,
                        bytes@.subrange(p3 as int, bytes@.len() as int),
                        ge.storage,
                        tail_s,
                    );
                    assert(bytes@.subrange(p3 as int, bytes@.len() as int) =~= norms_image(
                        norms,
                    ) + bytes@.subrange(p4 as int, bytes@.len() as int));
                    lemma_norms_image_injective(
                        norms,
                        bytes@.subrange(p4 as int, bytes@.len() as int),
                        ge.norms,
                        tail_n,
                    );
                    assert(storage.spec_rows() == vocab.spec_n_rows());
                    assert(storage.spec_dims() >= 1);
                    assert(match norms {
                        Some(c) => c.norms@.len() == vocab.spec_words().len(),
                        None => true,
                    });
                    assert(false);
                }
            }
            return Err(Error::IOError);
        },
    };
    let w = EmbeddingsWrap::new(e);
    proof {
        assert(bytes@ =~= bytes@.subrange(0, p1 as int) + bytes@.subrange(p1 as int, p2 as int)
            + bytes@.subrange(p2 as int, p3 as int) + bytes@.subrange(p3 as int, p4 as int)
            + bytes@.subrange(p4 as int, p5 as int));
        assert(bytes@ =~= image_of(w.inner()));
    }
    Ok(w)
}

/// Two equal concatenations with equally long heads have equal heads
/// and equal tails.
proof fn lemma_split_concat(a1: Seq<u8>, b1: Seq<u8>, a2: Seq<u8>, b2: Seq<u8>)
    requires
        a1 + b1 == a2 + b2,
        a1.len() == a2.len(),
    ensures
        a1 == a2,
        b1 == b2,
{
    let c = a1 + b1;
    assert(a1 =~= c.subrange(0, a1.len() as int));
    assert(a2 =~= c.subrange(0, a2.len() as int));
    assert(b1 =~= c.subrange(a1.len() as int, c.len() as int));
    assert(b2 =~= c.subrange(a2.len() as int, c.len() as int));
}

/// A four-byte count at the head of equal byte strings is the same
/// count on both sides.
proof fn lemma_split_u32(x1: u32, b1: Seq<u8>, x2: u32, b2: Seq<u8>)
    requires
        spec_u32_to_le_bytes(x1) + b1 == spec_u32_to_le_bytes(x2) + b2,
    ensures
        x1 == x2,
        b1 == b2,
{
    lemma_auto_spec_u32_to_from_le_bytes();
    lemma_split_concat(spec_u32_to_le_bytes(x1), b1, spec_u32_to_le_bytes(x2), b2);
}

/// An eight-byte count at the head of equal byte strings is the same
/// count on both sides.
proof fn lemma_split_u64(x1: u64, b1: Seq<u8>, x2: u64, b2: Seq<u8>)
    requires
        spec_u64_to_le_bytes(x1) + b1 == spec_u64_to_le_bytes(x2) + b2,
    ensures
        x1 == x2,
        b1 == b2,
{
    lemma_auto_spec_u64_to_from_le_bytes();
    lemma_split_concat(spec_u64_to_le_bytes(x1), b1, spec_u64_to_le_bytes(x2), b2);
}

/// One length-prefixed word.
spec fn word_image(w: Seq<u8>) -> Seq<u8> {
    spec_u64_to_le_bytes(w.len() as u64) + w
}

/// A word list image starts with its first word.
proof fn lemma_words_image_first(ws: Seq<Seq<u8>>)
    requires
        ws.len() > 0,
    ensures
        words_image(ws) == word_image(ws.first()) + words_image(ws.drop_first()),
    decreases ws.len(),
{
    if ws.len() == 1 {
        assert(ws.drop_last() =~= Seq::<Seq<u8>>::empty());
        assert(ws.drop_first() =~= Seq::<Seq<u8>>::empty());
        assert(words_image(ws) =~= word_image(ws.first()) + words_image(ws.drop_first()));
    } else {
        let head = ws.drop_last();
        lemma_words_image_first(head);
        assert(head.first() == ws.first());
        assert(ws.drop_first().drop_last() =~= head.drop_first());
        assert(ws.drop_first().last() == ws.last());
        assert(words_image(ws.drop_first()) == words_image(head.drop_first()) + word_image(
            ws.last(),
        ));
        assert(words_image(ws) =~= word_image(ws.first()) + words_image(ws.drop_first()));
    }
}

/// A component array image starts with its first component.
proof fn lemma_u32s_image_first(xs: Seq<u32>)
    requires
        xs.len() > 0,
    ensures
        u32s_image(xs) == spec_u32_to_le_bytes(xs.first()) + u32s_image(xs.drop_first()),
    decreases xs.len(),
{
    if xs.len() == 1 {
        assert(xs.drop_last() =~= Seq::<u32>::empty());
        assert(xs.drop_first() =~= Seq::<u32>::empty());
        assert(u32s_image(xs) =~= spec_u32_to_le_bytes(xs.first()) + u32s_image(xs.drop_first()));
    } else {
        let head = xs.drop_last();
        lemma_u32s_image_first(head);
        assert(head.first() == xs.first());
        assert(xs.drop_first().drop_last() =~= head.drop_first());
        assert(xs.drop_first().last() == xs.last());
        assert(u32s_image(xs.drop_first()) == u32s_image(head.drop_first())
            + spec_u32_to_le_bytes(xs.last()));
        assert(u32s_image(xs) =~= spec_u32_to_le_bytes(xs.first()) + u32s_image(xs.drop_first()));
    }
}

/// A component array image is four bytes per component.
proof fn lemma_u32s_image_len(xs: Seq<u32>)
    ensures
        u32s_image(xs).len() == 4 * xs.len(),
    decreases xs.len(),
{
    lemma_auto_spec_u32_to_from_le_bytes();
    if xs.len() > 0 {
        lemma_u32s_image_len(xs.drop_last());
    }
}

/// Equally many length-prefixed words at the heads of equal byte
/// strings are the same words.
proof fn lemma_split_words(ws1: Seq<Seq<u8>>, b1: Seq<u8>, ws2: Seq<Seq<u8>>, b2: Seq<u8>)
    requires
        ws1.len() == ws2.len(),
        forall|i: int| 0 <= i < ws1.len() ==> (#[trigger] ws1[i]).len() <= u64::MAX,
        forall|i: int| 0 <= i < ws2.len() ==> (#[trigger] ws2[i]).len() <= u64::MAX,
        words_image(ws1) + b1 == words_image(ws2) + b2,
    ensures
        ws1 == ws2,
        b1 == b2,
    decreases ws1.len(),
{
    if ws1.len() == 0 {
        assert(words_image(ws1) =~= Seq::<u8>::empty());
        assert(words_image(ws2) =~= Seq::<u8>::empty());
        assert(words_image(ws1) + b1 =~= b1);
        assert(words_image(ws2) + b2 =~= b2);
    } else {
        lemma_words_image_first(ws1);
        lemma_words_image_first(ws2);
        let w1 = ws1.first();
        let w2 = ws2.first();
        assert(spec_u64_to_le_bytes(w1.len() as u64) + (w1 + (words_image(ws1.drop_first())
            + b1)) =~= words_image(ws1) + b1);
        assert(spec_u64_to_le_bytes(w2.len() as u64) + (w2 + (words_image(ws2.drop_first())
            + b2)) =~= words_image(ws2) + b2);
        lemma_split_u64(
            w1.len() as u64,
            w1 + (words_image(ws1.drop_first()) + b1),
            w2.len() as u64,
            w2 + (words_image(ws2.drop_first()) + b2),
        );
        lemma_split_concat(
            w1,
            words_image(ws1.drop_first()) + b1,
            w2,
            words_image(ws2.drop_first()) + b2,
        );
        lemma_split_words(ws1.drop_first(), b1, ws2.drop_first(), b2);
        assert(ws1 =~= seq![ws1.first()] + ws1.drop_first());
        assert(ws2 =~= seq![ws2.first()] + ws2.drop_first());
    }
}

/// Equally many components at the heads of equal byte strings are the
/// same components.
proof fn lemma_split_u32s(xs1: Seq<u32>, b1: Seq<u8>, xs2: Seq<u32>, b2: Seq<u8>)
    requires
        xs1.len() == xs2.len(),
        u32s_image(xs1) + b1 == u32s_image(xs2) + b2,
    ensures
        xs1 == xs2,
        b1 == b2,
    decreases xs1.len(),
{
    if xs1.len() == 0 {
        assert(u32s_image(xs1) =~= Seq::<u8>::empty());
        assert(u32s_image(xs2) =~= Seq::<u8>::empty());
        assert(u32s_image(xs1) + b1 =~= b1);
        assert(u32s_image(xs2) + b2 =~= b2);
    } else {
        lemma_u32s_image_first(xs1);
        lemma_u32s_image_first(xs2);
        assert(spec_u32_to_le_bytes(xs1.first()) + (u32s_image(xs1.drop_first()) + b1)
            =~= u32s_image(xs1) + b1);
        assert(spec_u32_to_le_bytes(xs2.first()) + (u32s_image(xs2.drop_first()) + b2)
            =~= u32s_image(xs2) + b2);
        lemma_split_u32(
            xs1.first(),
            u32s_image(xs1.drop_first()) + b1,
            xs2.first(),
            u32s_image(xs2.drop_first()) + b2,
        );
        lemma_split_u32s(xs1.drop_first(), b1, xs2.drop_first(), b2);
        assert(xs1 =~= seq![xs1.first()] + xs1.drop_first());
        assert(xs2 =~= seq![xs2.first()] + xs2.drop_first());
    }
}

/// Every view of a vector fits in the address space.
proof fn lemma_word_lens_bounded(words: Vec<Vec<u8>>)
    ensures
        words@.len() <= usize::MAX,
        forall|i: int|
            0 <= i < words@.len() ==> (#[trigger] words_view(words@)[i]).len() <= usize::MAX,
{
    vstd::std_specs::vec::axiom_spec_len(&words);
    assert forall|i: int|
        0 <= i < words@.len() implies (#[trigger] words_view(words@)[i]).len()
        <= usize::MAX by {
        let w = words@[i];
        vstd::std_specs::vec::axiom_spec_len(&w);
    }
}

/// Equal vocabulary sections at the heads of equal byte strings carry
/// the same vocabulary.
#[verifier::rlimit(100)]
proof fn lemma_vocab_image_injective(v1: VocabWrap, b1: Seq<u8>, v2: VocabWrap, b2: Seq<u8>)
    requires
        v1.wf(),
        v2.wf(),
        vocab_image(v1) + b1 == vocab_image(v2) + b2,
    ensures
        b1 == b2,
        v1.is_simple() == v2.is_simple(),
        v1.spec_words() == v2.spec_words(),
        v1.spec_n_rows() == v2.spec_n_rows(),
        (match (v1, v2) {
            (VocabWrap::Subword(s1), VocabWrap::Subword(s2)) => s1.min_n == s2.min_n && s1.max_n
                == s2.max_n && s1.buckets_exp == s2.buckets_exp && s1.words@.len()
                == s2.words@.len(),
            _ => true,
        }),
{
    lemma_auto_spec_u32_to_from_le_bytes();
    lemma_auto_spec_u64_to_from_le_bytes();
    match (v1, v2) {
        (VocabWrap::Simple(s1), VocabWrap::Simple(s2)) => {
            lemma_word_lens_bounded(s1.words);
            lemma_word_lens_bounded(s2.words);
            let n1 = s1.words@.len() as u64;
            let n2 = s2.words@.len() as u64;
            let t1 = words_image(words_view(s1.words@)) + b1;
            let t2 = words_image(words_view(s2.words@)) + b2;
            assert(spec_u32_to_le_bytes(0) + (spec_u64_to_le_bytes(n1) + t1) =~= vocab_image(v1)
                + b1);
            assert(spec_u32_to_le_bytes(0) + (spec_u64_to_le_bytes(n2) + t2) =~= vocab_image(v2)
                + b2);
            lemma_split_u32(0, spec_u64_to_le_bytes(n1) + t1, 0, spec_u64_to_le_bytes(n2) + t2);
            lemma_split_u64(n1, t1, n2, t2);
            lemma_split_words(words_view(s1.words@), b1, words_view(s2.words@), b2);
        },
        (VocabWrap::Subword(s1), VocabWrap::Subword(s2)) => {
            lemma_word_lens_bounded(s1.words);
            lemma_word_lens_bounded(s2.words);
            let n1 = s1.words@.len() as u64;
            let n2 = s2.words@.len() as u64;
            let t1 = words_image(words_view(s1.words@)) + b1;
            let t2 = words_image(words_view(s2.words@)) + b2;
            let r1 = spec_u64_to_le_bytes(s1.min_n as u64) + (spec_u64_to_le_bytes(
                s1.max_n as u64,
            ) + (spec_u32_to_le_bytes(s1.buckets_exp) + (spec_u64_to_le_bytes(n1) + t1)));
            let r2 = spec_u64_to_le_bytes(s2.min_n as u64) + (spec_u64_to_le_bytes(
                s2.max_n as u64,
            ) + (spec_u32_to_le_bytes(s2.buckets_exp) + (spec_u64_to_le_bytes(n2) + t2)));
            assert(spec_u32_to_le_bytes(1) + r1 =~= vocab_image(v1) + b1);
            assert(spec_u32_to_le_bytes(1) + r2 =~= vocab_image(v2) + b2);
            lemma_split_u32(1, r1, 1, r2);
            lemma_split_u64(
                s1.min_n as u64,
                spec_u64_to_le_bytes(s1.max_n as u64) + (spec_u32_to_le_bytes(s1.buckets_exp) + (
                spec_u64_to_le_bytes(n1) + t1)),
                s2.min_n as u64,
                spec_u64_to_le_bytes(s2.max_n as u64) + (spec_u32_to_le_bytes(s2.buckets_exp) + (
                spec_u64_to_le_bytes(n2) + t2)),
            );
            lemma_split_u64(
                s1.max_n as u64,
                spec_u32_to_le_bytes(s1.buckets_exp) + (spec_u64_to_le_bytes(n1) + t1),
                s2.max_n as u64,
                spec_u32_to_le_bytes(s2.buckets_exp) + (spec_u64_to_le_bytes(n2) + t2),
            );
            lemma_split_u32(
                s1.buckets_exp,
                spec_u64_to_le_bytes(n1) + t1,
                s2.buckets_exp,
                spec_u64_to_le_bytes(n2) + t2,
            );
            lemma_split_u64(n1, t1, n2, t2);
            lemma_split_words(words_view(s1.words@), b1, words_view(s2.words@), b2);
        },
        (VocabWrap::Simple(s1), VocabWrap::Subword(s2)) => {
            let r1 = vocab_image(v1).drop_first().drop_first().drop_first().drop_first() + b1;
            let r2 = vocab_image(v2).drop_first().drop_first().drop_first().drop_first() + b2;
            assert(spec_u32_to_le_bytes(0) + r1 =~= vocab_image(v1) + b1);
            assert(spec_u32_to_le_bytes(1) + r2 =~= vocab_image(v2) + b2);
            lemma_split_u32(0, r1, 1, r2);
        },
        (VocabWrap::Subword(s1), VocabWrap::Simple(s2)) => {
            let r1 = vocab_image(v1).drop_first().drop_first().drop_first().drop_first() + b1;
            let r2 = vocab_image(v2).drop_first().drop_first().drop_first().drop_first() + b2;
            assert(spec_u32_to_le_bytes(1) + r1 =~= vocab_image(v1) + b1);
            assert(spec_u32_to_le_bytes(0) + r2 =~= vocab_image(v2) + b2);
            lemma_split_u32(1, r1, 0, r2);
        },
    }
}

/// Equal storage sections at the heads of equal byte strings carry the
/// same matrix.
#[verifier::rlimit(100)]
proof fn lemma_storage_image_injective(s1: StorageWrap, b1: Seq<u8>, s2: StorageWrap, b2: Seq<u8>)
    requires
        s1.wf(),
        s2.wf(),
        storage_image(s1) + b1 == storage_image(s2) + b2,
    ensures
        b1 == b2,
        s1.spec_rows() == s2.spec_rows(),
        s1.spec_dims() == s2.spec_dims(),
        s1.spec_viewable() == s2.spec_viewable(),
        forall|i: int| 0 <= i < s1.spec_rows() ==> s1.row_of(i) == s2.row_of(i),
{
    lemma_auto_spec_u32_to_from_le_bytes();
    lemma_auto_spec_u64_to_from_le_bytes();
    match (s1, s2) {
        (StorageWrap::Dense(d1), StorageWrap::Dense(d2)) => {
            let t1 = u32s_image(d1.data@) + b1;
            let t2 = u32s_image(d2.data@) + b2;
            let r1 = spec_u64_to_le_bytes(d1.rows as u64) + (spec_u64_to_le_bytes(
                d1.dims as u64,
            ) + t1);
            let r2 = spec_u64_to_le_bytes(d2.rows as u64) + (spec_u64_to_le_bytes(
                d2.dims as u64,
            ) + t2);
            assert(spec_u32_to_le_bytes(0) + r1 =~= storage_image(s1) + b1);
            assert(spec_u32_to_le_bytes(0) + r2 =~= storage_image(s2) + b2);
            lemma_split_u32(0, r1, 0, r2);
            lemma_split_u64(
                d1.rows as u64,
                spec_u64_to_le_bytes(d1.dims as u64) + t1,
                d2.rows as u64,
                spec_u64_to_le_bytes(d2.dims as u64) + t2,
            );
            lemma_split_u64(d1.dims as u64, t1, d2.dims as u64, t2);
            lemma_split_u32s(d1.data@, b1, d2.data@, b2);
            assert forall|i: int| 0 <= i < s1.spec_rows() implies s1.row_of(i) == s2.row_of(
                i,
            ) by {
                assert(d1.row_of(i) =~= d2.row_of(i));
            }
        },
        (StorageWrap::Quantized(q1), StorageWrap::Quantized(q2)) => {
            let t1 = u32s_image(q1.centroids@) + (q1.codes@ + b1);
            let t2 = u32s_image(q2.centroids@) + (q2.codes@ + b2);
            let r1 = spec_u64_to_le_bytes(q1.rows as u64) + (spec_u64_to_le_bytes(
                q1.dims as u64,
            ) + (spec_u64_to_le_bytes(q1.n_segments as u64) + (spec_u64_to_le_bytes(
                q1.seg_len as u64,
            ) + (spec_u64_to_le_bytes(q1.n_centroids as u64) + t1))));
            let r2 = spec_u64_to_le_bytes(q2.rows as u64) + (spec_u64_to_le_bytes(
                q2.dims as u64,
            ) + (spec_u64_to_le_bytes(q2.n_segments as u64) + (spec_u64_to_le_bytes(
                q2.seg_len as u64,
            ) + (spec_u64_to_le_bytes(q2.n_centroids as u64) + t2))));
            assert(spec_u32_to_le_bytes(1) + r1 =~= storage_image(s1) + b1);
            assert(spec_u32_to_le_bytes(1) + r2 =~= storage_image(s2) + b2);
            lemma_split_u32(1, r1, 1, r2);
            lemma_split_u64(
                q1.rows as u64,
                spec_u64_to_le_bytes(q1.dims as u64) + (spec_u64_to_le_bytes(
                    q1.n_segments as u64,
                ) + (spec_u64_to_le_bytes(q1.seg_len as u64) + (spec_u64_to_le_bytes(
                    q1.n_centroids as u64,
                ) + t1))),
                q2.rows as u64,
                spec_u64_to_le_bytes(q2.dims as u64) + (spec_u64_to_le_bytes(
                    q2.n_segments as u64,
                ) + (spec_u64_to_le_bytes(q2.seg_len as u64) + (spec_u64_to_le_bytes(
                    q2.n_centroids as u64,
                ) + t2))),
            );
            lemma_split_u64(
                q1.dims as u64,
                spec_u64_to_le_bytes(q1.n_segments as u64) + (spec_u64_to_le_bytes(
                    q1.seg_len as u64,
                ) + (spec_u64_to_le_bytes(q1.n_centroids as u64) + t1)),
                q2.dims as u64,
                spec_u64_to_le_bytes(q2.n_segments as u64) + (spec_u64_to_le_bytes(
                    q2.seg_len as u64,
                ) + (spec_u64_to_le_bytes(q2.n_centroids as u64) + t2)),
            );
            lemma_split_u64(
                q1.n_segments as u64,
                spec_u64_to_le_bytes(q1.seg_len as u64) + (spec_u64_to_le_bytes(
                    q1.n_centroids as u64,
                ) + t1),
                q2.n_segments as u64,
                spec_u64_to_le_bytes(q2.seg_len as u64) + (spec_u64_to_le_bytes(
                    q2.n_centroids as u64,
                ) + t2),
            );
            lemma_split_u64(
                q1.seg_len as u64,
                spec_u64_to_le_bytes(q1.n_centroids as u64) + t1,
                q2.seg_len as u64,
                spec_u64_to_le_bytes(q2.n_centroids as u64) + t2,
            );
            lemma_split_u64(q1.n_centroids as u64, t1, q2.n_centroids as u64, t2);
            lemma_split_u32s(q1.centroids@, q1.codes@ + b1, q2.centroids@, q2.codes@ + b2);
            lemma_split_concat(q1.codes@, b1, q2.codes@, b2);
            assert forall|i: int| 0 <= i < s1.spec_rows() implies s1.row_of(i) == s2.row_of(
                i,
            ) by {
                assert forall|j: int| 0 <= j < q1.dims implies q1.cent_index(i, j)
                    == q2.cent_index(i, j) by {}
                assert(q1.row_of(i) =~= q2.row_of(i));
            }
        },
        (StorageWrap::Dense(_), StorageWrap::Quantized(_)) => {
            let r1 = storage_image(s1).drop_first().drop_first().drop_first().drop_first() + b1;
            let r2 = storage_image(s2).drop_first().drop_first().drop_first().drop_first() + b2;
            assert(spec_u32_to_le_bytes(0) + r1 =~= storage_image(s1) + b1);
            assert(spec_u32_to_le_bytes(1) + r2 =~= storage_image(s2) + b2);
            lemma_split_u32(0, r1, 1, r2);
        },
        (StorageWrap::Quantized(_), StorageWrap::Dense(_)) => {
            let r1 = storage_image(s1).drop_first().drop_first().drop_first().drop_first() + b1;
            let r2 = storage_image(s2).drop_first().drop_first().drop_first().drop_first() + b2;
            assert(spec_u32_to_le_bytes(1) + r1 =~= storage_image(s1) + b1);
            assert(spec_u32_to_le_bytes(0) + r2 =~= storage_image(s2) + b2);
            lemma_split_u32(1, r1, 0, r2);
        },
    }
}

/// Equal norm sections at the heads of equal byte strings carry the
/// same norms.
proof fn lemma_norms_image_injective(
    n1: Option<NormCache>,
    b1: Seq<u8>,
    n2: Option<NormCache>,
    b2: Seq<u8>,
)
    requires
        norms_image(n1) + b1 == norms_image(n2) + b2,
    ensures
        b1 == b2,
        (match (n1, n2) {
            (Some(c1), Some(c2)) => c1.norms@ == c2.norms@,
            (None, None) => true,
            _ => false,
        }),
{
    lemma_auto_spec_u32_to_from_le_bytes();
    lemma_auto_spec_u64_to_from_le_bytes();
    match (n1, n2) {
        (None, None) => {
            lemma_split_u32(0, b1, 0, b2);
        },
        (Some(c1), Some(c2)) => {
            vstd::std_specs::vec::axiom_spec_len(&c1.norms);
            vstd::std_specs::vec::axiom_spec_len(&c2.norms);
            let m1 = c1.norms@.len() as u64;
            let m2 = c2.norms@.len() as u64;
            let t1 = u32s_image(c1.norms@) + b1;
            let t2 = u32s_image(c2.norms@) + b2;
            assert(spec_u32_to_le_bytes(1) + (spec_u64_to_le_bytes(m1) + t1) =~= norms_image(n1)
                + b1);
            assert(spec_u32_to_le_bytes(1) + (spec_u64_to_le_bytes(m2) + t2) =~= norms_image(n2)
                + b2);
            lemma_split_u32(1, spec_u64_to_le_bytes(m1) + t1, 1, spec_u64_to_le_bytes(m2) + t2);
            lemma_split_u64(m1, t1, m2, t2);
            lemma_split_u32s(c1.norms@, b1, c2.norms@, b2);
        },
        (None, Some(c2)) => {
            let r2 = norms_image(n2).drop_first().drop_first().drop_first().drop_first() + b2;
            assert(spec_u32_to_le_bytes(0) + b1 =~= norms_image(n1) + b1);
            assert(spec_u32_to_le_bytes(1) + r2 =~= norms_image(n2) + b2);
            lemma_split_u32(0, b1, 1, r2);
        },
        (Some(c1), None) => {
            let r1 = norms_image(n1).drop_first().drop_first().drop_first().drop_first() + b1;
            assert(spec_u32_to_le_bytes(1) + r1 =~= norms_image(n1) + b1);
            assert(spec_u32_to_le_bytes(0) + b2 =~= norms_image(n2) + b2);
            lemma_split_u32(1, r1, 0, b2);
        },
    }
}

/// Equal metadata sections at the heads of equal byte strings carry the
/// same document.
proof fn lemma_metadata_image_injective(
    m1: Option<Metadata>,
    b1: Seq<u8>,
    m2: Option<Metadata>,
    b2: Seq<u8>,
)
    requires
        metadata_image(m1) + b1 == metadata_image(m2) + b2,
    ensures
        b1 == b2,
        (match (m1, m2) {
            (Some(d1), Some(d2)) => d1.doc@ == d2.doc@,
            (None, None) => true,
            _ => false,
        }),
{
    lemma_auto_spec_u32_to_from_le_bytes();
    lemma_auto_spec_u64_to_from_le_bytes();
    match (m1, m2) {
        (None, None) => {
            lemma_split_u32(0, b1, 0, b2);
        },
        (Some(d1), Some(d2)) => {
            vstd::std_specs::vec::axiom_spec_len(&d1.doc);
            vstd::std_specs::vec::axiom_spec_len(&d2.doc);
            let l1 = d1.doc@.len() as u64;
            let l2 = d2.doc@.len() as u64;
            assert(spec_u32_to_le_bytes(1) + (spec_u64_to_le_bytes(l1) + (d1.doc@ + b1))
                =~= metadata_image(m1) + b1);
            assert(spec_u32_to_le_bytes(1) + (spec_u64_to_le_bytes(l2) + (d2.doc@ + b2))
                =~= metadata_image(m2) + b2);
            lemma_split_u32(
                1,
                spec_u64_to_le_bytes(l1) + (d1.doc@ + b1),
                1,
                spec_u64_to_le_bytes(l2) + (d2.doc@ + b2),
            );
            lemma_split_u64(l1, d1.doc@ + b1, l2, d2.doc@ + b2);
            lemma_split_concat(d1.doc@, b1, d2.doc@, b2);
        },
        (None, Some(d2)) => {
            let r2 = (metadata_image(m2) + b2).drop_first().drop_first().drop_first()
                .drop_first();
            assert(spec_u32_to_le_bytes(0) + b1 =~= metadata_image(m1) + b1);
            assert(spec_u32_to_le_bytes(1) + r2 =~= metadata_image(m2) + b2);
            lemma_split_u32(0, b1, 1, r2);
        },
        (Some(d1), None) => {
            let r1 = (metadata_image(m1) + b1).drop_first().drop_first().drop_first()
                .drop_first();
            assert(spec_u32_to_le_bytes(1) + r1 =~= metadata_image(m1) + b1);
            assert(spec_u32_to_le_bytes(0) + b2 =~= metadata_image(m2) + b2);
            lemma_split_u32(1, r1, 0, b2);
        },
    }
}

/// Two stores whose vocabularies and matrices agree part for part give
/// the same embedding to every word.
proof fn lemma_embedding_congruent(e1: Embeddings, e2: Embeddings, w: Seq<u8>)
    requires
        e1.wf(),
        e2.wf(),
        e1.vocab.is_simple() == e2.vocab.is_simple(),
        e1.spec_words() == e2.spec_words(),
        (match (e1.vocab, e2.vocab) {
            (VocabWrap::Subword(s1), VocabWrap::Subword(s2)) => s1.min_n == s2.min_n && s1.max_n
                == s2.max_n && s1.buckets_exp == s2.buckets_exp && s1.words@.len()
                == s2.words@.len(),
            _ => true,
        }),
        e1.storage.spec_rows() == e2.storage.spec_rows(),
        e1.storage.spec_dims() == e2.storage.spec_dims(),
        forall|i: int|
            0 <= i < e1.storage.spec_rows() ==> e1.storage.row_of(i) == e2.storage.row_of(i),
    ensures
        e1.embedding_of(w) == e2.embedding_of(w),
{
    let ws = e1.spec_words();
    if crate::vocab::contains_word(ws, w) {
        let i = crate::vocab::word_index_of(ws, w);
        assert(0 <= i < ws.len());
        assert(ws.len() <= e1.vocab.spec_n_rows());
        assert(e1.storage.row_of(i) == e2.storage.row_of(i));
    } else {
        match (e1.vocab, e2.vocab) {
            (VocabWrap::Subword(v1), VocabWrap::Subword(v2)) => {
                let rows = v1.subword_rows_of(w);
                assert(rows =~= v2.subword_rows_of(w));
                if 0 < rows.len() <= u32::MAX {
                    let ngs = crate::subwords::ngrams_of(w, v1.min_n as int, v1.max_n as int);
                    assert forall|j: int| 0 <= j < rows.len() implies 0 <= #[trigger] rows[j]
                        < e1.storage.spec_rows() by {
                        crate::subwords::lemma_bucket_in_range(ngs[j], v1.buckets_exp);
                    }
                    assert(rows.map_values(|r: int| e1.storage.row_of(r)) =~= rows.map_values(
                        |r: int| e2.storage.row_of(r),
                    ));
                }
            },
            (VocabWrap::Simple(_), VocabWrap::Simple(_)) => {},
            _ => {
                assert(false);
            },
        }
    }
}

/// The container image is injective on well-formed stores: two stores
/// with one image agree on the embedding of every word, on the word
/// list, on the cached norms and on the metadata document.  With the
/// writer producing exactly the image of a store and the reader
/// accepting only bytes that are the image of the store it returns,
/// writing a store and re-reading the bytes can only yield the store
/// that was written.
#[verifier::rlimit(100)]
pub proof fn lemma_image_injective(e1: Embeddings, e2: Embeddings)
    requires
        e1.wf(),
        e2.wf(),
        image_of(e1) == image_of(e2),
    ensures
        e1.spec_words() == e2.spec_words(),
        forall|w: Seq<u8>| #[trigger] e1.embedding_of(w) == e2.embedding_of(w),
        (match (e1.norms, e2.norms) {
            (Some(c1), Some(c2)) => c1.norms@ == c2.norms@,
            (None, None) => true,
            _ => false,
        }),
        (match (e1.metadata, e2.metadata) {
            (Some(d1), Some(d2)) => d1.doc@ == d2.doc@,
            (None, None) => true,
            _ => false,
        }),
{
    lemma_auto_spec_u32_to_from_le_bytes();
    let r1 = vocab_image(e1.vocab) + (storage_image(e1.storage) + (norms_image(e1.norms)
        + metadata_image(e1.metadata)));
    let r2 = vocab_image(e2.vocab) + (storage_image(e2.storage) + (norms_image(e2.norms)
        + metadata_image(e2.metadata)));
    assert(spec_u32_to_le_bytes(CONTAINER_MAGIC) + r1 =~= image_of(e1));
    assert(spec_u32_to_le_bytes(CONTAINER_MAGIC) + r2 =~= image_of(e2));
    lemma_split_u32(CONTAINER_MAGIC, r1, CONTAINER_MAGIC, r2);
    lemma_vocab_image_injective(
        e1.vocab,
        storage_image(e1.storage) + (norms_image(e1.norms) + metadata_image(e1.metadata)),
        e2.vocab,
        storage_image(e2.storage) + (norms_image(e2.norms) + metadata_image(e2.metadata)),
    );
    lemma_storage_image_injective(
        e1.storage,
        norms_image(e1.norms) + metadata_image(e1.metadata),
        e2.storage,
        norms_image(e2.norms) + metadata_image(e2.metadata),
    );
    lemma_norms_image_injective(
        e1.norms,
        metadata_image(e1.metadata),
        e2.norms,
        metadata_image(e2.metadata),
    );
    assert(metadata_image(e1.metadata) + Seq::<u8>::empty() =~= metadata_image(e1.metadata));
    assert(metadata_image(e2.metadata) + Seq::<u8>::empty() =~= metadata_image(e2.metadata));
    lemma_metadata_image_injective(
        e1.metadata,
        Seq::<u8>::empty(),
        e2.metadata,
        Seq::<u8>::empty(),
    );
    assert forall|w: Seq<u8>| #[trigger] e1.embedding_of(w) == e2.embedding_of(w) by {
        lemma_embedding_congruent(e1, e2, w);
    }
}

} // verus!
