//! The store behind one of two capability tags: with viewable storage
//! (ranking queries available) or without.

use vstd::prelude::*;

use crate::embeddings::Embeddings;
use crate::storage::NormCache;
use crate::storage::StorageWrap;
use crate::vocab::VocabWrap;

verus! {

/// A store tagged by whether its storage is viewable.
pub enum EmbeddingsWrap {
    /// A store whose storage cannot expose row views; ranking queries
    /// are unavailable.
    NonView(Embeddings),
    /// A store with viewable storage; all queries are available.
    View(Embeddings),
}

impl EmbeddingsWrap {
    /// The store behind the tag.
    pub open spec fn inner(&self) -> Embeddings {
        match self {
            EmbeddingsWrap::NonView(e) => *e,
            EmbeddingsWrap::View(e) => *e,
        }
    }

    /// Whether this is the viewable tag.
    pub open spec fn is_view(&self) -> bool {
        match self {
            EmbeddingsWrap::NonView(_) => false,
            EmbeddingsWrap::View(_) => true,
        }
    }

    /// Well-formedness: the store is well-formed and the tag tells the
    /// truth about its storage.
    pub open spec fn wf(&self) -> bool {
        self.inner().wf() && self.is_view() == self.inner().storage.spec_viewable()
    }

    /// Tags a store by probing its storage capability: the viewable tag
    /// when row views are available, the other one otherwise.
    pub fn new(e: Embeddings) -> (r: EmbeddingsWrap)
        requires
            e.wf(),
        ensures
            r.wf(),
            r.inner() == e,
            r.is_view() == e.storage.spec_viewable(),
    {
        if e.storage.is_viewable() {
            EmbeddingsWrap::View(e)
        } else {
            EmbeddingsWrap::NonView(e)
        }
    }

    /// The storage of either variant.
    pub fn storage(&self) -> (r: &StorageWrap)
        ensures
            *r == self.inner().storage,
    {
        match self {
            EmbeddingsWrap::NonView(e) => &e.storage,
            EmbeddingsWrap::View(e) => &e.storage,
        }
    }

    /// The vocabulary of either variant.
    pub fn vocab(&self) -> (r: &VocabWrap)
        ensures
            *r == self.inner().vocab,
    {
        match self {
            EmbeddingsWrap::NonView(e) => &e.vocab,
            EmbeddingsWrap::View(e) => &e.vocab,
        }
    }

    /// The norm cache of either variant, if one is present.
    pub fn norms(&self) -> (r: Option<&NormCache>)
        ensures
            match r {
                Some(n) => self.inner().norms == Some(*n),
                None => self.inner().norms is None,
            },
    {
        let e = match self {
            EmbeddingsWrap::NonView(e) => e,
            EmbeddingsWrap::View(e) => e,
        };
        match &e.norms {
            Some(n) => Some(n),
            None => None,
        }
    }

    /// Looks a word up in either variant.
    pub fn embedding(&self, w: &Vec<u8>) -> (r: Option<Vec<u32>>)
        requires
            self.wf(),
        ensures
            match r {
                Some(v) => self.inner().embedding_of(w@) == Some(v@),
                None => self.inner().embedding_of(w@) is None,
            },
    {
        let e = match self {
            EmbeddingsWrap::NonView(e) => e,
            EmbeddingsWrap::View(e) => e,
        };
        e.embedding(w)
    }

    /// The store, only when its storage supports ranking queries.
    pub fn view(&self) -> (r: Option<&Embeddings>)
        requires
            self.wf(),
        ensures
            match r {
                Some(e) => *e == self.inner() && e.storage.spec_viewable(),
                None => !self.inner().storage.spec_viewable(),
            },
    {
        match self {
            EmbeddingsWrap::NonView(_) => None,
            EmbeddingsWrap::View(e) => Some(e),
        }
    }
}

} // verus!
