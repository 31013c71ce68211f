//! The metadata document attached to a store.
//!
//! The document is an opaque TOML text, carried as bytes, validated on
//! construction and replaced only wholesale.

use vstd::prelude::*;

use crate::Error;

verus! {

pub uninterp spec fn toml_ok(doc: Seq<u8>) -> bool;

/// Relies on `toml::from_slice::<toml::Value>`: whether a byte string
/// parses as a TOML document depends on its bytes alone.
#[verifier::external_body]
pub(crate) fn toml_parses(doc: &Vec<u8>) -> (r: bool)
    ensures
        r == toml_ok(doc@),
{
    toml::from_slice::<toml::Value>(doc.as_slice()).is_ok()
}

/// A validated metadata document.
pub struct Metadata {
    /// The TOML text, as bytes.
    pub doc: Vec<u8>,
}

impl Metadata {
    /// Well-formedness: the bytes parse as a TOML document.
    pub open spec fn wf(&self) -> bool {
        toml_ok(self.doc@)
    }

    /// Accepts a document after validating it.
    pub fn new(doc: Vec<u8>) -> (r: Result<Metadata, Error>)
        ensures
            match r {
                Ok(m) => m.doc@ == doc@ && m.wf(),
                Err(e) => e == Error::InvalidMetadata && !toml_ok(doc@),
            },
    {
        if toml_parses(&doc) {
            Ok(Metadata { doc })
        } else {
            Err(Error::InvalidMetadata)
        }
    }

    /// The document bytes.
    pub fn bytes(&self) -> (r: &Vec<u8>)
        ensures
            r@ == self.doc@,
    {
        &self.doc
    }
}

} // verus!
