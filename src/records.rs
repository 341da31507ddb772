//! Plain records that the address tools built on the index pass around.
use vstd::prelude::*;

verus! {

/// A recognised part of an address query.
#[derive(Debug, Clone, PartialEq, Eq)]
pub enum AddressToken {
    Locality(String),
    Street(String),
}

/// The feature ids of one attribute or label of a tagging model.
#[derive(Debug, Clone)]
pub struct FeatureRefs {
    pub num_features: u32,
    pub feature_ids: Vec<u32>,
}

/// One labelled address of a training corpus: language, country and
/// labelled tokens.
#[derive(Debug, Clone)]
pub struct LpFileEntry {
    pub lang: String,
    pub country: String,
    pub tokens: Vec<LpEntryToken>,
}

/// One token of a labelled address: as written, transliterated to lower-case
/// ASCII, and its label.
#[derive(Debug, Clone)]
pub struct LpEntryToken {
    pub word: String,
    pub transliterated: String,
    pub label: String,
}

} // verus!
