//! Storage endpoints the indexer writes to.

use vstd::prelude::*;

verus! {

/// A column-store endpoint, identified by its URL; the writer itself lives
/// with the transport layer.
pub struct ChStore {
    pub url: String,
}

impl ChStore {
    /// A store handle for the given endpoint.
    pub fn new(url: &str) -> (r: ChStore)
        ensures
            r.url@ == url@,
    {
        ChStore { url: url.to_owned() }
    }
}

} // verus!
