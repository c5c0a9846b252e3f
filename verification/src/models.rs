//! The catalogue records served by the gateway's routes.

use vstd::prelude::*;

verus! {

/// One trading epoch of a market.
pub struct Epoch {
    pub epoch_id: u64,
    pub market_id: String,
    pub state: String,
}

/// One listed market.
pub struct Market {
    pub market_id: String,
    pub domain: String,
    pub status: String,
}

} // verus!
