//! Cached market-data storage: an interval-based range store with
//! merge-on-insert and classified range queries, a JSON persistence codec,
//! and a lazy three-tier data broker.

pub mod backtesting;
pub mod bars;
pub mod broker;
pub mod codec;
pub mod persist;
pub mod interval_map;
pub mod keys;
pub mod range_store;
pub mod store_model;

use vstd::prelude::*;

verus! {

/// The errors the library reports: a bad storage root, a corrupt persisted
/// document, an invalid range request, or a failed remote fetch.
#[derive(Clone, Copy, Debug, PartialEq, Eq, Structural)]
pub enum DataError {
    Config,
    Parse,
    Range,
    Fetch,
}

} // verus!
