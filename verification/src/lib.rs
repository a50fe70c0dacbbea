//! Verified core of a transit-departure board: normalization of raw
//! schedule entries into a filtered, sorted, bounded departure list,
//! assembly of per-stop fetch outcomes into a consistent snapshot, and
//! a store that replaces the published snapshot wholesale.

pub mod clock;
pub mod fetcher;
pub mod geocode;
pub mod models;
pub mod normalize;
pub mod settings;
pub mod snapshot;
pub mod store;

use vstd::prelude::*;

verus! {

/// Largest magnitude, in seconds, accepted for an offset from local
/// midnight.  Keeps the remaining-time arithmetic inside `i64`.
pub const MAX_OFFSET_SECONDS: i64 = 1_000_000_000_000;

} // verus!
