//! Tunable constants of the fetch engine.

use vstd::prelude::*;

verus! {

/// Smallest request the engine sends; tiny requests are grown to this size.
pub const MINIMUM_DOWNLOAD_SIZE: usize = 1024 * 16;

/// Most range requests kept in flight by the prefetch heuristic.
pub const MAX_PREFETCH_REQUESTS: usize = 4;

/// Ceiling applied to a measured round-trip sample, in milliseconds.
pub const MAXIMUM_ASSUMED_PING_TIME_MS: usize = 200;

/// Prefetch buffer factor applied to the nominal stream data rate.
pub const PREFETCH_THRESHOLD_FACTOR: usize = 4;

/// Prefetch buffer factor applied to the measured download rate, as a
/// fraction: numerator over denominator.
pub const FAST_PREFETCH_THRESHOLD_FACTOR_NUM: usize = 3;

/// Denominator of the measured-rate prefetch factor.
pub const FAST_PREFETCH_THRESHOLD_FACTOR_DEN: usize = 2;

} // verus!
