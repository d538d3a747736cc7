use vstd::prelude::*;
use crate::index::IndexBuildQuality;

verus! {

pub const DEFAULT_INDEX_BUILD_QUALITY: IndexBuildQuality = IndexBuildQuality::Standard;

/// Multiplier applied to the requested result count when post-filtering is
/// needed, to compensate for candidates the filter will discard.
pub const DEFAULT_OVERFETCH_FACTOR: usize = 5;

} // verus!
