//! Matches of a request against the device and the tiers below it.

use vstd::prelude::*;

use super::lower_tier::LowerTierMatchDetails;
use crate::protocols::{ExternalSequenceBlockHash, OverlapScores, StorageTier, WorkerWithDpRank};
use crate::tier_map::TierMap;
use crate::worker_map::WorkerMap;

verus! {

/// How much of a request each worker holds on its device, and the last block
/// that was matched there.
#[derive(Debug, Clone)]
pub struct MatchDetails {
    pub overlap_scores: OverlapScores,
    pub last_matched_hashes: WorkerMap<ExternalSequenceBlockHash>,
}

impl Default for MatchDetails {
    fn default() -> (details: Self)
        ensures
            details.overlap_scores.scores@ == Map::<WorkerWithDpRank, u32>::empty(),
            details.last_matched_hashes@ == Map::<
                WorkerWithDpRank,
                ExternalSequenceBlockHash,
            >::empty(),
    {
        MatchDetails { overlap_scores: OverlapScores::new(), last_matched_hashes: WorkerMap::new() }
    }
}

/// The device match of a request together with what each lower tier adds to it.
#[derive(Debug, Clone)]
pub struct TieredMatchDetails {
    pub device: MatchDetails,
    pub lower_tier: TierMap<LowerTierMatchDetails>,
}

impl Default for TieredMatchDetails {
    fn default() -> (details: Self)
        ensures
            details.device.overlap_scores.scores@ == Map::<WorkerWithDpRank, u32>::empty(),
            details.device.last_matched_hashes@ == Map::<
                WorkerWithDpRank,
                ExternalSequenceBlockHash,
            >::empty(),
            details.lower_tier@ == Map::<StorageTier, LowerTierMatchDetails>::empty(),
    {
        TieredMatchDetails { device: MatchDetails::default(), lower_tier: TierMap::new() }
    }
}

} // verus!
