//! Matches in the form in which they travel: lists of pairs in place of maps.

use vstd::prelude::*;

use super::anchor_map::{AnchorMap, CrossWorkerAnchor};
use super::lower_tier::{LowerTierContinuation, LowerTierMatchDetails, LowerTierMatchView};
use super::lower_tier_indexers::match_views;
use super::match_details::{MatchDetails, TieredMatchDetails};
use crate::listing::{from_pairs, lists};
use crate::protocols::{ExternalSequenceBlockHash, OverlapScores, StorageTier, WorkerWithDpRank};
use crate::tier_map::TierMap;
use crate::worker_map::WorkerMap;

verus! {

/// [`OverlapScores`] on the wire.
#[derive(Debug, Clone, PartialEq, Eq)]
pub struct WireOverlapScores {
    pub scores: Vec<(WorkerWithDpRank, u32)>,
}

/// [`LowerTierMatchDetails`] on the wire.
#[derive(Debug, Clone, PartialEq, Eq)]
pub struct WireLowerTierMatchDetails {
    pub hits: Vec<(WorkerWithDpRank, usize)>,
    pub cross_worker_hits: Vec<(WorkerWithDpRank, usize)>,
    pub cross_worker_anchors: Vec<(WorkerWithDpRank, CrossWorkerAnchor)>,
    pub next_continuations: Vec<(WorkerWithDpRank, LowerTierContinuation)>,
}

/// [`TieredMatchDetails`] on the wire. The last blocks matched on the device do
/// not travel: they only start the walk down the tiers, which is over by then.
#[derive(Debug, Clone, PartialEq, Eq)]
pub struct WireTieredMatchDetails {
    pub device: WireOverlapScores,
    pub lower_tier: Vec<(StorageTier, WireLowerTierMatchDetails)>,
}

impl WireLowerTierMatchDetails {
    /// The lists hold the pairs of the maps of `details`, each once.
    pub open spec fn encodes(self, details: LowerTierMatchView) -> bool {
        &&& lists(self.hits@, details.hits)
        &&& lists(self.cross_worker_hits@, details.cross_worker_hits)
        &&& lists(self.cross_worker_anchors@, details.cross_worker_anchors)
        &&& lists(self.next_continuations@, details.next_continuations)
    }

    /// The maps that the lists stand for.
    pub open spec fn decoded(self) -> LowerTierMatchView {
        LowerTierMatchView {
            hits: from_pairs(self.hits@),
            cross_worker_hits: from_pairs(self.cross_worker_hits@),
            cross_worker_anchors: from_pairs(self.cross_worker_anchors@),
            next_continuations: from_pairs(self.next_continuations@),
        }
    }
}

impl WireTieredMatchDetails {
    /// The lists hold the device scores and the tiers of `details`, each once.
    pub open spec fn encodes(self, details: TieredMatchDetails) -> bool {
        &&& lists(self.device.scores@, details.device.overlap_scores.scores@)
        &&& forall|i: int, j: int|
            0 <= i < j < self.lower_tier@.len() ==> (#[trigger] self.lower_tier@[i]).0 != (
            #[trigger] self.lower_tier@[j]).0
        &&& forall|i: int|
            0 <= i < self.lower_tier@.len() ==> details.lower_tier@.contains_key(
                (#[trigger] self.lower_tier@[i]).0,
            ) && self.lower_tier@[i].1.encodes(details.lower_tier@[self.lower_tier@[i].0]@)
        &&& forall|t: StorageTier| #[trigger]
            details.lower_tier@.contains_key(t) ==> exists|i: int|
                0 <= i < self.lower_tier@.len() && (#[trigger] self.lower_tier@[i]).0 == t
    }

    /// The tiers that the list stands for: of several entries for a tier the
    /// last one counts.
    pub open spec fn decoded_tiers(self) -> Map<StorageTier, LowerTierMatchView> {
        from_pairs(self.lower_tier@).map_values(|wire: WireLowerTierMatchDetails| wire.decoded())
    }
}

impl From<&OverlapScores> for WireOverlapScores {
    fn from(overlap: &OverlapScores) -> (wire: Self)
        ensures
            lists(wire.scores@, overlap.scores@),
    {
        WireOverlapScores { scores: overlap.scores.entries() }
    }
}

impl vstd::std_specs::convert::FromSpecImpl<&OverlapScores> for WireOverlapScores {
    open spec fn obeys_from_spec() -> bool {
        false
    }

    open spec fn from_spec(overlap: &OverlapScores) -> Self {
        arbitrary()
    }
}

impl From<&LowerTierMatchDetails> for WireLowerTierMatchDetails {
    fn from(details: &LowerTierMatchDetails) -> (wire: Self)
        ensures
            wire.encodes(details@),
    {
        WireLowerTierMatchDetails {
            hits: details.hits.entries(),
            cross_worker_hits: details.cross_worker_hits.entries(),
            cross_worker_anchors: details.cross_worker_anchors.entries(),
            next_continuations: details.next_continuations.entries(),
        }
    }
}

impl vstd::std_specs::convert::FromSpecImpl<&LowerTierMatchDetails> for WireLowerTierMatchDetails {
    open spec fn obeys_from_spec() -> bool {
        false
    }

    open spec fn from_spec(details: &LowerTierMatchDetails) -> Self {
        arbitrary()
    }
}

impl From<&TieredMatchDetails> for WireTieredMatchDetails {
    fn from(details: &TieredMatchDetails) -> (wire: Self)
        ensures
            wire.encodes(*details),
    {
        let tiers = details.lower_tier.entries();
        let mut lower_tier: Vec<(StorageTier, WireLowerTierMatchDetails)> = Vec::new();
        for i in 0..tiers.len()
            invariant
                lists(tiers@, details.lower_tier@.map_values(|v: LowerTierMatchDetails| &v)),
                lower_tier@.len() == i,
                forall|k: int|
                    0 <= k < i ==> (#[trigger] lower_tier@[k]).0 == tiers@[k].0
                        && lower_tier@[k].1.encodes(tiers@[k].1@),
        {
            let (tier, matches) = tiers[i];
            lower_tier.push((tier, WireLowerTierMatchDetails::from(matches)));
        }
        let wire = WireTieredMatchDetails {
            device: WireOverlapScores::from(&details.device.overlap_scores),
            lower_tier,
        };
        proof {
            let handles = details.lower_tier@.map_values(|v: LowerTierMatchDetails| &v);
            assert forall|t: StorageTier| #[trigger]
                details.lower_tier@.contains_key(t) implies exists|i: int|
                0 <= i < wire.lower_tier@.len() && (#[trigger] wire.lower_tier@[i]).0 == t by {
                assert(handles.contains_key(t));
                let k = choose|k: int| 0 <= k < tiers@.len() && tiers@[k] == (t, handles[t]);
                assert(wire.lower_tier@[k].0 == t);
            }
        }
        wire
    }
}

impl vstd::std_specs::convert::FromSpecImpl<&TieredMatchDetails> for WireTieredMatchDetails {
    open spec fn obeys_from_spec() -> bool {
        false
    }

    open spec fn from_spec(details: &TieredMatchDetails) -> Self {
        arbitrary()
    }
}

impl From<WireOverlapScores> for OverlapScores {
    fn from(wire: WireOverlapScores) -> (overlap: Self)
        ensures
            overlap.scores@ == from_pairs(wire.scores@),
    {
        OverlapScores { scores: WorkerMap::from_entries(&wire.scores) }
    }
}

impl vstd::std_specs::convert::FromSpecImpl<WireOverlapScores> for OverlapScores {
    open spec fn obeys_from_spec() -> bool {
        false
    }

    open spec fn from_spec(wire: WireOverlapScores) -> Self {
        arbitrary()
    }
}

impl From<&WireLowerTierMatchDetails> for LowerTierMatchDetails {
    fn from(wire: &WireLowerTierMatchDetails) -> (details: Self)
        ensures
            details@ == wire.decoded(),
    {
        LowerTierMatchDetails {
            hits: WorkerMap::from_entries(&wire.hits),
            cross_worker_hits: WorkerMap::from_entries(&wire.cross_worker_hits),
            cross_worker_anchors: AnchorMap::from_entries(&wire.cross_worker_anchors),
            next_continuations: WorkerMap::from_entries(&wire.next_continuations),
        }
    }
}

impl vstd::std_specs::convert::FromSpecImpl<&WireLowerTierMatchDetails> for LowerTierMatchDetails {
    open spec fn obeys_from_spec() -> bool {
        false
    }

    open spec fn from_spec(wire: &WireLowerTierMatchDetails) -> Self {
        arbitrary()
    }
}

impl From<WireTieredMatchDetails> for TieredMatchDetails {
    fn from(wire: WireTieredMatchDetails) -> (details: Self)
        ensures
            details.device.overlap_scores.scores@ == from_pairs(wire.device.scores@),
            details.device.last_matched_hashes@ == Map::<
                WorkerWithDpRank,
                ExternalSequenceBlockHash,
            >::empty(),
            match_views(details.lower_tier@) == wire.decoded_tiers(),
    {
        let mut lower_tier: TierMap<LowerTierMatchDetails> = TierMap::new();
        let ghost all = wire.lower_tier@;
        let ghost decode = |wire: WireLowerTierMatchDetails| wire.decoded();
        assert(all.take(0) =~= Seq::<(StorageTier, WireLowerTierMatchDetails)>::empty());
        assert(match_views(lower_tier@) =~= from_pairs(all.take(0)).map_values(decode));
        for i in 0..wire.lower_tier.len()
            invariant
                all == wire.lower_tier@,
                decode == (|wire: WireLowerTierMatchDetails| wire.decoded()),
                match_views(lower_tier@) == from_pairs(all.take(i as int)).map_values(decode),
        {
            let (tier, matches) = &wire.lower_tier[i];
            let ghost before = match_views(lower_tier@);
            let decoded = LowerTierMatchDetails::from(matches);
            assert(all.take(i + 1).drop_last() =~= all.take(i as int));
            lower_tier.insert(*tier, decoded);
            assert(match_views(lower_tier@) =~= before.insert(*tier, decoded@));
            assert(from_pairs(all.take(i + 1)).map_values(decode) =~= before.insert(
                *tier,
                decoded@,
            ));
        }
        assert(all.take(all.len() as int) =~= all);
        TieredMatchDetails {
            device: MatchDetails {
                overlap_scores: OverlapScores::from(wire.device),
                ..MatchDetails::default()
            },
            lower_tier,
        }
    }
}

impl vstd::std_specs::convert::FromSpecImpl<WireTieredMatchDetails> for TieredMatchDetails {
    open spec fn obeys_from_spec() -> bool {
        false
    }

    open spec fn from_spec(wire: WireTieredMatchDetails) -> Self {
        arbitrary()
    }
}

} // verus!
