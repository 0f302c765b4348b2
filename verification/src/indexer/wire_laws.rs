//! What holds of matches that travel.

use vstd::prelude::*;

use super::lower_tier::LowerTierMatchDetails;
use super::lower_tier_indexers::match_views;
use super::match_details::TieredMatchDetails;
use super::wire::{WireLowerTierMatchDetails, WireTieredMatchDetails};
use crate::listing::{
    from_pairs, law_listing_is_complete, lemma_from_pairs_keys, lemma_last_pair_stays,
};
use crate::protocols::StorageTier;

verus! {

/// A tier's match travels whole: each list has the pairs of the map that it is
/// named after, every one of them once.
pub proof fn law_tier_travels_whole(
    details: LowerTierMatchDetails,
    wire: WireLowerTierMatchDetails,
)
    requires
        wire.encodes(details@),
    ensures
        wire.hits@.no_duplicates(),
        wire.hits@.to_set() == details.hits@.kv_pairs(),
        wire.cross_worker_hits@.no_duplicates(),
        wire.cross_worker_hits@.to_set() == details.cross_worker_hits@.kv_pairs(),
        wire.cross_worker_anchors@.no_duplicates(),
        wire.cross_worker_anchors@.to_set() == details.cross_worker_anchors@.kv_pairs(),
        wire.next_continuations@.no_duplicates(),
        wire.next_continuations@.to_set() == details.next_continuations@.kv_pairs(),
{
    law_listing_is_complete(wire.hits@, details@.hits);
    law_listing_is_complete(wire.cross_worker_hits@, details@.cross_worker_hits);
    law_listing_is_complete(wire.cross_worker_anchors@, details@.cross_worker_anchors);
    law_listing_is_complete(wire.next_continuations@, details@.next_continuations);
}

/// A whole match travels with every device score and every tier, each once, and
/// under each tier travels that tier's match.
pub proof fn law_every_tier_travels(
    details: TieredMatchDetails,
    wire: WireTieredMatchDetails,
    tier: StorageTier,
)
    requires
        wire.encodes(details),
    ensures
        wire.device.scores@.no_duplicates(),
        wire.device.scores@.to_set() == details.device.overlap_scores.scores@.kv_pairs(),
        details.lower_tier@.contains_key(tier) <==> exists|i: int|
            0 <= i < wire.lower_tier@.len() && (#[trigger] wire.lower_tier@[i]).0 == tier,
        forall|i: int, j: int|
            0 <= i < j < wire.lower_tier@.len() ==> (#[trigger] wire.lower_tier@[i]).0 != (
            #[trigger] wire.lower_tier@[j]).0,
        forall|i: int|
            0 <= i < wire.lower_tier@.len() && (#[trigger] wire.lower_tier@[i]).0 == tier ==> {
                let sent = wire.lower_tier@[i].1;
                let held = details.lower_tier@[tier];
                &&& sent.hits@.to_set() == held.hits@.kv_pairs()
                &&& sent.cross_worker_hits@.to_set() == held.cross_worker_hits@.kv_pairs()
                &&& sent.cross_worker_anchors@.to_set() == held.cross_worker_anchors@.kv_pairs()
                &&& sent.next_continuations@.to_set() == held.next_continuations@.kv_pairs()
            },
{
    law_listing_is_complete(wire.device.scores@, details.device.overlap_scores.scores@);
    assert forall|i: int|
        0 <= i < wire.lower_tier@.len() && (#[trigger] wire.lower_tier@[i]).0 == tier implies {
        let sent = wire.lower_tier@[i].1;
        let held = details.lower_tier@[tier];
        &&& sent.hits@.to_set() == held.hits@.kv_pairs()
        &&& sent.cross_worker_hits@.to_set() == held.cross_worker_hits@.kv_pairs()
        &&& sent.cross_worker_anchors@.to_set() == held.cross_worker_anchors@.kv_pairs()
        &&& sent.next_continuations@.to_set() == held.next_continuations@.kv_pairs()
    } by {
        law_tier_travels_whole(details.lower_tier@[tier], wire.lower_tier@[i].1);
    }
}

/// What arrives is read in full: a tier is there exactly if some entry names it,
/// and each of its maps is read from the list of the same name in the tier's
/// last entry.
pub proof fn law_every_tier_is_read(
    wire: WireTieredMatchDetails,
    details: TieredMatchDetails,
    tier: StorageTier,
)
    requires
        match_views(details.lower_tier@) == wire.decoded_tiers(),
    ensures
        details.lower_tier@.contains_key(tier) <==> exists|i: int|
            0 <= i < wire.lower_tier@.len() && (#[trigger] wire.lower_tier@[i]).0 == tier,
        forall|i: int|
            0 <= i < wire.lower_tier@.len() && (#[trigger] wire.lower_tier@[i]).0 == tier && (
            forall|j: int|
                i < j < wire.lower_tier@.len() ==> (#[trigger] wire.lower_tier@[j]).0 != tier)
                ==> {
                let sent = wire.lower_tier@[i].1;
                let read = details.lower_tier@[tier];
                &&& read.hits@ == from_pairs(sent.hits@)
                &&& read.cross_worker_hits@ == from_pairs(sent.cross_worker_hits@)
                &&& read.cross_worker_anchors@ == from_pairs(sent.cross_worker_anchors@)
                &&& read.next_continuations@ == from_pairs(sent.next_continuations@)
            },
{
    lemma_from_pairs_keys(wire.lower_tier@, tier);
    assert(details.lower_tier@.contains_key(tier) == match_views(
        details.lower_tier@,
    ).contains_key(tier));
    assert(wire.decoded_tiers().contains_key(tier) == from_pairs(wire.lower_tier@).contains_key(
        tier,
    ));
    assert forall|i: int|
        0 <= i < wire.lower_tier@.len() && (#[trigger] wire.lower_tier@[i]).0 == tier && (forall|
            j: int,
        |
            i < j < wire.lower_tier@.len() ==> (#[trigger] wire.lower_tier@[j]).0
                != tier) implies match_views(details.lower_tier@)[tier]
        == wire.lower_tier@[i].1.decoded() && details.lower_tier@.contains_key(tier) by {
        lemma_last_pair_stays(wire.lower_tier@, i);
    }
}

} // verus!
