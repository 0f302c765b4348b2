//! What holds of the answers for a request, and of the registry of indexes.

use vstd::prelude::*;

use super::anchor_map::CrossWorkerAnchor;
use super::chain_laws::{law_chain_ends_where_edges_end, law_split_chain_is_found_in_full};
use super::lower_tier::{
    advanced, chain, extension, lemma_chain_len, suffix, Edges, LowerTierContinuation,
    LowerTierIndexer, LowerTierMatchDetails,
};
use super::lower_tier_indexers::{
    continuations_below, lower_tier_matches, match_views, merged, root, root_holders, seeds,
    tier_matches, tiers_above, with_roots, LowerTierIndexers,
};
use super::match_details::MatchDetails;
use super::thread_pool::ThreadPoolIndexer;
use crate::listing::{law_listing_is_complete, lists};
use crate::protocols::{ExternalSequenceBlockHash, LocalBlockHash, StorageTier, WorkerWithDpRank};

verus! {

/// What a tier is handed is what the nearest allocated tier above it handed on.
proof fn lemma_continuations_come_from_above(
    tiers: Map<StorageTier, Edges>,
    sequence: Seq<LocalBlockHash>,
    seeds: Map<WorkerWithDpRank, LowerTierContinuation>,
)
    ensures
        ({
            let answers = lower_tier_matches(tiers, sequence, seeds);
            let to_disk = if tiers.contains_key(StorageTier::HostPinned) {
                answers[StorageTier::HostPinned].next_continuations
            } else {
                seeds
            };
            let to_external = if tiers.contains_key(StorageTier::Disk) {
                answers[StorageTier::Disk].next_continuations
            } else {
                to_disk
            };
            &&& tiers.contains_key(StorageTier::HostPinned) ==> answers[StorageTier::HostPinned]
                == tier_matches(tiers[StorageTier::HostPinned], sequence, seeds)
            &&& tiers.contains_key(StorageTier::Disk) ==> answers[StorageTier::Disk]
                == tier_matches(tiers[StorageTier::Disk], sequence, to_disk)
            &&& tiers.contains_key(StorageTier::External) ==> answers[StorageTier::External]
                == tier_matches(tiers[StorageTier::External], sequence, to_external)
        }),
{
    reveal_with_fuel(continuations_below, 3);
    let above_disk = tiers_above(StorageTier::Disk);
    let above_external = tiers_above(StorageTier::External);
    assert(above_disk.drop_last() =~= seq![]);
    assert(above_external.drop_last() =~= above_disk);
    assert(continuations_below(tiers, sequence, seeds, tiers_above(StorageTier::HostPinned))
        == seeds);
}

/// What a tier answers for one worker that was handed on to it, or that it
/// knows from the root.
proof fn lemma_tier_matches_of_worker(
    edges: Edges,
    sequence: Seq<LocalBlockHash>,
    handed: Map<WorkerWithDpRank, LowerTierContinuation>,
    worker: WorkerWithDpRank,
)
    requires
        sequence.len() <= usize::MAX,
    ensures
        ({
            let matches = tier_matches(edges, sequence, handed);
            let at_root = sequence.len() > 0 && edges.contains_key((worker, None, sequence[0]));
            let known = handed.contains_key(worker) || at_root;
            let from = if handed.contains_key(worker) {
                handed[worker]
            } else {
                root()
            };
            let own = extension(edges, sequence, worker, from);
            let from_root = chain(edges, worker, None, sequence);
            &&& matches.hits.contains_key(worker) <==> known
            &&& matches.cross_worker_hits.contains_key(worker) <==> known
            &&& matches.cross_worker_anchors.contains_key(worker) <==> known
            &&& matches.next_continuations.contains_key(worker) <==> known
            &&& known ==> {
                &&& own.len() <= usize::MAX
                &&& from_root.len() <= usize::MAX
                &&& at_root <==> from_root.len() > 0
                &&& matches.hits[worker] == own.len()
                &&& matches.next_continuations[worker] == advanced(edges, sequence, worker, from)
                &&& from.start_pos + own.len() <= usize::MAX
                &&& matches.cross_worker_hits[worker] == if from_root.len() >= own.len() {
                    from_root.len()
                } else {
                    own.len()
                }
                &&& matches.cross_worker_anchors[worker] == if at_root && from_root.len()
                    >= own.len() {
                    CrossWorkerAnchor { start_pos: 0, parent_hash: None }
                } else {
                    CrossWorkerAnchor {
                        start_pos: from.start_pos,
                        parent_hash: from.last_matched_hash,
                    }
                }
            }
        }),
{
    let from = if handed.contains_key(worker) {
        handed[worker]
    } else {
        root()
    };
    lemma_chain_len(edges, worker, None, sequence);
    lemma_chain_len(edges, worker, from.last_matched_hash, suffix(sequence, from.start_pos as int));
    assert(suffix(sequence, 0) =~= sequence);
    assert(root_holders(edges, sequence).contains(worker) <==> sequence.len() > 0
        && edges.contains_key((worker, None, sequence[0])));
}

/// There is an answer for every tier below the device that has an index, and
/// for no other.
pub proof fn law_every_allocated_tier_is_answered_for(
    indexers: LowerTierIndexers,
    sequence: Seq<LocalBlockHash>,
    device: MatchDetails,
    matches: Map<StorageTier, LowerTierMatchDetails>,
    tier: StorageTier,
)
    requires
        match_views(matches) == lower_tier_matches(
            indexers.tier_edges(),
            sequence,
            seeds(device.overlap_scores.scores@, device.last_matched_hashes@),
        ),
    ensures
        matches.contains_key(tier) <==> tier != StorageTier::Device && indexers@.contains_key(
            tier,
        ),
{
    assert(matches.contains_key(tier) == match_views(matches).contains_key(tier));
    assert(indexers@.contains_key(tier) == indexers.tier_edges().contains_key(tier));
}

/// Each tier takes every match up where the nearest allocated tier above left
/// it, the first one where the device left it, and a worker of which none of
/// these knows at the root. The hits are the blocks that the tier holds from
/// there on; the match then stands behind the last of them.
pub proof fn law_tier_takes_over_from_the_one_above(
    indexers: LowerTierIndexers,
    sequence: Seq<LocalBlockHash>,
    device: MatchDetails,
    matches: Map<StorageTier, LowerTierMatchDetails>,
    tier: StorageTier,
    worker: WorkerWithDpRank,
)
    requires
        sequence.len() <= usize::MAX,
        match_views(matches) == lower_tier_matches(
            indexers.tier_edges(),
            sequence,
            seeds(device.overlap_scores.scores@, device.last_matched_hashes@),
        ),
        tier != StorageTier::Device,
        indexers@.contains_key(tier),
    ensures
        ({
            let edges = indexers@[tier].backend@;
            let scores = device.overlap_scores.scores@;
            let hashes = device.last_matched_hashes@;
            let off_device = if scores.contains_key(worker) && hashes.contains_key(worker) {
                Some(
                    LowerTierContinuation {
                        start_pos: scores[worker] as usize,
                        last_matched_hash: Some(hashes[worker]),
                    },
                )
            } else {
                None
            };
            let off_host_pinned = if indexers@.contains_key(StorageTier::HostPinned) {
                matches[StorageTier::HostPinned].next_continuations@.get(worker)
            } else {
                off_device
            };
            let off_disk = if indexers@.contains_key(StorageTier::Disk) {
                matches[StorageTier::Disk].next_continuations@.get(worker)
            } else {
                off_host_pinned
            };
            let handed = match tier {
                StorageTier::Disk => off_host_pinned,
                StorageTier::External => off_disk,
                _ => off_device,
            };
            let from = match handed {
                Some(from) => from,
                None => LowerTierContinuation { start_pos: 0, last_matched_hash: None },
            };
            let known = handed is Some || (sequence.len() > 0 && edges.contains_key(
                (worker, None, sequence[0]),
            ));
            let blocks = chain(
                edges,
                worker,
                from.last_matched_hash,
                sequence.skip(from.start_pos as int),
            );
            let next = matches[tier].next_continuations@[worker];
            let anchor = matches[tier].cross_worker_anchors@[worker];
            &&& matches[tier].hits@.contains_key(worker) <==> known
            &&& matches[tier].cross_worker_hits@.contains_key(worker) <==> known
            &&& matches[tier].cross_worker_anchors@.contains_key(worker) <==> known
            &&& matches[tier].next_continuations@.contains_key(worker) <==> known
            &&& known && from.start_pos <= sequence.len() ==> {
                &&& matches[tier].hits@[worker] == blocks.len()
                &&& next.start_pos == from.start_pos + blocks.len()
                &&& blocks.len() > 0 ==> next.last_matched_hash == Some(
                    blocks[blocks.len() - 1],
                )
                &&& blocks.len() == 0 ==> next.last_matched_hash == from.last_matched_hash
            }
            &&& known && from.start_pos > sequence.len() ==> matches[tier].hits@[worker] == 0
                && next == from
            // What peers see hangs off the root, or off where the match was taken up.
            &&& known ==> {
                ||| anchor.start_pos == 0 && anchor.parent_hash is None
                ||| anchor.start_pos == from.start_pos && anchor.parent_hash
                    == from.last_matched_hash
            }
        }),
{
    let tiers = indexers.tier_edges();
    let start = seeds(device.overlap_scores.scores@, device.last_matched_hashes@);
    let answers = lower_tier_matches(tiers, sequence, start);
    lemma_continuations_come_from_above(tiers, sequence, start);
    assert forall|t: StorageTier| t != StorageTier::Device && indexers@.contains_key(
        t,
    ) implies answers[t] == (#[trigger] matches[t])@ && matches.contains_key(t)
        && tiers.contains_key(t) by {
        assert(tiers.contains_key(t));
        assert(answers.contains_key(t));
        assert(match_views(matches).contains_key(t));
    }
    assert(tiers.contains_key(StorageTier::HostPinned) == indexers@.contains_key(
        StorageTier::HostPinned,
    ));
    assert(tiers.contains_key(StorageTier::Disk) == indexers@.contains_key(StorageTier::Disk));
    let to_disk = if tiers.contains_key(StorageTier::HostPinned) {
        answers[StorageTier::HostPinned].next_continuations
    } else {
        start
    };
    let to_external = if tiers.contains_key(StorageTier::Disk) {
        answers[StorageTier::Disk].next_continuations
    } else {
        to_disk
    };
    let handed = match tier {
        StorageTier::Disk => to_disk,
        StorageTier::External => to_external,
        _ => start,
    };
    assert(answers[tier] == tier_matches(tiers[tier], sequence, handed));
    lemma_tier_matches_of_worker(tiers[tier], sequence, handed, worker);
}

/// What a peer sees of a worker in a tier does not fall short of the worker's
/// chain from the root, nor of what the worker itself gains there, and is one of
/// the two. It is the length of the chain behind the recorded anchor. All this
/// holds whichever other tiers have an index.
pub proof fn law_peer_sees_the_longer_chain(
    indexers: LowerTierIndexers,
    sequence: Seq<LocalBlockHash>,
    device: MatchDetails,
    matches: Map<StorageTier, LowerTierMatchDetails>,
    tier: StorageTier,
    worker: WorkerWithDpRank,
)
    requires
        sequence.len() <= usize::MAX,
        match_views(matches) == lower_tier_matches(
            indexers.tier_edges(),
            sequence,
            seeds(device.overlap_scores.scores@, device.last_matched_hashes@),
        ),
        tier != StorageTier::Device,
        indexers@.contains_key(tier),
    ensures
        ({
            let edges = indexers@[tier].backend@;
            let from_root = chain(edges, worker, None, sequence).len();
            let seen = matches[tier].cross_worker_hits@[worker];
            let gained = matches[tier].hits@[worker];
            let anchor = matches[tier].cross_worker_anchors@[worker];
            let next = matches[tier].next_continuations@[worker];
            let known = matches[tier].cross_worker_hits@.contains_key(worker);
            &&& from_root > 0 ==> known
            &&& known ==> {
                &&& matches[tier].hits@.contains_key(worker)
                &&& matches[tier].cross_worker_anchors@.contains_key(worker)
                &&& matches[tier].next_continuations@.contains_key(worker)
                &&& seen >= from_root
                &&& seen >= gained
                &&& seen == from_root || seen == gained
                &&& anchor.start_pos <= sequence.len() ==> seen == chain(
                    edges,
                    worker,
                    anchor.parent_hash,
                    sequence.skip(anchor.start_pos as int),
                ).len()
                &&& anchor.start_pos > sequence.len() ==> seen == 0
                // The root is the anchor where the chain from there is counted.
                &&& from_root > 0 && from_root >= gained ==> anchor.start_pos == 0
                    && anchor.parent_hash is None
                // Otherwise it is where the worker's own match stood.
                &&& from_root == 0 || from_root < gained ==> next.start_pos
                    == anchor.start_pos + gained && (gained == 0 ==> next.last_matched_hash
                    == anchor.parent_hash)
            }
        }),
{
    let tiers = indexers.tier_edges();
    let start = seeds(device.overlap_scores.scores@, device.last_matched_hashes@);
    let answers = lower_tier_matches(tiers, sequence, start);
    let handed = continuations_below(tiers, sequence, start, tiers_above(tier));
    assert(tiers.contains_key(tier));
    assert(answers.contains_key(tier));
    assert(match_views(matches).contains_key(tier));
    assert(match_views(matches)[tier] == matches[tier]@);
    assert(answers[tier] == tier_matches(tiers[tier], sequence, handed));
    lemma_tier_matches_of_worker(tiers[tier], sequence, handed, worker);
    assert(sequence.skip(0) =~= sequence);
}

/// Two tiers asked one after the other add up to one that holds the blocks of both.
proof fn lemma_split_tier_matches(
    upper: Edges,
    lower: Edges,
    sequence: Seq<LocalBlockHash>,
    handed: Map<WorkerWithDpRank, LowerTierContinuation>,
    worker: WorkerWithDpRank,
)
    requires
        sequence.len() <= usize::MAX,
        forall|behind: Option<ExternalSequenceBlockHash>, over: LocalBlockHash, next: LocalBlockHash|
            #![trigger lower[(worker, behind, over)], upper.contains_key(
                (worker, Some(lower[(worker, behind, over)]), next),
            )]
            lower.contains_key((worker, behind, over)) ==> !upper.contains_key(
                (worker, Some(lower[(worker, behind, over)]), next),
            ),
    ensures
        ({
            let first = tier_matches(upper, sequence, handed);
            let second = tier_matches(lower, sequence, first.next_continuations);
            let one = tier_matches(lower.union_prefer_right(upper), sequence, handed);
            let in_first = if first.hits.contains_key(worker) {
                first.hits[worker] as int
            } else {
                0
            };
            let in_second = if second.hits.contains_key(worker) {
                second.hits[worker] as int
            } else {
                0
            };
            let in_one = if one.hits.contains_key(worker) {
                one.hits[worker] as int
            } else {
                0
            };
            &&& in_first + in_second == in_one
            &&& second.next_continuations.get(worker) == one.next_continuations.get(worker)
        }),
{
    let both = lower.union_prefer_right(upper);
    let handed_on = tier_matches(upper, sequence, handed).next_continuations;
    lemma_tier_matches_of_worker(upper, sequence, handed, worker);
    lemma_tier_matches_of_worker(lower, sequence, handed_on, worker);
    lemma_tier_matches_of_worker(both, sequence, handed, worker);
    let from = if handed.contains_key(worker) {
        handed[worker]
    } else {
        root()
    };
    let locals = suffix(sequence, from.start_pos as int);
    let front = chain(upper, worker, from.last_matched_hash, locals);
    law_split_chain_is_found_in_full(upper, lower, worker, from.last_matched_hash, locals);
    law_chain_ends_where_edges_end(upper, worker, from.last_matched_hash, locals);
    assert(locals.skip(front.len() as int) =~= suffix(sequence, from.start_pos + front.len()));
    assert(suffix(sequence, 0) =~= sequence);
    let reached = if front.len() == 0 {
        from.last_matched_hash
    } else {
        Some(front.last())
    };
    let tail = chain(lower, worker, reached, locals.skip(front.len() as int));
    if tail.len() > 0 {
        assert((front + tail).last() == tail.last());
    } else {
        assert(front + tail =~= front);
    }
}

/// A chain that is split over two adjacent tiers is matched for as many blocks
/// as the same chain in one tier, and the match stands where it would then. The
/// tiers are adjacent where no allocated tier lies between them; no block in the
/// lower one has a successor in the upper one.
pub proof fn law_split_chain_is_matched_in_full(
    tiers: Map<StorageTier, Edges>,
    sequence: Seq<LocalBlockHash>,
    seeds: Map<WorkerWithDpRank, LowerTierContinuation>,
    upper: StorageTier,
    lower: StorageTier,
    worker: WorkerWithDpRank,
)
    requires
        sequence.len() <= usize::MAX,
        tiers.contains_key(upper),
        tiers.contains_key(lower),
        ({
            ||| upper == StorageTier::HostPinned && lower == StorageTier::Disk
            ||| upper == StorageTier::Disk && lower == StorageTier::External
            ||| upper == StorageTier::HostPinned && lower == StorageTier::External
                && !tiers.contains_key(StorageTier::Disk)
        }),
        forall|behind: Option<ExternalSequenceBlockHash>, over: LocalBlockHash, next: LocalBlockHash|
            #![trigger tiers[lower][(worker, behind, over)], tiers[upper].contains_key(
                (worker, Some(tiers[lower][(worker, behind, over)]), next),
            )]
            tiers[lower].contains_key((worker, behind, over)) ==> !tiers[upper].contains_key(
                (worker, Some(tiers[lower][(worker, behind, over)]), next),
            ),
    ensures
        ({
            let split = lower_tier_matches(tiers, sequence, seeds);
            let joined = lower_tier_matches(
                tiers.insert(upper, tiers[lower].union_prefer_right(tiers[upper])).remove(lower),
                sequence,
                seeds,
            );
            let in_upper = if split[upper].hits.contains_key(worker) {
                split[upper].hits[worker] as int
            } else {
                0
            };
            let in_lower = if split[lower].hits.contains_key(worker) {
                split[lower].hits[worker] as int
            } else {
                0
            };
            let in_one = if joined[upper].hits.contains_key(worker) {
                joined[upper].hits[worker] as int
            } else {
                0
            };
            &&& in_upper + in_lower == in_one
            &&& split[lower].next_continuations.get(worker)
                == joined[upper].next_continuations.get(worker)
        }),
{
    let one = tiers[lower].union_prefer_right(tiers[upper]);
    let with_one = tiers.insert(upper, one).remove(lower);
    let split = lower_tier_matches(tiers, sequence, seeds);
    let joined = lower_tier_matches(with_one, sequence, seeds);
    lemma_continuations_come_from_above(tiers, sequence, seeds);
    lemma_continuations_come_from_above(with_one, sequence, seeds);
    let handed = if upper == StorageTier::HostPinned {
        seeds
    } else if tiers.contains_key(StorageTier::HostPinned) {
        split[StorageTier::HostPinned].next_continuations
    } else {
        seeds
    };
    let handed_on = split[upper].next_continuations;
    assert(split[upper] == tier_matches(tiers[upper], sequence, handed));
    assert(joined[upper] == tier_matches(one, sequence, handed));
    assert(split[lower] == tier_matches(tiers[lower], sequence, handed_on));
    lemma_split_tier_matches(tiers[upper], tiers[lower], sequence, handed, worker);
}

/// Merging keeps what the workers gain and where their matches stand. What a
/// peer sees of a worker is the larger of the two counts; it starts at the root
/// where that count is at least as large, and otherwise where the worker's own
/// match started.
pub proof fn law_merge_takes_the_larger_count(
    extension: LowerTierMatchDetails,
    starts: Map<WorkerWithDpRank, LowerTierContinuation>,
    fresh: Map<WorkerWithDpRank, usize>,
    details: LowerTierMatchDetails,
    worker: WorkerWithDpRank,
)
    requires
        details@ == merged(extension@, starts, fresh),
    ensures
        ({
            let own = extension.hits@;
            let seen = details.cross_worker_hits@;
            let anchors = details.cross_worker_anchors@;
            let from_root = fresh.contains_key(worker) && (!own.contains_key(worker)
                || fresh[worker] >= own[worker]);
            &&& details.hits@ == own
            &&& details.next_continuations@ == extension.next_continuations@
            &&& seen.contains_key(worker) <==> own.contains_key(worker) || fresh.contains_key(
                worker,
            )
            &&& anchors.contains_key(worker) <==> seen.contains_key(worker)
            &&& own.contains_key(worker) ==> seen[worker] >= own[worker]
            &&& fresh.contains_key(worker) ==> seen[worker] >= fresh[worker]
            &&& seen.contains_key(worker) ==> (own.contains_key(worker) && seen[worker]
                == own[worker]) || (fresh.contains_key(worker) && seen[worker] == fresh[worker])
            &&& from_root ==> anchors[worker].start_pos == 0 && anchors[worker].parent_hash is None
            &&& seen.contains_key(worker) && !from_root && starts.contains_key(worker)
                ==> anchors[worker].start_pos == starts[worker].start_pos
                && anchors[worker].parent_hash == starts[worker].last_matched_hash
            &&& seen.contains_key(worker) && !starts.contains_key(worker)
                ==> anchors[worker].start_pos == 0 && anchors[worker].parent_hash is None
        }),
{
    assert(details@.hits == extension@.hits);
}

/// A tier's index is new when the tier is first asked for: it holds no blocks,
/// and has the registry's threads, block size and counters. A tier that has an
/// index gets that one. The registry keeps what the borrower makes of it, and
/// its setup.
pub proof fn law_first_request_creates_an_empty_index(
    before: LowerTierIndexers,
    after: LowerTierIndexers,
    tier: StorageTier,
    given: ThreadPoolIndexer<LowerTierIndexer>,
    left: ThreadPoolIndexer<LowerTierIndexer>,
)
    requires
        before.hands_out(tier, given, left, after),
    ensures
        before@.contains_key(tier) ==> given == before@[tier],
        !before@.contains_key(tier) ==> {
            &&& given.backend@.dom() == Set::<
                (WorkerWithDpRank, Option<ExternalSequenceBlockHash>, LocalBlockHash),
            >::empty()
            &&& given.num_threads == before.num_threads()
            &&& given.block_size == before.block_size()
            &&& given.metrics == before.metrics()
        },
        after@.contains_pair(tier, left),
        after@.dom() == before@.dom().insert(tier),
        forall|other: StorageTier|
            other != tier && before@.contains_key(other) ==> #[trigger] after@[other]
                == before@[other],
        after.num_threads() == before.num_threads(),
        after.block_size() == before.block_size(),
        after.metrics() == before.metrics(),
{
    assert(after@.dom() =~= before@.dom().insert(tier));
}

/// Listing the registry gives every tier that has an index exactly once, with
/// that very index, and no other tier.
pub proof fn law_entries_are_the_allocated_tiers(
    registry: LowerTierIndexers,
    entries: Seq<(StorageTier, &ThreadPoolIndexer<LowerTierIndexer>)>,
    tier: StorageTier,
)
    requires
        lists(entries, registry.handles()),
    ensures
        registry@.contains_key(tier) <==> exists|i: int|
            0 <= i < entries.len() && (#[trigger] entries[i]).0 == tier,
        forall|i: int|
            0 <= i < entries.len() && (#[trigger] entries[i]).0 == tier ==> *entries[i].1
                == registry@[tier],
        forall|i: int, j: int|
            0 <= i < j < entries.len() ==> (#[trigger] entries[i]).0 != (#[trigger] entries[j]).0,
        entries.len() == registry@.dom().len(),
{
    law_listing_is_complete(entries, registry.handles());
    assert(registry.handles().dom() =~= registry@.dom());
    if registry@.contains_key(tier) {
        assert(registry.handles().contains_key(tier));
        let i = choose|i: int|
            0 <= i < entries.len() && entries[i] == (tier, registry.handles()[tier]);
        assert(entries[i].0 == tier);
    }
}

/// The handed-out indexes are those of the allocated tiers, as many as there
/// are of these.
pub proof fn law_all_has_one_index_per_allocated_tier(
    registry: LowerTierIndexers,
    entries: Seq<(StorageTier, &ThreadPoolIndexer<LowerTierIndexer>)>,
    indexers: Seq<&ThreadPoolIndexer<LowerTierIndexer>>,
)
    requires
        lists(entries, registry.handles()),
        indexers == entries.map_values(
            |entry: (StorageTier, &ThreadPoolIndexer<LowerTierIndexer>)| entry.1,
        ),
    ensures
        indexers.len() == registry@.dom().len(),
        forall|t: StorageTier| #[trigger]
            registry@.contains_key(t) ==> exists|i: int|
                0 <= i < indexers.len() && *(#[trigger] indexers[i]) == registry@[t],
        forall|i: int|
            0 <= i < indexers.len() ==> registry@.contains_value(*(#[trigger] indexers[i])),
{
    law_entries_are_the_allocated_tiers(registry, entries, StorageTier::HostPinned);
    assert forall|t: StorageTier| #[trigger] registry@.contains_key(t) implies exists|i: int|
        0 <= i < indexers.len() && *(#[trigger] indexers[i]) == registry@[t] by {
        law_entries_are_the_allocated_tiers(registry, entries, t);
        let i = choose|i: int| 0 <= i < entries.len() && (#[trigger] entries[i]).0 == t;
        assert(indexers[i] == entries[i].1);
    }
    assert forall|i: int| 0 <= i < indexers.len() implies registry@.contains_value(
        *(#[trigger] indexers[i]),
    ) by {
        let t = entries[i].0;
        law_entries_are_the_allocated_tiers(registry, entries, t);
        assert(registry@.dom().contains(t) && registry@[t] == *indexers[i]);
    }
}

} // verus!
