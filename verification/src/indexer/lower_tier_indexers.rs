//! The registry of lower-tier indexes, and the walk down through them.
//!
//! The device index scores how much of a request each worker holds on its
//! device. [`LowerTierIndexers`] holds one index per tier below, allocated when
//! the tier is first seen, and [`query_lower_tiers`] extends each worker's match
//! through them: device, host-pinned memory, disk, external storage.

use std::sync::Arc;

use vstd::prelude::*;

use super::anchor_map::{AnchorMap, CrossWorkerAnchor};
use super::lower_tier::{
    match_details, Edges, LowerTierContinuation, LowerTierIndexer, LowerTierMatchDetails,
    LowerTierMatchView,
};
use super::match_details::MatchDetails;
use super::query_laws::law_all_has_one_index_per_allocated_tier;
use super::thread_pool::{KvIndexerMetrics, ThreadPoolIndexer};
use crate::listing::{
    from_pairs, law_listing_is_complete, lemma_from_pairs_keys, lemma_listing_gives_map_back, lists,
};
use crate::protocols::{ExternalSequenceBlockHash, LocalBlockHash, StorageTier, WorkerWithDpRank};
use crate::tier_map::TierMap;
use crate::worker_map::WorkerMap;

verus! {

/// `Arc::clone`: another handle to the value that `shared` points to.
#[verifier::external_body]
fn share<T>(shared: &Arc<T>) -> (other: Arc<T>)
    ensures
        other == *shared,
{
    Arc::clone(shared)
}

/// One index per tier below the device that has been seen so far.
pub struct LowerTierIndexers {
    metrics: Option<Arc<KvIndexerMetrics>>,
    num_threads: usize,
    block_size: u32,
    indexers: TierMap<ThreadPoolIndexer<LowerTierIndexer>>,
}

impl View for LowerTierIndexers {
    type V = Map<StorageTier, ThreadPoolIndexer<LowerTierIndexer>>;

    closed spec fn view(&self) -> Map<StorageTier, ThreadPoolIndexer<LowerTierIndexer>> {
        self.indexers@
    }
}

impl LowerTierIndexers {
    /// The number of threads that each index is served with.
    pub closed spec fn num_threads(self) -> usize {
        self.num_threads
    }

    /// The number of tokens in a block.
    pub closed spec fn block_size(self) -> u32 {
        self.block_size
    }

    /// The counters that each index reports to.
    pub closed spec fn metrics(self) -> Option<Arc<KvIndexerMetrics>> {
        self.metrics
    }

    /// The threads are there, and the device has no index here.
    pub open spec fn wf(self) -> bool {
        &&& self.num_threads() > 0
        &&& !self@.contains_key(StorageTier::Device)
    }

    /// `other` creates its indexes as `self` does.
    pub open spec fn same_setup(self, other: Self) -> bool {
        &&& self.num_threads() == other.num_threads()
        &&& self.block_size() == other.block_size()
        &&& self.metrics() == other.metrics()
    }

    /// `indexer` is as this registry creates it: without blocks, and with the
    /// registry's setup.
    pub open spec fn creates(self, indexer: ThreadPoolIndexer<LowerTierIndexer>) -> bool {
        &&& indexer.backend@ == Edges::empty()
        &&& indexer.num_threads == self.num_threads()
        &&& indexer.block_size == self.block_size()
        &&& indexer.metrics == self.metrics()
    }

    /// What a request for the index of `tier` does: it hands out `given`, the
    /// index that the registry has for the tier or else a new one, and leaves
    /// the registry as `after`, in which the tier's index is what its borrower
    /// made of it, `left`, and nothing else is changed.
    pub open spec fn hands_out(
        self,
        tier: StorageTier,
        given: ThreadPoolIndexer<LowerTierIndexer>,
        left: ThreadPoolIndexer<LowerTierIndexer>,
        after: Self,
    ) -> bool {
        &&& self@.contains_key(tier) ==> given == self@[tier]
        &&& !self@.contains_key(tier) ==> self.creates(given)
        &&& after@ == self@.insert(tier, left)
        &&& after.same_setup(self)
    }

    /// The blocks that each allocated tier holds.
    pub open spec fn tier_edges(self) -> Map<StorageTier, Edges> {
        self@.map_values(|indexer: ThreadPoolIndexer<LowerTierIndexer>| indexer.backend@)
    }

    /// The allocated indexes, by tier, as they are handed out.
    pub open spec fn handles(&self) -> Map<StorageTier, &ThreadPoolIndexer<LowerTierIndexer>> {
        self@.map_values(|indexer: ThreadPoolIndexer<LowerTierIndexer>| &indexer)
    }

    /// The registry without indexes, for callers that count nothing. With
    /// counters at hand, [`new_with_metrics`](Self::new_with_metrics) is the one
    /// to use, so that lower-tier events are counted too.
    pub fn new(num_threads: usize, block_size: u32) -> (indexers: Self)
        requires
            num_threads > 0,
        ensures
            indexers.wf(),
            indexers@ == Map::<StorageTier, ThreadPoolIndexer<LowerTierIndexer>>::empty(),
            indexers.num_threads() == num_threads,
            indexers.block_size() == block_size,
            indexers.metrics() is None,
    {
        Self::new_with_metrics(num_threads, block_size, None)
    }

    /// As [`new`](Self::new), with the counters that every index created later
    /// reports its applied events to.
    pub fn new_with_metrics(
        num_threads: usize,
        block_size: u32,
        metrics: Option<Arc<KvIndexerMetrics>>,
    ) -> (indexers: Self)
        requires
            num_threads > 0,
        ensures
            indexers.wf(),
            indexers@ == Map::<StorageTier, ThreadPoolIndexer<LowerTierIndexer>>::empty(),
            indexers.num_threads() == num_threads,
            indexers.block_size() == block_size,
            indexers.metrics() == metrics,
    {
        LowerTierIndexers { metrics, num_threads, block_size, indexers: TierMap::new() }
    }

    /// The index of `storage_tier`, created the first time the tier is seen.
    pub fn get_or_create(&mut self, storage_tier: StorageTier) -> (indexer: &mut ThreadPoolIndexer<
        LowerTierIndexer,
    >)
        requires
            storage_tier != StorageTier::Device,
        ensures
            old(self).hands_out(storage_tier, *indexer, *final(indexer), *final(self)),
    {
        let num_threads = self.num_threads;
        let block_size = self.block_size;
        let metrics = &self.metrics;
        let create = || -> (created: ThreadPoolIndexer<LowerTierIndexer>)
            ensures
                created.backend@ == Edges::empty(),
                created.num_threads == num_threads,
                created.block_size == block_size,
                created.metrics == *metrics,
            {
                let shared = match metrics {
                    Some(metrics) => Some(share(metrics)),
                    None => None,
                };
                ThreadPoolIndexer::new_with_metrics(
                    LowerTierIndexer::new(),
                    num_threads,
                    block_size,
                    shared,
                )
            };
        self.indexers.get_or_insert_with(storage_tier, create)
    }

    /// All allocated indexes, each once, in no particular order.
    pub fn all(&self) -> (indexers: Vec<&ThreadPoolIndexer<LowerTierIndexer>>)
        ensures
            exists|entries: Seq<(StorageTier, &ThreadPoolIndexer<LowerTierIndexer>)>| #[trigger]
                lists(entries, self.handles()) && indexers@ == entries.map_values(
                    |entry: (StorageTier, &ThreadPoolIndexer<LowerTierIndexer>)| entry.1,
                ),
            indexers@.len() == self@.dom().len(),
            forall|t: StorageTier| #[trigger]
                self@.contains_key(t) ==> indexers@.contains(&self@[t]),
            forall|k: int|
                0 <= k < indexers@.len() ==> self@.contains_value(*(#[trigger] indexers@[k])),
    {
        let entries = self.entries();
        let mut indexers: Vec<&ThreadPoolIndexer<LowerTierIndexer>> = Vec::new();
        for i in 0..entries.len()
            invariant
                indexers@.len() == i,
                forall|k: int| 0 <= k < i ==> #[trigger] indexers@[k] == entries@[k].1,
        {
            indexers.push(entries[i].1);
        }
        assert(indexers@ =~= entries@.map_values(
            |entry: (StorageTier, &ThreadPoolIndexer<LowerTierIndexer>)| entry.1,
        ));
        proof {
            law_all_has_one_index_per_allocated_tier(*self, entries@, indexers@);
        }
        indexers
    }

    /// All allocated indexes with the tier that each one covers, each once, in
    /// no particular order.
    pub fn entries(&self) -> (entries: Vec<(StorageTier, &ThreadPoolIndexer<LowerTierIndexer>)>)
        ensures
            lists(entries@, self.handles()),
            entries@.len() == self@.dom().len(),
            forall|t: StorageTier| #[trigger]
                self@.contains_key(t) ==> entries@.contains((t, &self@[t])),
            forall|k: int|
                0 <= k < entries@.len() ==> self@.contains_pair(
                    (#[trigger] entries@[k]).0,
                    *entries@[k].1,
                ),
    {
        let entries = self.indexers.entries();
        assert(self.handles() =~= self.indexers@.map_values(
            |v: ThreadPoolIndexer<LowerTierIndexer>| &v,
        ));
        proof {
            law_listing_is_complete(entries@, self.handles());
            assert(self.handles().dom() =~= self@.dom());
            assert forall|t: StorageTier| #[trigger]
                self@.contains_key(t) implies entries@.contains((t, &self@[t])) by {
                assert(self.handles().contains_key(t));
            }
        }
        entries
    }

    /// The index of `storage_tier`, or `None` for a tier that was not seen yet.
    pub fn get(&self, storage_tier: StorageTier) -> (indexer: Option<
        &ThreadPoolIndexer<LowerTierIndexer>,
    >)
        ensures
            indexer == (if self@.contains_key(storage_tier) {
                Some(&self@[storage_tier])
            } else {
                None
            }),
    {
        self.indexers.get(storage_tier)
    }
}

/// The lower tiers from the top down.
pub open spec fn query_order() -> Seq<StorageTier> {
    seq![StorageTier::HostPinned, StorageTier::Disk, StorageTier::External]
}

/// The order in which lower tiers are walked when a match is extended: from the
/// device to host-pinned memory, to disk, to external storage.
pub fn lower_tier_query_order() -> (order: [StorageTier; 3])
    ensures
        order@ == query_order(),
{
    let order = [StorageTier::HostPinned, StorageTier::Disk, StorageTier::External];
    assert(order@ =~= query_order());
    order
}

/// Where each worker's match stands when it leaves the device: behind the
/// blocks matched there. A worker without a last matched block has no place to
/// go on from.
pub open spec fn seeds(
    scores: Map<WorkerWithDpRank, u32>,
    last_matched_hashes: Map<WorkerWithDpRank, ExternalSequenceBlockHash>,
) -> Map<WorkerWithDpRank, LowerTierContinuation> {
    Map::new(
        |w: WorkerWithDpRank| scores.contains_key(w) && last_matched_hashes.contains_key(w),
        |w: WorkerWithDpRank|
            LowerTierContinuation {
                start_pos: scores[w] as usize,
                last_matched_hash: Some(last_matched_hashes[w]),
            },
    )
}

/// The start of every chain that hangs off the root.
pub open spec fn root() -> LowerTierContinuation {
    LowerTierContinuation { start_pos: 0, last_matched_hash: None }
}

/// The workers that hold the first block of `sequence` as a block without a parent.
pub open spec fn root_holders(edges: Edges, sequence: Seq<LocalBlockHash>) -> Set<
    WorkerWithDpRank,
> {
    Set::new(
        |w: WorkerWithDpRank|
            sequence.len() > 0 && edges.contains_key((w, None, sequence[0])),
    )
}

/// `continuations`, with the workers of `holders` that it lacks starting at the root.
pub open spec fn with_roots(
    continuations: Map<WorkerWithDpRank, LowerTierContinuation>,
    holders: Set<WorkerWithDpRank>,
) -> Map<WorkerWithDpRank, LowerTierContinuation> {
    Map::new(
        |w: WorkerWithDpRank| continuations.contains_key(w) || holders.contains(w),
        |w: WorkerWithDpRank|
            if continuations.contains_key(w) {
                continuations[w]
            } else {
                root()
            },
    )
}

/// Whether the count from the root is taken for `worker`: it is where it is at
/// least as large as the count that extends the worker's own match.
pub open spec fn prefers_root(
    extension: Map<WorkerWithDpRank, usize>,
    fresh: Map<WorkerWithDpRank, usize>,
    worker: WorkerWithDpRank,
) -> bool {
    fresh.contains_key(worker) && (extension.contains_key(worker) ==> fresh[worker]
        >= extension[worker])
}

/// Two views of one tier, side by side. `hits` and `next_continuations` are
/// those of `extension`, whose chains start at `starts`. The cross-worker maps
/// take, per worker, the larger of that count and the count in `fresh`, whose
/// chains start at the root, and record where the counted chain starts.
pub open spec fn merged(
    extension: LowerTierMatchView,
    starts: Map<WorkerWithDpRank, LowerTierContinuation>,
    fresh: Map<WorkerWithDpRank, usize>,
) -> LowerTierMatchView {
    LowerTierMatchView {
        cross_worker_hits: Map::new(
            |w: WorkerWithDpRank| extension.hits.contains_key(w) || fresh.contains_key(w),
            |w: WorkerWithDpRank|
                if prefers_root(extension.hits, fresh, w) {
                    fresh[w]
                } else {
                    extension.hits[w]
                },
        ),
        cross_worker_anchors: Map::new(
            |w: WorkerWithDpRank| extension.hits.contains_key(w) || fresh.contains_key(w),
            |w: WorkerWithDpRank|
                {
                    let start = if !prefers_root(extension.hits, fresh, w) && starts.contains_key(
                        w,
                    ) {
                        starts[w]
                    } else {
                        root()
                    };
                    CrossWorkerAnchor {
                        start_pos: start.start_pos,
                        parent_hash: start.last_matched_hash,
                    }
                },
        ),
        ..extension
    }
}

/// What a tier that holds `edges` adds to matches that stand at `continuations`.
pub open spec fn tier_matches(
    edges: Edges,
    sequence: Seq<LocalBlockHash>,
    continuations: Map<WorkerWithDpRank, LowerTierContinuation>,
) -> LowerTierMatchView {
    let holders = root_holders(edges, sequence);
    let starts = with_roots(continuations, holders);
    merged(
        match_details(edges, sequence, starts),
        starts,
        match_details(edges, sequence, with_roots(Map::empty(), holders)).hits,
    )
}

/// Where the matches stand after walking down `above`, tiers without an index
/// being passed over.
pub open spec fn continuations_below(
    tiers: Map<StorageTier, Edges>,
    sequence: Seq<LocalBlockHash>,
    seeds: Map<WorkerWithDpRank, LowerTierContinuation>,
    above: Seq<StorageTier>,
) -> Map<WorkerWithDpRank, LowerTierContinuation>
    decreases above.len(),
{
    if above.len() == 0 {
        seeds
    } else {
        let before = continuations_below(tiers, sequence, seeds, above.drop_last());
        if tiers.contains_key(above.last()) {
            tier_matches(tiers[above.last()], sequence, before).next_continuations
        } else {
            before
        }
    }
}

/// The lower tiers above `tier`.
pub open spec fn tiers_above(tier: StorageTier) -> Seq<StorageTier> {
    match tier {
        StorageTier::Device => seq![],
        StorageTier::HostPinned => seq![],
        StorageTier::Disk => seq![StorageTier::HostPinned],
        StorageTier::External => seq![StorageTier::HostPinned, StorageTier::Disk],
    }
}

/// What every allocated lower tier adds to matches that leave the device at `seeds`.
pub open spec fn lower_tier_matches(
    tiers: Map<StorageTier, Edges>,
    sequence: Seq<LocalBlockHash>,
    seeds: Map<WorkerWithDpRank, LowerTierContinuation>,
) -> Map<StorageTier, LowerTierMatchView> {
    Map::new(
        |t: StorageTier| t != StorageTier::Device && tiers.contains_key(t),
        |t: StorageTier|
            tier_matches(
                tiers[t],
                sequence,
                continuations_below(tiers, sequence, seeds, tiers_above(t)),
            ),
    )
}

/// The maps of each tier's details.
pub open spec fn match_views(matches: Map<StorageTier, LowerTierMatchDetails>) -> Map<
    StorageTier,
    LowerTierMatchView,
> {
    matches.map_values(|details: LowerTierMatchDetails| details@)
}

/// The places at which the workers of a device match go on below the device.
fn seed_continuations(device_matches: &MatchDetails) -> (continuations: WorkerMap<
    LowerTierContinuation,
>)
    ensures
        continuations@ == seeds(
            device_matches.overlap_scores.scores@,
            device_matches.last_matched_hashes@,
        ),
{
    let ghost scores = device_matches.overlap_scores.scores@;
    let ghost answer = seeds(scores, device_matches.last_matched_hashes@);
    let mut continuations = WorkerMap::new();
    let entries = device_matches.overlap_scores.scores.entries();
    for i in 0..entries.len()
        invariant
            lists(entries@, scores),
            answer == seeds(scores, device_matches.last_matched_hashes@),
            continuations@.submap_of(answer),
            forall|k: int|
                0 <= k < i && answer.contains_key((#[trigger] entries@[k]).0)
                    ==> continuations@.contains_key(entries@[k].0),
    {
        let (worker, matched_blocks) = entries[i];
        match device_matches.last_matched_hashes.get(worker) {
            Some(last_hash) => {
                assert(answer.contains_pair(
                    worker,
                    LowerTierContinuation {
                        start_pos: matched_blocks as usize,
                        last_matched_hash: Some(last_hash),
                    },
                ));
                continuations.insert(
                    worker,
                    LowerTierContinuation::new(matched_blocks as usize, last_hash),
                );
            },
            None => {},
        }
    }
    proof {
        assert forall|w: WorkerWithDpRank| answer.contains_key(
            w,
        ) implies continuations@.contains_key(w) by {
            let k = choose|k: int| 0 <= k < entries@.len() && entries@[k] == (w, scores[w]);
            assert(entries@[k].0 == w);
        }
        assert(continuations@ =~= answer);
    }
    continuations
}

/// `continuations`, with the workers of `holders` that it lacks starting at the root.
fn add_root_workers(
    continuations: &WorkerMap<LowerTierContinuation>,
    holders: &Vec<WorkerWithDpRank>,
) -> (starts: WorkerMap<LowerTierContinuation>)
    ensures
        starts@ == with_roots(continuations@, holders@.to_set()),
{
    let mut starts = continuations.clone();
    for i in 0..holders.len()
        invariant
            starts@ == with_roots(continuations@, holders@.take(i as int).to_set()),
    {
        let worker = holders[i];
        let ghost before = holders@.take(i as int).to_set();
        assert(holders@.take(i + 1) =~= holders@.take(i as int).push(worker));
        assert(holders@.take(i + 1).to_set() =~= before.insert(worker)) by {
            holders@.take(i as int).lemma_push_to_set_commute(worker);
        }
        if !starts.contains_key(worker) {
            starts.insert(worker, LowerTierContinuation::from_root(0));
        }
        assert(starts@ =~= with_roots(continuations@, holders@.take(i + 1).to_set()));
    }
    assert(holders@.take(holders@.len() as int) =~= holders@);
    starts
}

/// Puts the counts that extend the workers' own matches and those from the root
/// side by side.
pub fn merge_matches(
    extension: LowerTierMatchDetails,
    starts: &WorkerMap<LowerTierContinuation>,
    fresh: &WorkerMap<usize>,
) -> (details: LowerTierMatchDetails)
    ensures
        details@ == merged(extension@, starts@, fresh@),
{
    let mut cross_worker_hits = extension.hits.clone();
    let mut cross_worker_anchors = AnchorMap::new();
    let extended = extension.hits.entries();
    let ghost none = Map::<WorkerWithDpRank, usize>::empty();
    let ghost own = merged(extension@, starts@, none);
    for i in 0..extended.len()
        invariant
            lists(extended@, extension@.hits),
            own == merged(extension@, starts@, none),
            none == Map::<WorkerWithDpRank, usize>::empty(),
            cross_worker_anchors@.submap_of(own.cross_worker_anchors),
            forall|k: int|
                0 <= k < i ==> cross_worker_anchors@.contains_key((#[trigger] extended@[k]).0),
    {
        let (worker, _) = extended[i];
        let anchor = match starts.get(worker) {
            Some(start) => CrossWorkerAnchor {
                start_pos: start.start_pos,
                parent_hash: start.last_matched_hash,
            },
            None => CrossWorkerAnchor { start_pos: 0, parent_hash: None },
        };
        assert(own.cross_worker_anchors.contains_pair(worker, anchor));
        cross_worker_anchors.insert(worker, anchor);
    }
    proof {
        assert forall|w: WorkerWithDpRank| own.cross_worker_anchors.contains_key(
            w,
        ) implies cross_worker_anchors@.contains_key(w) by {
            let k = choose|k: int|
                0 <= k < extended@.len() && extended@[k] == (w, extension@.hits[w]);
            assert(extended@[k].0 == w);
        }
        assert(cross_worker_anchors@ =~= own.cross_worker_anchors);
        assert(cross_worker_hits@ =~= own.cross_worker_hits);
    }
    let from_root = fresh.entries();
    assert(from_root@.take(0) =~= Seq::<(WorkerWithDpRank, usize)>::empty());
    for i in 0..from_root.len()
        invariant
            lists(from_root@, fresh@),
            cross_worker_hits@ == merged(
                extension@,
                starts@,
                from_pairs(from_root@.take(i as int)),
            ).cross_worker_hits,
            cross_worker_anchors@ == merged(
                extension@,
                starts@,
                from_pairs(from_root@.take(i as int)),
            ).cross_worker_anchors,
    {
        let (worker, fresh_hits) = from_root[i];
        let ghost seen = from_pairs(from_root@.take(i as int));
        proof {
            assert(from_root@.take(i + 1).drop_last() =~= from_root@.take(i as int));
            assert(from_pairs(from_root@.take(i + 1)) == seen.insert(worker, fresh_hits));
            lemma_from_pairs_keys(from_root@.take(i as int), worker);
            assert(!seen.contains_key(worker));
        }
        let counted = match cross_worker_hits.get(worker) {
            Some(hits) => hits,
            None => 0,
        };
        if fresh_hits >= counted {
            cross_worker_hits.insert(worker, fresh_hits);
            cross_worker_anchors.insert(
                worker,
                CrossWorkerAnchor { start_pos: 0, parent_hash: None },
            );
        }
        proof {
            let next = merged(extension@, starts@, seen.insert(worker, fresh_hits));
            assert(cross_worker_hits@ =~= next.cross_worker_hits);
            assert(cross_worker_anchors@ =~= next.cross_worker_anchors);
        }
    }
    proof {
        assert(from_root@.take(from_root@.len() as int) =~= from_root@);
        lemma_listing_gives_map_back(from_root@, fresh@);
    }
    LowerTierMatchDetails {
        hits: extension.hits,
        cross_worker_hits,
        cross_worker_anchors,
        next_continuations: extension.next_continuations,
    }
}

/// What one tier adds to matches that stand at `continuations`.
///
/// The tier is asked twice. Once each worker goes on from where its own match
/// stands, and workers that only this tier knows start at the root: this tells
/// how much a worker adds to what it already covers. And once every worker that
/// holds the first block starts at the root: this tells what a peer could pull
/// from it, which must not depend on what the worker still holds on its device.
fn query_tier(
    indexer: &LowerTierIndexer,
    sequence: &[LocalBlockHash],
    continuations: &WorkerMap<LowerTierContinuation>,
) -> (details: LowerTierMatchDetails)
    ensures
        details@ == tier_matches(indexer@, sequence@, continuations@),
{
    let holders = if sequence.len() > 0 {
        indexer.root_workers(sequence[0])
    } else {
        Vec::new()
    };
    assert(holders@.to_set() =~= root_holders(indexer@, sequence@));
    let starts = add_root_workers(continuations, &holders);
    let extension = indexer.query_match_details(sequence, &starts);
    let none = WorkerMap::new();
    let roots = add_root_workers(&none, &holders);
    let fresh = indexer.query_match_details(sequence, &roots);
    merge_matches(extension, &starts, &fresh.hits)
}

/// A part of a map with one more of its pairs is a part of it.
proof fn lemma_submap_grows<K, V>(part: Map<K, V>, whole: Map<K, V>, key: K, value: V)
    requires
        part.submap_of(whole),
        whole.contains_pair(key, value),
    ensures
        part.insert(key, value).submap_of(whole),
{
}

/// Walks every allocated lower tier from the top down and extends the matches
/// of `device_matches` by what it finds. A worker that matched `n` blocks on
/// its device starts on the first tier below at block `n`, behind its last
/// device block, and each tier starts where the one above it stopped.
pub fn query_lower_tiers(
    indexers: &LowerTierIndexers,
    sequence: &[LocalBlockHash],
    device_matches: &MatchDetails,
) -> (matches: TierMap<LowerTierMatchDetails>)
    ensures
        match_views(matches@) == lower_tier_matches(
            indexers.tier_edges(),
            sequence@,
            seeds(device_matches.overlap_scores.scores@, device_matches.last_matched_hashes@),
        ),
{
    let ghost tiers = indexers.tier_edges();
    let ghost start = seeds(
        device_matches.overlap_scores.scores@,
        device_matches.last_matched_hashes@,
    );
    let ghost answer = lower_tier_matches(tiers, sequence@, start);
    let mut matches = TierMap::new();
    // Without an index below the device nothing consumes the continuations.
    if indexers.indexers.is_empty() {
        assert(match_views(matches@) =~= answer);
        return matches;
    }
    let mut continuations = seed_continuations(device_matches);
    let order = lower_tier_query_order();
    for i in 0..3
        invariant
            order@ == query_order(),
            tiers == indexers.tier_edges(),
            answer == lower_tier_matches(tiers, sequence@, start),
            continuations@ == continuations_below(
                tiers,
                sequence@,
                start,
                query_order().take(i as int),
            ),
            match_views(matches@).submap_of(answer),
            forall|k: int|
                0 <= k < i && tiers.contains_key(#[trigger] query_order()[k])
                    ==> matches@.contains_key(query_order()[k]),
    {
        let storage_tier = order[i];
        assert(tiers_above(storage_tier) =~= query_order().take(i as int));
        assert(query_order().take(i + 1).drop_last() =~= query_order().take(i as int));
        match indexers.get(storage_tier) {
            Some(indexer) => {
                let details = query_tier(indexer.backend(), sequence, &continuations);
                let ghost found = match_views(matches@);
                let ghost added = details@;
                assert(answer.contains_pair(storage_tier, added));
                continuations = details.next_continuations.clone();
                matches.insert(storage_tier, details);
                proof {
                    let views = match_views(matches@);
                    assert(views =~= found.insert(storage_tier, added));
                    lemma_submap_grows(found, answer, storage_tier, added);
                }
            },
            None => {},
        }
    }
    proof {
        assert forall|t: StorageTier| answer.contains_key(t) implies matches@.contains_key(t) by {
            let k: int = match t {
                StorageTier::HostPinned => 0,
                StorageTier::Disk => 1,
                _ => 2,
            };
            assert(query_order()[k] == t);
        }
        assert(match_views(matches@) =~= answer);
    }
    matches
}

} // verus!
