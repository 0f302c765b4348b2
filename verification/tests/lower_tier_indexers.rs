use std::sync::Arc;

use kv_router::indexer::{
    lower_tier_query_order, merge_matches, query_lower_tiers, CrossWorkerAnchor, KvIndexerMetrics,
    LowerTierContinuation, LowerTierIndexer, LowerTierIndexers, LowerTierMatchDetails,
    MatchDetails, TieredMatchDetails, ThreadPoolIndexer, WireTieredMatchDetails,
};
use kv_router::protocols::{
    ExternalSequenceBlockHash, KvCacheStoreData, KvCacheStoredBlockData, LocalBlockHash,
    OverlapScores, StorageTier, WorkerWithDpRank,
};
use kv_router::remote_g2_plan::{
    select_remote_g2_reuse_plan, RemoteKvReuseCandidate, RemoteKvReuseDecision,
    RemoteKvReuseSelectionInput,
};
use kv_router::worker_map::WorkerMap;

fn store(
    indexer: &mut ThreadPoolIndexer<LowerTierIndexer>,
    worker: WorkerWithDpRank,
    parent: Option<u64>,
    locals: &[u64],
    externals: &[u64],
) {
    let blocks = locals
        .iter()
        .zip(externals)
        .map(|(&local, &external)| KvCacheStoredBlockData {
            block_hash: ExternalSequenceBlockHash(external),
            tokens_hash: LocalBlockHash(local),
        })
        .collect();
    let data =
        KvCacheStoreData { parent_hash: parent.map(ExternalSequenceBlockHash), blocks };
    indexer.backend_mut().apply_stored(worker, &data);
}

fn sequence(locals: &[u64]) -> Vec<LocalBlockHash> {
    locals.iter().copied().map(LocalBlockHash).collect()
}

fn device_match(worker: WorkerWithDpRank, hits: u32, last: Option<u64>) -> MatchDetails {
    let mut d = MatchDetails { overlap_scores: OverlapScores::new(), ..Default::default() };
    d.overlap_scores.scores.insert(worker, hits);
    if let Some(h) = last {
        d.last_matched_hashes.insert(worker, ExternalSequenceBlockHash(h));
    }
    d
}

/// Materializes the window [start, end): walks the source's host-pinned chain
/// from its recorded anchor, then drops the prefix that the target already holds.
fn materialize_window(
    indexers: &LowerTierIndexers,
    details: &LowerTierMatchDetails,
    source: WorkerWithDpRank,
    sequence: &[LocalBlockHash],
    start: usize,
    end: usize,
) -> Vec<u64> {
    let anchor = details.cross_worker_anchors.get(source);
    let hp_start = anchor.map(|a| a.start_pos).unwrap_or(start).min(start);
    let parent = anchor.and_then(|a| a.parent_hash);
    let hp = indexers.get(StorageTier::HostPinned).unwrap();
    let full =
        hp.backend().chain_block_hashes_for_worker(source, parent, &sequence[hp_start..end]);
    let skip = start - hp_start;
    if full.len() > skip {
        full[skip..].iter().map(|h| h.0).collect()
    } else {
        Vec::new()
    }
}

#[test]
fn query_lower_tiers_returns_empty_when_no_tiers_allocated() {
    let indexers = LowerTierIndexers::new(1, 4);

    // A score without a last matched hash: nothing consumes it.
    let mut overlap_scores = OverlapScores::new();
    overlap_scores.scores.insert(WorkerWithDpRank::new(99, 0), 3);
    let device_matches =
        MatchDetails { overlap_scores, last_matched_hashes: WorkerMap::new() };

    let sequence = vec![LocalBlockHash(1), LocalBlockHash(2)];
    let result = query_lower_tiers(&indexers, &sequence, &device_matches);
    assert!(result.is_empty());
}

// A source that holds the full chain from the root in host-pinned memory and on
// its device, and a target that has the first 2 blocks: the window [2, 5) is
// walked from the root and cut, not anchored on the source's device tail.
#[test]
fn cross_worker_chain_from_root_skips_target_local_prefix() {
    let src = WorkerWithDpRank::new(1, 0);
    let mut indexers = LowerTierIndexers::new(1, 1);
    store(
        indexers.get_or_create(StorageTier::HostPinned),
        src,
        None,
        &[10, 11, 12, 13, 14],
        &[100, 101, 102, 103, 104],
    );

    let sequence = sequence(&[10, 11, 12, 13, 14]);
    let device = device_match(src, 5, Some(104));
    let result = query_lower_tiers(&indexers, &sequence, &device);
    let details = result.get(StorageTier::HostPinned).unwrap();

    let anchor = details.cross_worker_anchors.get(src).unwrap();
    assert_eq!(anchor.start_pos, 0);
    assert_eq!(anchor.parent_hash, None);
    assert_eq!(details.cross_worker_hits.get(src), Some(5));

    assert_eq!(
        materialize_window(&indexers, details, src, &sequence, 2, 5),
        vec![102, 103, 104],
    );

    let hp = indexers.get(StorageTier::HostPinned).unwrap();
    let wrong = hp.backend().chain_block_hashes_for_worker(
        src,
        Some(ExternalSequenceBlockHash(104)),
        &sequence[2..5],
    );
    assert!(wrong.is_empty(), "device-tail anchor at start>0 must miss");
}

// A source whose host-pinned chain hangs off its device tail.
#[test]
fn cross_worker_chain_non_root_extends_from_device_tail() {
    let src = WorkerWithDpRank::new(1, 0);
    let mut indexers = LowerTierIndexers::new(1, 1);
    store(
        indexers.get_or_create(StorageTier::HostPinned),
        src,
        Some(101),
        &[12, 13, 14],
        &[102, 103, 104],
    );

    let sequence = sequence(&[10, 11, 12, 13, 14]);
    let device = device_match(src, 2, Some(101));
    let result = query_lower_tiers(&indexers, &sequence, &device);
    let details = result.get(StorageTier::HostPinned).unwrap();

    let anchor = details.cross_worker_anchors.get(src).unwrap();
    assert_eq!(anchor.start_pos, 2, "chain extends from device tail at pos 2");
    assert_eq!(anchor.parent_hash, Some(ExternalSequenceBlockHash(101)));
    assert_eq!(details.cross_worker_hits.get(src), Some(3));

    assert_eq!(
        materialize_window(&indexers, details, src, &sequence, 2, 5),
        vec![102, 103, 104],
    );
}

// What the device covers is not counted again, but a peer still sees it.
#[test]
fn hits_leave_out_what_the_device_covers() {
    let src = WorkerWithDpRank::new(1, 0);
    let mut indexers = LowerTierIndexers::new(1, 1);
    store(
        indexers.get_or_create(StorageTier::HostPinned),
        src,
        None,
        &[10, 11, 12, 13],
        &[100, 101, 102, 103],
    );
    let sequence = sequence(&[10, 11, 12, 13, 14]);
    let device = device_match(src, 3, Some(102));
    let result = query_lower_tiers(&indexers, &sequence, &device);
    let details = result.get(StorageTier::HostPinned).unwrap();
    assert_eq!(details.hits.get(src), Some(1));
    assert_eq!(details.cross_worker_hits.get(src), Some(4));
    assert_eq!(
        details.cross_worker_anchors.get(src),
        Some(CrossWorkerAnchor { start_pos: 0, parent_hash: None })
    );
    assert_eq!(
        details.next_continuations.get(src),
        Some(LowerTierContinuation::new(4, ExternalSequenceBlockHash(103)))
    );
}

// Each tier starts where the one above it stopped; a tier without an index is
// passed over.
#[test]
fn continuations_flow_from_tier_to_tier() {
    let src = WorkerWithDpRank::new(1, 0);
    let mut indexers = LowerTierIndexers::new(1, 1);
    store(indexers.get_or_create(StorageTier::HostPinned), src, Some(100), &[11], &[101]);
    store(
        indexers.get_or_create(StorageTier::External),
        src,
        Some(101),
        &[12, 13],
        &[102, 103],
    );
    let sequence = sequence(&[10, 11, 12, 13, 14]);
    let device = device_match(src, 1, Some(100));
    let result = query_lower_tiers(&indexers, &sequence, &device);
    assert_eq!(result.get(StorageTier::HostPinned).unwrap().hits.get(src), Some(1));
    assert!(result.get(StorageTier::Disk).is_none());
    let external = result.get(StorageTier::External).unwrap();
    assert_eq!(external.hits.get(src), Some(2));
    assert_eq!(
        external.next_continuations.get(src),
        Some(LowerTierContinuation::new(4, ExternalSequenceBlockHash(103)))
    );
}

// A worker that only a lower tier knows starts there at the root.
#[test]
fn worker_unknown_to_the_device_starts_at_the_root() {
    let known = WorkerWithDpRank::new(1, 0);
    let unknown = WorkerWithDpRank::new(2, 1);
    let mut indexers = LowerTierIndexers::new(1, 1);
    store(indexers.get_or_create(StorageTier::Disk), unknown, None, &[10, 11], &[200, 201]);
    let sequence = sequence(&[10, 11, 12]);
    let device = device_match(known, 2, Some(101));
    let result = query_lower_tiers(&indexers, &sequence, &device);
    let details = result.get(StorageTier::Disk).unwrap();
    assert_eq!(details.hits.get(unknown), Some(2));
    assert_eq!(details.cross_worker_hits.get(unknown), Some(2));
    assert_eq!(details.hits.get(known), Some(0));
    assert_eq!(details.cross_worker_hits.get(known), Some(0));
    assert_eq!(
        details.cross_worker_anchors.get(known),
        Some(CrossWorkerAnchor {
            start_pos: 2,
            parent_hash: Some(ExternalSequenceBlockHash(101)),
        })
    );
    assert_eq!(
        details.next_continuations.get(known),
        Some(LowerTierContinuation::new(2, ExternalSequenceBlockHash(101)))
    );
}

#[test]
fn empty_request_matches_nothing() {
    let src = WorkerWithDpRank::new(1, 0);
    let mut indexers = LowerTierIndexers::new(1, 1);
    store(indexers.get_or_create(StorageTier::HostPinned), src, None, &[10], &[100]);
    let result = query_lower_tiers(&indexers, &[], &MatchDetails::default());
    let details = result.get(StorageTier::HostPinned).unwrap();
    assert!(details.hits.is_empty());
    assert!(details.cross_worker_hits.is_empty());
}

// A device score without a last matched block starts no continuation.
#[test]
fn score_without_last_hash_is_passed_over() {
    let src = WorkerWithDpRank::new(1, 0);
    let mut indexers = LowerTierIndexers::new(1, 1);
    indexers.get_or_create(StorageTier::HostPinned);
    let device = device_match(src, 3, None);
    let result = query_lower_tiers(&indexers, &sequence(&[10, 11]), &device);
    assert_eq!(result.get(StorageTier::HostPinned).unwrap().hits.get(src), None);
}

#[test]
fn tiers_are_walked_from_the_top_down() {
    assert_eq!(
        lower_tier_query_order(),
        [StorageTier::HostPinned, StorageTier::Disk, StorageTier::External]
    );
}

#[test]
fn tiers_are_allocated_once_and_kept() {
    let metrics = Arc::new(KvIndexerMetrics { family: 17 });
    let mut indexers = LowerTierIndexers::new_with_metrics(3, 16, Some(metrics.clone()));
    assert!(indexers.get(StorageTier::Disk).is_none());
    assert!(indexers.all().is_empty());

    let src = WorkerWithDpRank::new(1, 0);
    store(indexers.get_or_create(StorageTier::Disk), src, None, &[10], &[100]);
    let again = indexers.get_or_create(StorageTier::Disk);
    assert_eq!(again.num_threads, 3);
    assert_eq!(again.block_size, 16);
    assert_eq!(again.metrics, Some(metrics));
    assert_eq!(again.backend().root_workers(LocalBlockHash(10)), vec![src]);
    assert!(again.backend().root_workers(LocalBlockHash(11)).is_empty());

    indexers.get_or_create(StorageTier::HostPinned);
    assert_eq!(indexers.all().len(), 2);
    let mut tiers: Vec<StorageTier> =
        indexers.entries().into_iter().map(|(tier, _)| tier).collect();
    tiers.sort();
    assert_eq!(tiers, vec![StorageTier::HostPinned, StorageTier::Disk]);
    let disk = indexers.get(StorageTier::Disk).unwrap();
    assert_eq!(disk.backend().root_workers(LocalBlockHash(10)), vec![src]);
    assert!(LowerTierIndexers::new(1, 1).get_or_create(StorageTier::Disk).metrics.is_none());
}

#[test]
fn stored_blocks_are_replaced_in_place() {
    let src = WorkerWithDpRank::new(1, 0);
    let mut indexers = LowerTierIndexers::new(1, 1);
    let hp = indexers.get_or_create(StorageTier::HostPinned);
    store(hp, src, None, &[10, 11], &[100, 101]);
    store(hp, src, None, &[10], &[300]);
    let locals = sequence(&[10, 11]);
    let backend = hp.backend();
    assert_eq!(
        backend.chain_block_hashes_for_worker(src, None, &locals),
        vec![ExternalSequenceBlockHash(300)]
    );
    assert_eq!(
        backend.chain_block_hashes_for_worker(
            src,
            Some(ExternalSequenceBlockHash(100)),
            &locals[1..]
        ),
        vec![ExternalSequenceBlockHash(101)]
    );
}

#[test]
fn matches_survive_the_wire() {
    let one = WorkerWithDpRank::new(u64::MAX, u32::MAX);
    let two = WorkerWithDpRank::new(0, 1);
    let mut indexers = LowerTierIndexers::new(1, 1);
    let hp = indexers.get_or_create(StorageTier::HostPinned);
    store(hp, one, None, &[10, 11], &[100, 101]);
    store(hp, two, Some(200), &[11], &[201]);
    let mut device = device_match(two, 1, Some(200));
    device.overlap_scores.scores.insert(one, 0);
    let lower_tier = query_lower_tiers(&indexers, &sequence(&[10, 11]), &device);
    let details = TieredMatchDetails { device, lower_tier };

    let wire = WireTieredMatchDetails::from(&details);
    assert_eq!(wire.device.scores.len(), 2);
    let back = TieredMatchDetails::from(wire);

    assert_eq!(back.device.overlap_scores.scores.get(one), Some(0));
    assert_eq!(back.device.overlap_scores.scores.get(two), Some(1));
    assert!(back.device.last_matched_hashes.is_empty());
    let sent = details.lower_tier.get(StorageTier::HostPinned).unwrap();
    let got = back.lower_tier.get(StorageTier::HostPinned).unwrap();
    for worker in [one, two] {
        assert!(sent.hits.get(worker).is_some());
        assert_eq!(got.hits.get(worker), sent.hits.get(worker));
        assert_eq!(got.cross_worker_hits.get(worker), sent.cross_worker_hits.get(worker));
        assert_eq!(got.cross_worker_anchors.get(worker), sent.cross_worker_anchors.get(worker));
        assert_eq!(got.next_continuations.get(worker), sent.next_continuations.get(worker));
    }
    assert_eq!(
        got.cross_worker_anchors.get(two),
        Some(CrossWorkerAnchor {
            start_pos: 1,
            parent_hash: Some(ExternalSequenceBlockHash(200)),
        })
    );
    assert!(back.lower_tier.get(StorageTier::Disk).is_none());
}

#[test]
fn last_entry_of_a_tier_on_the_wire_counts() {
    let src = WorkerWithDpRank::new(1, 0);
    let mut wire = WireTieredMatchDetails::from(&TieredMatchDetails::default());
    for hits in [2, 7] {
        let mut details = LowerTierMatchDetails::default();
        details.hits.insert(src, hits);
        let mut one = TieredMatchDetails::default();
        one.lower_tier.insert(StorageTier::Disk, details);
        wire.lower_tier.extend(WireTieredMatchDetails::from(&one).lower_tier);
    }
    assert_eq!(wire.lower_tier.len(), 2);
    let back = TieredMatchDetails::from(wire);
    assert_eq!(back.lower_tier.get(StorageTier::Disk).unwrap().hits.get(src), Some(7));
}

// Per worker the larger count wins, with the anchor of its chain; ties go to
// the chain from the root.
#[test]
fn merge_takes_the_larger_count_and_its_anchor() {
    let extends = WorkerWithDpRank::new(1, 0);
    let restarts = WorkerWithDpRank::new(2, 0);
    let ties = WorkerWithDpRank::new(3, 0);
    let fresh_only = WorkerWithDpRank::new(4, 0);
    let unplaced = WorkerWithDpRank::new(5, 0);
    let mut extension = LowerTierMatchDetails::default();
    let mut starts = WorkerMap::new();
    for (worker, hits) in [(extends, 3), (restarts, 1), (ties, 2), (unplaced, 1)] {
        extension.hits.insert(worker, hits);
        if worker != unplaced {
            let start = LowerTierContinuation::new(4, ExternalSequenceBlockHash(50));
            starts.insert(worker, start);
        }
    }
    let fresh = WorkerMap::from_entries(&[(extends, 2), (restarts, 6), (ties, 2), (fresh_only, 0)]);

    let merged = merge_matches(extension, &starts, &fresh);

    let root = CrossWorkerAnchor { start_pos: 0, parent_hash: None };
    let tail =
        CrossWorkerAnchor { start_pos: 4, parent_hash: Some(ExternalSequenceBlockHash(50)) };
    for (worker, hits, anchor) in [
        (extends, 3, tail),
        (restarts, 6, root),
        (ties, 2, root),
        (fresh_only, 0, root),
        (unplaced, 1, root),
    ] {
        assert_eq!(merged.cross_worker_hits.get(worker), Some(hits));
        assert_eq!(merged.cross_worker_anchors.get(worker), Some(anchor));
    }
    assert_eq!(merged.hits.get(restarts), Some(1));
    assert_eq!(merged.hits.get(fresh_only), None);
    assert_eq!(merged.cross_worker_anchors.entries().len(), 5);
}

// The device match and the hits of all tiers add up to where the match ends.
#[test]
fn no_block_is_counted_in_two_tiers() {
    let src = WorkerWithDpRank::new(1, 0);
    let locals = [10, 11, 12, 13];
    let externals = [100, 101, 102, 103];
    let mut indexers = LowerTierIndexers::new(1, 1);
    for tier in [StorageTier::HostPinned, StorageTier::Disk, StorageTier::External] {
        store(indexers.get_or_create(tier), src, None, &locals, &externals);
    }
    let device = device_match(src, 1, Some(100));
    let result = query_lower_tiers(&indexers, &sequence(&locals), &device);
    let hits: Vec<Option<usize>> = lower_tier_query_order()
        .iter()
        .map(|&tier| result.get(tier).unwrap().hits.get(src))
        .collect();
    assert_eq!(hits, vec![Some(3), Some(0), Some(0)]);
}

#[test]
fn storing_leaves_other_workers_alone() {
    let one = WorkerWithDpRank::new(1, 0);
    let other = WorkerWithDpRank::new(1, 1);
    let mut indexers = LowerTierIndexers::new(1, 1);
    let hp = indexers.get_or_create(StorageTier::HostPinned);
    store(hp, one, None, &[10, 11], &[100, 101]);
    store(hp, other, None, &[10], &[200]);
    let locals = sequence(&[10, 11]);
    assert_eq!(
        hp.backend().chain_block_hashes_for_worker(one, None, &locals),
        vec![ExternalSequenceBlockHash(100), ExternalSequenceBlockHash(101)]
    );
    assert_eq!(
        hp.backend().chain_block_hashes_for_worker(other, None, &locals),
        vec![ExternalSequenceBlockHash(200)]
    );
    let mut holders = hp.backend().root_workers(LocalBlockHash(10));
    holders.sort();
    assert_eq!(holders, vec![one, other]);
}

fn plan_window(
    indexers: &LowerTierIndexers,
    sequence: &[LocalBlockHash],
    device: MatchDetails,
    target: WorkerWithDpRank,
) -> (RemoteKvReuseCandidate, Vec<u64>) {
    let lower_tier = query_lower_tiers(indexers, sequence, &device);
    let matches = TieredMatchDetails { device, lower_tier };
    let input = RemoteKvReuseSelectionInput {
        request_id: "request-1",
        target,
        block_hashes: sequence,
        tiered_matches: &matches,
    };
    match select_remote_g2_reuse_plan(input) {
        RemoteKvReuseDecision::Candidate { candidate, .. } => {
            let start = candidate.start_block_index as usize;
            let hashes = materialize_window(
                indexers,
                matches.lower_tier.get(StorageTier::HostPinned).unwrap(),
                candidate.source,
                sequence,
                start,
                start + candidate.routing_block_hashes.len(),
            );
            (candidate, hashes)
        }
        other => panic!("expected candidate, got {other:?}"),
    }
}

// A planned window is held by the source in full.
#[test]
fn planned_window_is_held_by_the_source() {
    let src = WorkerWithDpRank::new(1, 0);
    let target = WorkerWithDpRank::new(2, 0);
    let mut indexers = LowerTierIndexers::new(1, 1);
    store(
        indexers.get_or_create(StorageTier::HostPinned),
        src,
        None,
        &[10, 11, 12, 13, 14],
        &[100, 101, 102, 103, 104],
    );
    let mut device = device_match(src, 5, Some(104));
    device.overlap_scores.scores.insert(target, 2);
    device.last_matched_hashes.insert(target, ExternalSequenceBlockHash(901));
    let (candidate, hashes) =
        plan_window(&indexers, &sequence(&[10, 11, 12, 13, 14]), device, target);
    assert_eq!(candidate.source, src);
    assert_eq!(candidate.start_block_index, 2);
    assert_eq!(hashes, vec![102, 103, 104]);
}

// A device match of the source that is longer than its host-pinned chain does
// not move the window off that chain.
#[test]
fn window_stays_on_the_chain_of_a_source_with_a_longer_device_match() {
    let src = WorkerWithDpRank::new(1, 0);
    let target = WorkerWithDpRank::new(2, 0);
    let mut indexers = LowerTierIndexers::new(1, 1);
    store(
        indexers.get_or_create(StorageTier::HostPinned),
        src,
        None,
        &[10, 11, 12],
        &[100, 101, 102],
    );
    let device = device_match(src, 4, Some(103));
    let (candidate, hashes) =
        plan_window(&indexers, &sequence(&[10, 11, 12, 13]), device, target);
    assert_eq!(candidate.start_block_index, 0);
    assert_eq!(candidate.routing_block_hashes.len(), 3);
    assert_eq!(hashes, vec![100, 101, 102]);
}
