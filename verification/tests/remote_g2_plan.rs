use kv_router::indexer::{
    CrossWorkerAnchor, LowerTierContinuation, LowerTierMatchDetails, MatchDetails, TieredMatchDetails,
};
use kv_router::protocols::{
    ExternalSequenceBlockHash, LocalBlockHash, OverlapScores, StorageTier, WorkerWithDpRank,
};
use kv_router::remote_g2_plan::{
    select_remote_g2_reuse_plan, RemoteKvReuseDecision, RemoteKvReuseNoPlanReason,
    RemoteKvReuseSelectionInput, REMOTE_KV_REUSE_NO_PLAN_REASON_EXTRA_ARGS_KEY,
    REMOTE_KV_REUSE_PLAN_EXTRA_ARGS_KEY,
};
use kv_router::tier_map::TierMap;

fn block_hashes(count: u64) -> Vec<LocalBlockHash> {
    (0..count).map(LocalBlockHash).collect()
}

fn tiered_matches(
    device_hits: &[(WorkerWithDpRank, u32)],
    host_pinned_hits: &[(WorkerWithDpRank, usize)],
) -> TieredMatchDetails {
    let mut device = MatchDetails { overlap_scores: OverlapScores::new(), ..Default::default() };
    for &(worker, hits) in device_hits {
        device.overlap_scores.scores.insert(worker, hits);
    }

    let mut lower_tier = TierMap::new();
    let mut host_pinned = LowerTierMatchDetails::default();
    for &(worker, hits) in host_pinned_hits {
        host_pinned.hits.insert(worker, hits);
        host_pinned.cross_worker_hits.insert(worker, hits);
        let device_hit = device_hits
            .iter()
            .find_map(|&(device_worker, device_hit)| {
                (device_worker == worker).then_some(device_hit as usize)
            })
            .unwrap_or(0);
        host_pinned.next_continuations.insert(
            worker,
            LowerTierContinuation::new(
                device_hit + hits,
                ExternalSequenceBlockHash(device_hit.saturating_add(hits) as u64),
            ),
        );
    }
    lower_tier.insert(StorageTier::HostPinned, host_pinned);

    TieredMatchDetails { device, lower_tier }
}

fn selection_input<'a>(
    target: WorkerWithDpRank,
    block_hashes: &'a [LocalBlockHash],
    tiered_matches: &'a TieredMatchDetails,
) -> RemoteKvReuseSelectionInput<'a> {
    RemoteKvReuseSelectionInput { request_id: "request-1", target, block_hashes, tiered_matches }
}

#[test]
fn select_longest_remote_g2_prefix() {
    let hashes = block_hashes(5);
    let target = WorkerWithDpRank::new(9, 0);
    let matches = tiered_matches(
        &[],
        &[(WorkerWithDpRank::new(7, 0), 2), (WorkerWithDpRank::new(8, 0), 4)],
    );

    let decision = select_remote_g2_reuse_plan(selection_input(target, &hashes, &matches));

    match decision {
        RemoteKvReuseDecision::Candidate { candidate, .. } => {
            assert_eq!(candidate.source, WorkerWithDpRank::new(8, 0));
            assert_eq!(candidate.routing_block_hashes, hashes[..4].to_vec());
        }
        other => panic!("expected candidate, got {other:?}"),
    }
}

#[test]
fn select_tie_break_by_worker_then_rank() {
    let hashes = block_hashes(4);
    let target = WorkerWithDpRank::new(9, 0);
    let matches = tiered_matches(
        &[],
        &[
            (WorkerWithDpRank::new(8, 1), 3),
            (WorkerWithDpRank::new(7, 3), 3),
            (WorkerWithDpRank::new(7, 1), 3),
        ],
    );

    let decision = select_remote_g2_reuse_plan(selection_input(target, &hashes, &matches));

    match decision {
        RemoteKvReuseDecision::Candidate { candidate, .. } => {
            assert_eq!(candidate.source, WorkerWithDpRank::new(7, 1));
            assert_eq!(candidate.routing_block_hashes.len(), 3);
        }
        other => panic!("expected candidate, got {other:?}"),
    }
}

#[test]
fn select_rejects_g1_only_device_hits() {
    let hashes = block_hashes(2);
    let target = WorkerWithDpRank::new(9, 0);
    let matches = TieredMatchDetails {
        device: {
            let mut device =
                MatchDetails { overlap_scores: OverlapScores::new(), ..Default::default() };
            device.overlap_scores.scores.insert(WorkerWithDpRank::new(7, 0), 2);
            device
        },
        lower_tier: TierMap::new(),
    };

    let decision = select_remote_g2_reuse_plan(selection_input(target, &hashes, &matches));

    match decision {
        RemoteKvReuseDecision::NoPlan { reason, stats } => {
            assert_eq!(reason, RemoteKvReuseNoPlanReason::NoRemoteG2Candidate);
            assert!(stats.rejected_g1_candidates > 0);
        }
        other => panic!("expected no plan, got {other:?}"),
    }
}

#[test]
fn select_distinguishes_target_by_dp_rank() {
    let hashes = block_hashes(3);
    let target = WorkerWithDpRank::new(9, 0);
    let source = WorkerWithDpRank::new(9, 1);
    let matches = tiered_matches(&[], &[(source, 3)]);

    let decision = select_remote_g2_reuse_plan(selection_input(target, &hashes, &matches));

    match decision {
        RemoteKvReuseDecision::Candidate { candidate, .. } => {
            assert_eq!(candidate.source, source);
            assert_eq!(candidate.routing_block_hashes.len(), 3);
        }
        other => panic!("expected candidate, got {other:?}"),
    }
}

#[test]
fn select_candidate_metadata_propagates_from_input() {
    let hashes = block_hashes(3);
    let target = WorkerWithDpRank::new(42, 2);
    let source = WorkerWithDpRank::new(7, 1);
    let matches = tiered_matches(&[], &[(source, 3)]);
    let input = RemoteKvReuseSelectionInput {
        request_id: "req-meta",
        target,
        block_hashes: &hashes,
        tiered_matches: &matches,
    };

    let decision = select_remote_g2_reuse_plan(input);

    match decision {
        RemoteKvReuseDecision::Candidate { candidate, .. } => {
            assert_eq!(candidate.request_id, "req-meta");
            assert_eq!(candidate.source, source);
            assert_eq!(candidate.start_block_index, 0);
            assert_eq!(candidate.routing_block_hashes, hashes);
        }
        other => panic!("expected candidate, got {other:?}"),
    }
}

#[test]
fn scenario_zero_host_pinned_hits_no_contiguous_prefix() {
    let hashes = block_hashes(2);
    let target = WorkerWithDpRank::new(9, 0);
    let matches = tiered_matches(&[], &[(WorkerWithDpRank::new(7, 0), 0)]);

    let decision = select_remote_g2_reuse_plan(selection_input(target, &hashes, &matches));

    match decision {
        RemoteKvReuseDecision::NoPlan { reason, .. } => {
            assert_eq!(reason, RemoteKvReuseNoPlanReason::NoContiguousPrefix);
        }
        other => panic!("expected no plan, got {other:?}"),
    }
}

#[test]
fn scenario_empty_request_no_contiguous_prefix() {
    let hashes: Vec<LocalBlockHash> = Vec::new();
    let target = WorkerWithDpRank::new(9, 0);
    let matches = tiered_matches(&[], &[(WorkerWithDpRank::new(7, 0), 3)]);

    let decision = select_remote_g2_reuse_plan(selection_input(target, &hashes, &matches));

    match decision {
        RemoteKvReuseDecision::NoPlan { reason, .. } => {
            assert_eq!(reason, RemoteKvReuseNoPlanReason::NoContiguousPrefix);
        }
        other => panic!("expected no plan, got {other:?}"),
    }
}

#[test]
fn scenario_g1_partial_g2_tail_start_at_device_match() {
    let hashes = block_hashes(6);
    let target = WorkerWithDpRank::new(9, 0);
    let source = WorkerWithDpRank::new(7, 0);
    let matches = tiered_matches(&[(source, 2)], &[(source, 2)]);

    let decision = select_remote_g2_reuse_plan(selection_input(target, &hashes, &matches));

    match decision {
        RemoteKvReuseDecision::Candidate { candidate, .. } => {
            assert_eq!(candidate.start_block_index, 2);
            assert_eq!(candidate.routing_block_hashes, hashes[2..4].to_vec());
        }
        other => panic!("expected candidate, got {other:?}"),
    }
}

#[test]
fn scenario_zero_overlap_no_remote_g2_candidate() {
    let hashes = block_hashes(4);
    let target = WorkerWithDpRank::new(9, 0);
    let matches = tiered_matches(&[], &[]);

    let decision = select_remote_g2_reuse_plan(selection_input(target, &hashes, &matches));

    match decision {
        RemoteKvReuseDecision::NoPlan { reason, stats } => {
            assert_eq!(reason, RemoteKvReuseNoPlanReason::NoRemoteG2Candidate);
            assert_eq!(stats.rejected_g1_candidates, 0);
        }
        other => panic!("expected no plan, got {other:?}"),
    }
}

#[test]
fn scenario_target_only_host_pinned_no_remote_g2_candidate() {
    let hashes = block_hashes(3);
    let target = WorkerWithDpRank::new(9, 0);
    let matches = tiered_matches(&[], &[(target, 3)]);

    let decision = select_remote_g2_reuse_plan(selection_input(target, &hashes, &matches));

    match decision {
        RemoteKvReuseDecision::NoPlan { reason, stats } => {
            assert_eq!(reason, RemoteKvReuseNoPlanReason::NoRemoteG2Candidate);
            assert_eq!(stats.rejected_g1_candidates, 0);
        }
        other => panic!("expected no plan, got {other:?}"),
    }
}

#[test]
fn scenario_no_host_pinned_tier_no_remote_g2_candidate() {
    let hashes = block_hashes(3);
    let target = WorkerWithDpRank::new(9, 0);
    let matches = TieredMatchDetails {
        device: MatchDetails { overlap_scores: OverlapScores::new(), ..Default::default() },
        lower_tier: TierMap::new(),
    };

    let decision = select_remote_g2_reuse_plan(selection_input(target, &hashes, &matches));

    match decision {
        RemoteKvReuseDecision::NoPlan { reason, stats } => {
            assert_eq!(reason, RemoteKvReuseNoPlanReason::NoRemoteG2Candidate);
            assert_eq!(stats.rejected_g1_candidates, 0);
        }
        other => panic!("expected no plan, got {other:?}"),
    }
}

#[test]
fn scenario_full_g2_no_g1_full_coverage_candidate() {
    let hashes = block_hashes(3);
    let target = WorkerWithDpRank::new(9, 0);
    let source = WorkerWithDpRank::new(7, 0);
    let matches = tiered_matches(&[], &[(source, 3)]);

    let decision = select_remote_g2_reuse_plan(selection_input(target, &hashes, &matches));

    match decision {
        RemoteKvReuseDecision::Candidate { candidate, stats } => {
            assert_eq!(candidate.source, source);
            assert_eq!(candidate.start_block_index, 0);
            assert_eq!(candidate.routing_block_hashes, hashes);
            assert_eq!(stats.rejected_g1_candidates, 0);
        }
        other => panic!("expected candidate, got {other:?}"),
    }
}

#[test]
fn scenario_partial_g2_no_g1_matched_prefix_only() {
    let hashes = block_hashes(5);
    let target = WorkerWithDpRank::new(9, 0);
    let source = WorkerWithDpRank::new(7, 0);
    let matches = tiered_matches(&[], &[(source, 3)]);

    let decision = select_remote_g2_reuse_plan(selection_input(target, &hashes, &matches));

    match decision {
        RemoteKvReuseDecision::Candidate { candidate, stats } => {
            assert_eq!(candidate.source, source);
            assert_eq!(candidate.start_block_index, 0);
            assert_eq!(candidate.routing_block_hashes, hashes[..3].to_vec());
            assert!(candidate.routing_block_hashes.len() < hashes.len());
            assert_eq!(stats.rejected_g1_candidates, 0);
        }
        other => panic!("expected candidate, got {other:?}"),
    }
}

#[test]
fn scenario_full_g1_extra_g2_no_contiguous_prefix() {
    let hashes = block_hashes(4);
    let target = WorkerWithDpRank::new(9, 0);
    let source = WorkerWithDpRank::new(7, 0);
    let matches = tiered_matches(&[(source, 4)], &[(source, 2)]);

    let decision = select_remote_g2_reuse_plan(selection_input(target, &hashes, &matches));

    match decision {
        RemoteKvReuseDecision::NoPlan { reason, stats } => {
            assert_eq!(reason, RemoteKvReuseNoPlanReason::NoContiguousPrefix);
            assert!(stats.rejected_g1_candidates > 0);
        }
        other => panic!("expected no plan, got {other:?}"),
    }
}

// The target serves what it holds itself; only what lies behind is pulled.
#[test]
fn window_starts_behind_the_targets_device_match() {
    let hashes = block_hashes(6);
    let target = WorkerWithDpRank::new(9, 0);
    let source = WorkerWithDpRank::new(7, 0);
    let matches = tiered_matches(&[(target, 3)], &[(source, 5)]);

    match select_remote_g2_reuse_plan(selection_input(target, &hashes, &matches)) {
        RemoteKvReuseDecision::Candidate { candidate, stats } => {
            assert_eq!(candidate.source, source);
            assert_eq!(candidate.start_block_index, 3);
            assert_eq!(candidate.routing_block_hashes, hashes[3..5].to_vec());
            assert_eq!(stats.rejected_g1_candidates, 1);
        }
        other => panic!("expected candidate, got {other:?}"),
    }
}

#[test]
fn target_that_holds_all_the_source_has_pulls_nothing() {
    let hashes = block_hashes(6);
    let target = WorkerWithDpRank::new(9, 0);
    let source = WorkerWithDpRank::new(7, 0);
    let matches = tiered_matches(&[(target, 5)], &[(source, 5)]);

    match select_remote_g2_reuse_plan(selection_input(target, &hashes, &matches)) {
        RemoteKvReuseDecision::NoPlan { reason, stats } => {
            assert_eq!(reason, RemoteKvReuseNoPlanReason::NoContiguousPrefix);
            assert_eq!(stats.rejected_g1_candidates, 1);
        }
        other => panic!("expected no plan, got {other:?}"),
    }
}

// Device matches of peers change the statistics and nothing else.
#[test]
fn device_matches_of_peers_only_count_in_the_statistics() {
    let hashes = block_hashes(6);
    let target = WorkerWithDpRank::new(9, 0);
    let source = WorkerWithDpRank::new(7, 0);
    let bystander = WorkerWithDpRank::new(3, 0);
    let idle = WorkerWithDpRank::new(4, 0);
    let quiet = tiered_matches(&[], &[(source, 4)]);
    let busy = tiered_matches(&[(bystander, 6), (idle, 0)], &[(source, 4)]);

    let first = select_remote_g2_reuse_plan(selection_input(target, &hashes, &quiet));
    let second = select_remote_g2_reuse_plan(selection_input(target, &hashes, &busy));

    match (first, second) {
        (
            RemoteKvReuseDecision::Candidate { candidate: a, stats: none },
            RemoteKvReuseDecision::Candidate { candidate: b, stats: one },
        ) => {
            assert_eq!(a, b);
            assert_eq!(none.rejected_g1_candidates, 0);
            assert_eq!(one.rejected_g1_candidates, 1);
        }
        other => panic!("expected two candidates, got {other:?}"),
    }
}

#[test]
fn window_is_cut_at_the_end_of_the_request() {
    let hashes = block_hashes(3);
    let target = WorkerWithDpRank::new(9, 0);
    let source = WorkerWithDpRank::new(7, 0);
    let matches = tiered_matches(&[(target, 1)], &[(source, 8)]);

    match select_remote_g2_reuse_plan(selection_input(target, &hashes, &matches)) {
        RemoteKvReuseDecision::Candidate { candidate, .. } => {
            assert_eq!(candidate.start_block_index, 1);
            assert_eq!(candidate.routing_block_hashes, hashes[1..].to_vec());
        }
        other => panic!("expected candidate, got {other:?}"),
    }
}

// A source without a continuation counts from the start of the request.
#[test]
fn source_without_continuation_starts_at_the_root() {
    let hashes = block_hashes(4);
    let target = WorkerWithDpRank::new(9, 0);
    let source = WorkerWithDpRank::new(7, 0);
    let mut host_pinned = LowerTierMatchDetails::default();
    host_pinned.cross_worker_hits.insert(source, 2);
    let mut matches = TieredMatchDetails::default();
    matches.lower_tier.insert(StorageTier::HostPinned, host_pinned);

    match select_remote_g2_reuse_plan(selection_input(target, &hashes, &matches)) {
        RemoteKvReuseDecision::Candidate { candidate, .. } => {
            assert_eq!(candidate.start_block_index, 0);
            assert_eq!(candidate.routing_block_hashes, hashes[..2].to_vec());
        }
        other => panic!("expected candidate, got {other:?}"),
    }
}

#[test]
fn reasons_are_named_in_snake_case() {
    let names = [
        (RemoteKvReuseNoPlanReason::Disabled, "disabled"),
        (RemoteKvReuseNoPlanReason::NoRemoteG2Candidate, "no_remote_g2_candidate"),
        (RemoteKvReuseNoPlanReason::NoContiguousPrefix, "no_contiguous_prefix"),
        (RemoteKvReuseNoPlanReason::SourceIsTarget, "source_is_target"),
        (RemoteKvReuseNoPlanReason::NoSourceControlEndpoint, "no_source_control_endpoint"),
        (RemoteKvReuseNoPlanReason::IncompatibleBlockSize, "incompatible_block_size"),
        (RemoteKvReuseNoPlanReason::SerializationFailed, "serialization_failed"),
    ];
    for (reason, name) in names {
        assert_eq!(reason.as_str(), name);
    }
}

#[test]
fn extra_args_keys() {
    assert_eq!(REMOTE_KV_REUSE_PLAN_EXTRA_ARGS_KEY, "remote_kv_reuse_plan");
    assert_eq!(
        REMOTE_KV_REUSE_NO_PLAN_REASON_EXTRA_ARGS_KEY,
        "remote_kv_reuse_no_plan_reason"
    );
}

#[test]
fn workers_are_ordered_by_worker_then_rank() {
    let workers = [
        WorkerWithDpRank::new(7, 3),
        WorkerWithDpRank::new(8, 1),
        WorkerWithDpRank::new(7, 1),
        WorkerWithDpRank::new(0, u32::MAX),
        WorkerWithDpRank::new(1, 0),
    ];
    for a in workers {
        for b in workers {
            assert_eq!(a.is_before(&b), a < b);
        }
    }
    assert!(WorkerWithDpRank::new(0, u32::MAX).is_before(&WorkerWithDpRank::new(1, 0)));
}

fn anchored(
    source: WorkerWithDpRank,
    device: u32,
    hits: usize,
    anchor: CrossWorkerAnchor,
    next: LowerTierContinuation,
) -> TieredMatchDetails {
    let mut matches = TieredMatchDetails::default();
    matches.device.overlap_scores.scores.insert(source, device);
    let mut host_pinned = LowerTierMatchDetails::default();
    host_pinned.cross_worker_hits.insert(source, hits);
    host_pinned.cross_worker_anchors.insert(source, anchor);
    host_pinned.next_continuations.insert(source, next);
    matches.lower_tier.insert(StorageTier::HostPinned, host_pinned);
    matches
}

// The recorded anchor places the window, not where the source's match stands.
#[test]
fn window_starts_at_the_recorded_anchor() {
    let hashes = block_hashes(5);
    let target = WorkerWithDpRank::new(9, 0);
    let source = WorkerWithDpRank::new(7, 0);
    let matches = anchored(
        source,
        5,
        3,
        CrossWorkerAnchor { start_pos: 0, parent_hash: None },
        LowerTierContinuation::new(5, ExternalSequenceBlockHash(104)),
    );

    match select_remote_g2_reuse_plan(selection_input(target, &hashes, &matches)) {
        RemoteKvReuseDecision::Candidate { candidate, stats } => {
            assert_eq!(candidate.source, source);
            assert_eq!(candidate.start_block_index, 0);
            assert_eq!(candidate.routing_block_hashes, hashes[..3].to_vec());
            assert_eq!(stats.rejected_g1_candidates, 1);
        }
        other => panic!("expected candidate, got {other:?}"),
    }
}

// A chain that hangs off the source's device tail offers nothing before it.
#[test]
fn window_starts_at_an_anchor_behind_the_start() {
    let hashes = block_hashes(6);
    let target = WorkerWithDpRank::new(9, 0);
    let source = WorkerWithDpRank::new(7, 0);
    let tail = ExternalSequenceBlockHash(101);
    let matches = anchored(
        source,
        2,
        3,
        CrossWorkerAnchor { start_pos: 2, parent_hash: Some(tail) },
        LowerTierContinuation::new(5, ExternalSequenceBlockHash(104)),
    );

    match select_remote_g2_reuse_plan(selection_input(target, &hashes, &matches)) {
        RemoteKvReuseDecision::Candidate { candidate, .. } => {
            assert_eq!(candidate.start_block_index, 2);
            assert_eq!(candidate.routing_block_hashes, hashes[2..5].to_vec());
        }
        other => panic!("expected candidate, got {other:?}"),
    }
}

// An anchor past the request leaves nothing to pull, however large the count.
#[test]
fn anchor_past_the_request_leaves_nothing_to_pull() {
    let hashes = block_hashes(3);
    let target = WorkerWithDpRank::new(9, 0);
    let matches = anchored(
        WorkerWithDpRank::new(7, 0),
        0,
        usize::MAX,
        CrossWorkerAnchor { start_pos: usize::MAX, parent_hash: None },
        LowerTierContinuation::from_root(0),
    );

    match select_remote_g2_reuse_plan(selection_input(target, &hashes, &matches)) {
        RemoteKvReuseDecision::NoPlan { reason, .. } => {
            assert_eq!(reason, RemoteKvReuseNoPlanReason::NoContiguousPrefix);
        }
        other => panic!("expected no plan, got {other:?}"),
    }
}
