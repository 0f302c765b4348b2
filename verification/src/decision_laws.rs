//! What holds of the outcome for a request, in terms of the request, the
//! matches and the outcome alone.

use vstd::prelude::*;

use crate::plan_laws::law_some_source_is_found;
use crate::protocols::{StorageTier, WorkerWithDpRank};
use crate::remote_g2_plan::{
    best_source, device_holders, is_best_source, lemma_best_source_is_unique,
    RemoteKvReuseCandidate, RemoteKvReuseDecision, RemoteKvReuseNoPlanReason,
    RemoteKvReuseSelectionInput, RemoteKvReuseSelectionStats,
};

verus! {

/// A best source is the one that is chosen.
proof fn lemma_best_source_is_chosen(
    hits: Map<WorkerWithDpRank, usize>,
    target: WorkerWithDpRank,
    source: WorkerWithDpRank,
)
    requires
        hits.contains_key(source),
        source != target,
        hits[source] > 0,
        forall|w: WorkerWithDpRank| #[trigger]
            hits.contains_key(w) && w != target ==> hits[w] < hits[source] || (hits[w]
                == hits[source] && (source.worker_id < w.worker_id || (source.worker_id
                == w.worker_id && source.dp_rank <= w.dp_rank))),
    ensures
        best_source(hits, target) == Some(source),
{
    assert(is_best_source(hits, target, source));
    let chosen = best_source(hits, target).unwrap();
    lemma_best_source_is_unique(hits, target, source, chosen);
}

/// In a request that 32 bits can count, cutting to 32 bits changes nothing.
proof fn lemma_window_fits_in_32_bits(held: int, from: int, hits: int, request_blocks: int)
    requires
        0 <= held,
        0 <= from,
        0 <= hits,
        0 <= request_blocks < 0x1_0000_0000,
    ensures
        ({
            let start = if held >= from {
                held
            } else {
                from
            };
            let end = if from + hits <= request_blocks {
                from + hits
            } else {
                request_blocks
            };
            start < end ==> start % 0x1_0000_0000 == start && (end - start) % 0x1_0000_0000 == end
                - start
        }),
{
}

/// The window of a candidate consists of exactly those positions of the request
/// that the target does not hold on its device and that the source is counted
/// for. It starts where the target's device match ends or where the source's
/// chain starts, and its hashes are the request's at its positions. This is for
/// requests that 32 bits can count.
pub proof fn law_window_has_every_needed_block(
    input: RemoteKvReuseSelectionInput<'_>,
    candidate: RemoteKvReuseCandidate,
    stats: RemoteKvReuseSelectionStats,
    p: int,
)
    requires
        input.decides(RemoteKvReuseDecision::Candidate { candidate, stats }),
        input.block_hashes@.len() < 0x1_0000_0000,
    ensures
        input.tiered_matches.lower_tier@.contains_key(StorageTier::HostPinned),
        candidate.request_id@ == input.request_id@,
        ({
            let matches = input.tiered_matches.lower_tier@[StorageTier::HostPinned];
            let anchors = matches.cross_worker_anchors@;
            let nexts = matches.next_continuations@;
            let source = candidate.source;
            let hits = matches.cross_worker_hits@[source] as int;
            let from = if anchors.contains_key(source) {
                anchors[source].start_pos as int
            } else if nexts.contains_key(source) && hits <= nexts[source].start_pos {
                nexts[source].start_pos - hits
            } else {
                0
            };
            let scores = input.tiered_matches.device.overlap_scores.scores@;
            let held = if scores.contains_key(input.target) {
                scores[input.target] as int
            } else {
                0
            };
            let start = candidate.start_block_index as int;
            let window = candidate.routing_block_hashes@;
            &&& start <= p < start + window.len() <==> held <= p && from <= p < from + hits && p
                < input.block_hashes@.len()
            &&& start == held || start == from
            &&& window.len() > 0
            &&& start <= p < start + window.len() ==> window[p - start] == input.block_hashes@[p]
        }),
{
    let matches = input.tiered_matches.lower_tier@[StorageTier::HostPinned];
    let hits = matches.cross_worker_hits@;
    let source = candidate.source;
    assert(is_best_source(hits, input.target, source));
    let decision = RemoteKvReuseDecision::Candidate { candidate, stats };
    law_counts_are_kept_in_32_bits(input, decision, source);
    let anchors = matches.cross_worker_anchors@;
    let nexts = matches.next_continuations@;
    let from = if anchors.contains_key(source) {
        anchors[source].start_pos as int
    } else if nexts.contains_key(source) && hits[source] <= nexts[source].start_pos {
        nexts[source].start_pos - hits[source]
    } else {
        0
    };
    let scores = input.tiered_matches.device.overlap_scores.scores@;
    let held = if scores.contains_key(input.target) {
        scores[input.target] as int
    } else {
        0
    };
    lemma_window_fits_in_32_bits(held, from, hits[source] as int, input.block_hashes@.len() as int);
}

/// With the best peer known, the request and what that peer is counted for
/// decide: there is a candidate, and it names that peer, exactly if some
/// position of the request is counted for the peer and not held on the target's
/// device; otherwise there is no contiguous prefix. This is for requests that
/// 32 bits can count.
pub proof fn law_needed_block_makes_a_candidate(
    input: RemoteKvReuseSelectionInput<'_>,
    decision: RemoteKvReuseDecision,
    source: WorkerWithDpRank,
)
    requires
        input.decides(decision),
        input.block_hashes@.len() < 0x1_0000_0000,
        input.tiered_matches.lower_tier@.contains_key(StorageTier::HostPinned),
        ({
            let hits =
                input.tiered_matches.lower_tier@[StorageTier::HostPinned].cross_worker_hits@;
            &&& hits.contains_key(source)
            &&& source != input.target
            &&& hits[source] > 0
            &&& forall|w: WorkerWithDpRank| #[trigger]
                hits.contains_key(w) && w != input.target ==> hits[w] < hits[source] || (hits[w]
                    == hits[source] && (source.worker_id < w.worker_id || (source.worker_id
                    == w.worker_id && source.dp_rank <= w.dp_rank)))
        }),
    ensures
        ({
            let matches = input.tiered_matches.lower_tier@[StorageTier::HostPinned];
            let anchors = matches.cross_worker_anchors@;
            let nexts = matches.next_continuations@;
            let hits = matches.cross_worker_hits@[source] as int;
            let from = if anchors.contains_key(source) {
                anchors[source].start_pos as int
            } else if nexts.contains_key(source) && hits <= nexts[source].start_pos {
                nexts[source].start_pos - hits
            } else {
                0
            };
            let scores = input.tiered_matches.device.overlap_scores.scores@;
            let held = if scores.contains_key(input.target) {
                scores[input.target] as int
            } else {
                0
            };
            let needed = Set::new(
                |p: int|
                    held <= p && from <= p < from + hits && p < input.block_hashes@.len(),
            );
            &&& decision is Candidate <==> needed != Set::<int>::empty()
            &&& decision is Candidate ==> decision->candidate.source == source
            &&& decision !is Candidate ==> decision is NoPlan && decision->reason
                == RemoteKvReuseNoPlanReason::NoContiguousPrefix
        }),
{
    let matches = input.tiered_matches.lower_tier@[StorageTier::HostPinned];
    let anchors = matches.cross_worker_anchors@;
    let nexts = matches.next_continuations@;
    let hits = matches.cross_worker_hits@[source] as int;
    law_counts_are_kept_in_32_bits(input, decision, source);
    let from = if anchors.contains_key(source) {
        anchors[source].start_pos as int
    } else if nexts.contains_key(source) && hits <= nexts[source].start_pos {
        nexts[source].start_pos - hits
    } else {
        0
    };
    let scores = input.tiered_matches.device.overlap_scores.scores@;
    let held = if scores.contains_key(input.target) {
        scores[input.target] as int
    } else {
        0
    };
    let needed = Set::new(
        |p: int| held <= p && from <= p < from + hits && p < input.block_hashes@.len(),
    );
    let first = if held >= from {
        held
    } else {
        from
    };
    if decision is Candidate {
        assert(needed.contains(first));
    } else {
        assert forall|p: int| !needed.contains(p) by {
            if needed.contains(p) {
                assert(first <= p);
            }
        }
        assert(needed =~= Set::<int>::empty());
    }
}

/// Positions and lengths are kept in 32 bits, whatever the request's length:
/// the window starts at the later of where the target's device match ends and
/// where the source's chain starts, and takes as many of the blocks up to the
/// chain's end or the request's as the low 32 bits of their number say. Where
/// these say none, there is no contiguous prefix.
pub proof fn law_counts_are_kept_in_32_bits(
    input: RemoteKvReuseSelectionInput<'_>,
    decision: RemoteKvReuseDecision,
    source: WorkerWithDpRank,
)
    requires
        input.decides(decision),
        input.tiered_matches.lower_tier@.contains_key(StorageTier::HostPinned),
        ({
            let hits =
                input.tiered_matches.lower_tier@[StorageTier::HostPinned].cross_worker_hits@;
            &&& hits.contains_key(source)
            &&& source != input.target
            &&& hits[source] > 0
            &&& forall|w: WorkerWithDpRank| #[trigger]
                hits.contains_key(w) && w != input.target ==> hits[w] < hits[source] || (hits[w]
                    == hits[source] && (source.worker_id < w.worker_id || (source.worker_id
                    == w.worker_id && source.dp_rank <= w.dp_rank)))
        }),
    ensures
        ({
            let matches = input.tiered_matches.lower_tier@[StorageTier::HostPinned];
            let anchors = matches.cross_worker_anchors@;
            let nexts = matches.next_continuations@;
            let hits = matches.cross_worker_hits@[source] as int;
            let from = if anchors.contains_key(source) {
                anchors[source].start_pos as int
            } else if nexts.contains_key(source) && hits <= nexts[source].start_pos {
                nexts[source].start_pos - hits
            } else {
                0
            };
            let scores = input.tiered_matches.device.overlap_scores.scores@;
            let held = if scores.contains_key(input.target) {
                scores[input.target] as int
            } else {
                0
            };
            let request = input.block_hashes@;
            let start = if held >= from {
                held
            } else {
                from
            };
            let end = if from + hits <= request.len() {
                from + hits
            } else {
                request.len() as int
            };
            &&& decision is Candidate <==> start < end && (end - start) % 0x1_0000_0000 != 0
            &&& decision is Candidate ==> {
                let candidate = decision->candidate;
                let blocks = (end - start) % 0x1_0000_0000;
                &&& candidate.request_id@ == input.request_id@
                &&& candidate.source == source
                &&& candidate.start_block_index == start % 0x1_0000_0000
                &&& candidate.routing_block_hashes@ == request.subrange(start, start + blocks)
            }
            &&& decision !is Candidate ==> decision is NoPlan && decision->reason
                == RemoteKvReuseNoPlanReason::NoContiguousPrefix
        }),
{
    let matches = input.tiered_matches.lower_tier@[StorageTier::HostPinned];
    lemma_best_source_is_chosen(matches.cross_worker_hits@, input.target, source);
}

/// A candidate's source is a peer that the host-pinned tier counts blocks for;
/// no other peer has more, and of those with as many none has a lower worker
/// identifier, or the same and a lower rank.
pub proof fn law_candidate_names_the_best_peer(
    input: RemoteKvReuseSelectionInput<'_>,
    candidate: RemoteKvReuseCandidate,
    stats: RemoteKvReuseSelectionStats,
    peer: WorkerWithDpRank,
)
    requires
        input.decides(RemoteKvReuseDecision::Candidate { candidate, stats }),
    ensures
        ({
            let hits =
                input.tiered_matches.lower_tier@[StorageTier::HostPinned].cross_worker_hits@;
            let source = candidate.source;
            &&& source != input.target
            &&& hits.contains_key(source)
            &&& hits[source] > 0
            &&& hits.contains_key(peer) && peer != input.target ==> {
                &&& hits[source] >= hits[peer]
                &&& hits[source] == hits[peer] ==> source.worker_id <= peer.worker_id
                &&& hits[source] == hits[peer] && source.worker_id == peer.worker_id
                    ==> source.dp_rank <= peer.dp_rank
            }
        }),
{
    let hits = input.tiered_matches.lower_tier@[StorageTier::HostPinned].cross_worker_hits@;
    assert(is_best_source(hits, input.target, best_source(hits, input.target).unwrap()));
}

/// The outcome is a candidate, or one of two reasons. It is that there is no
/// remote candidate exactly if the host-pinned tier has no answer, or answers
/// for no worker but the target. Peers of which none has a block make no
/// candidate either: then there is no contiguous prefix.
pub proof fn law_reason_follows_from_the_peers(
    input: RemoteKvReuseSelectionInput<'_>,
    decision: RemoteKvReuseDecision,
)
    requires
        input.decides(decision),
    ensures
        ({
            let tiers = input.tiered_matches.lower_tier@;
            let hits = tiers[StorageTier::HostPinned].cross_worker_hits@;
            let no_peer = !tiers.contains_key(StorageTier::HostPinned) || hits.dom().remove(
                input.target,
            ) == Set::<WorkerWithDpRank>::empty();
            let no_blocks = forall|w: WorkerWithDpRank| #[trigger]
                hits.contains_key(w) && w != input.target ==> hits[w] == 0;
            &&& decision is Candidate || decision is NoPlan
            &&& no_peer <==> decision is NoPlan && decision->reason
                == RemoteKvReuseNoPlanReason::NoRemoteG2Candidate
            &&& decision is NoPlan && !no_peer ==> decision->reason
                == RemoteKvReuseNoPlanReason::NoContiguousPrefix
            &&& !no_peer && no_blocks ==> decision is NoPlan
        }),
{
    let tiers = input.tiered_matches.lower_tier@;
    let matches = tiers[StorageTier::HostPinned];
    let hits = matches.cross_worker_hits@;
    let peers = hits.dom().remove(input.target);
    if tiers.contains_key(StorageTier::HostPinned) {
        matches.cross_worker_hits.lemma_domain_is_finite();
        law_some_source_is_found(hits, input.target);
        if best_source(hits, input.target) is Some {
            let source = best_source(hits, input.target).unwrap();
            assert(is_best_source(hits, input.target, source));
            assert(peers.contains(source));
        }
        if exists|w: WorkerWithDpRank| #[trigger] hits.contains_key(w) && w != input.target {
            let w = choose|w: WorkerWithDpRank| #[trigger]
                hits.contains_key(w) && w != input.target;
            assert(peers.contains(w));
        } else {
            assert(peers =~= Set::<WorkerWithDpRank>::empty());
        }
    }
}

/// Every outcome counts the workers that matched something on their device.
pub proof fn law_device_holders_are_counted(
    input: RemoteKvReuseSelectionInput<'_>,
    decision: RemoteKvReuseDecision,
)
    requires
        input.decides(decision),
    ensures
        ({
            let scores = input.tiered_matches.device.overlap_scores.scores@;
            let stats = match decision {
                RemoteKvReuseDecision::Candidate { stats, .. } => stats,
                RemoteKvReuseDecision::Plan { stats, .. } => stats,
                RemoteKvReuseDecision::NoPlan { stats, .. } => stats,
            };
            stats.rejected_g1_candidates == scores.dom().filter(
                |w: WorkerWithDpRank| scores[w] != 0,
            ).len() % 0x1_0000_0000
        }),
{
    let scores = input.tiered_matches.device.overlap_scores.scores@;
    assert(device_holders(scores) =~= scores.dom().filter(|w: WorkerWithDpRank| scores[w] != 0));
}

/// One more worker with a device match raises the count by one, one that matched
/// nothing leaves it, and the count says nothing else of the scores.
pub proof fn law_device_holder_counts_once(
    input: RemoteKvReuseSelectionInput<'_>,
    decision: RemoteKvReuseDecision,
    other: RemoteKvReuseSelectionInput<'_>,
    other_decision: RemoteKvReuseDecision,
    worker: WorkerWithDpRank,
    score: u32,
)
    requires
        input.decides(decision),
        other.decides(other_decision),
        !input.tiered_matches.device.overlap_scores.scores@.contains_key(worker),
        other.tiered_matches.device.overlap_scores.scores@
            == input.tiered_matches.device.overlap_scores.scores@.insert(worker, score),
    ensures
        ({
            let stats = match decision {
                RemoteKvReuseDecision::Candidate { stats, .. } => stats,
                RemoteKvReuseDecision::Plan { stats, .. } => stats,
                RemoteKvReuseDecision::NoPlan { stats, .. } => stats,
            };
            let other_stats = match other_decision {
                RemoteKvReuseDecision::Candidate { stats, .. } => stats,
                RemoteKvReuseDecision::Plan { stats, .. } => stats,
                RemoteKvReuseDecision::NoPlan { stats, .. } => stats,
            };
            &&& score == 0 ==> other_stats == stats
            &&& score > 0 ==> other_stats.rejected_g1_candidates == (stats.rejected_g1_candidates
                + 1) % 0x1_0000_0000
        }),
{
    let scores = input.tiered_matches.device.overlap_scores.scores;
    let more = other.tiered_matches.device.overlap_scores.scores@;
    scores.lemma_domain_is_finite();
    vstd::set_lib::lemma_set_subset_finite(scores@.dom(), device_holders(scores@));
    if score > 0 {
        assert(device_holders(more) =~= device_holders(scores@).insert(worker));
    } else {
        assert(device_holders(more) =~= device_holders(scores@));
    }
}

/// What other workers hold on their devices, and how the request is called,
/// does not change what is pulled from whom.
pub proof fn law_only_the_targets_device_match_matters(
    input: RemoteKvReuseSelectionInput<'_>,
    decision: RemoteKvReuseDecision,
    other: RemoteKvReuseSelectionInput<'_>,
    other_decision: RemoteKvReuseDecision,
)
    requires
        input.decides(decision),
        other.decides(other_decision),
        input.target == other.target,
        input.block_hashes@ == other.block_hashes@,
        input.tiered_matches.lower_tier@ == other.tiered_matches.lower_tier@,
        input.tiered_matches.device.overlap_scores.scores@.get(input.target)
            == other.tiered_matches.device.overlap_scores.scores@.get(input.target),
    ensures
        decision is Candidate <==> other_decision is Candidate,
        decision is NoPlan ==> other_decision is NoPlan && decision->reason
            == other_decision->reason,
        decision is Candidate ==> {
            let one = decision->candidate;
            let two = other_decision->candidate;
            &&& one.source == two.source
            &&& one.start_block_index == two.start_block_index
            &&& one.routing_block_hashes@ == two.routing_block_hashes@
        },
{
    let scores = input.tiered_matches.device.overlap_scores.scores@;
    let other_scores = other.tiered_matches.device.overlap_scores.scores@;
    assert(scores.contains_key(input.target) == other_scores.contains_key(input.target));
    assert(input.selection() == other.selection());
}

} // verus!
