//! Deciding whether a worker should pull a prefix from a peer.
//!
//! A target worker that is about to serve a request may load part of the
//! request's prefix from another worker's host-pinned memory (G2) instead of
//! computing it. Blocks on another worker's device (G1) cannot be pulled; they
//! are only counted.

use vstd::prelude::*;

use crate::indexer::anchor_map::CrossWorkerAnchor;
use crate::indexer::lower_tier::{LowerTierContinuation, LowerTierMatchView};
use crate::indexer::TieredMatchDetails;
use crate::listing::lists;
use crate::protocols::{ExternalSequenceBlockHash, LocalBlockHash, StorageTier, WorkerWithDpRank};
use crate::worker_map::WorkerMap;

verus! {

/// Key under which a plan travels in a request's extra arguments.
pub const REMOTE_KV_REUSE_PLAN_EXTRA_ARGS_KEY: &'static str = "remote_kv_reuse_plan";

/// Key under which the reason for having no plan travels there.
pub const REMOTE_KV_REUSE_NO_PLAN_REASON_EXTRA_ARGS_KEY: &'static str = "remote_kv_reuse_no_plan_reason";

/// What a target needs to know to pull blocks from a source.
#[derive(Debug, Clone, PartialEq, Eq)]
pub struct RemoteKvReusePlan {
    pub request_id: String,
    pub source_control_endpoint: String,
    /// The blocks to pull, as the source names them. They are parallel to the
    /// request's blocks from `start_block_index` on.
    pub block_hashes: Vec<ExternalSequenceBlockHash>,
    /// Position in the request's prefix of the first block to pull.
    pub start_block_index: u32,
}

/// A source to pull from, and the window of the request's blocks to pull.
#[derive(Debug, Clone, PartialEq, Eq)]
pub struct RemoteKvReuseCandidate {
    pub request_id: String,
    pub source: WorkerWithDpRank,
    pub routing_block_hashes: Vec<LocalBlockHash>,
    pub start_block_index: u32,
}

/// Why there is no plan.
#[derive(Debug, Clone, PartialEq, Eq, Structural)]
pub enum RemoteKvReuseNoPlanReason {
    Disabled,
    NoRemoteG2Candidate,
    NoContiguousPrefix,
    SourceIsTarget,
    NoSourceControlEndpoint,
    IncompatibleBlockSize,
    SerializationFailed,
}

impl RemoteKvReuseNoPlanReason {
    /// The reason's name in snake case.
    pub open spec fn label(self) -> Seq<char> {
        match self {
            RemoteKvReuseNoPlanReason::Disabled => "disabled"@,
            RemoteKvReuseNoPlanReason::NoRemoteG2Candidate => "no_remote_g2_candidate"@,
            RemoteKvReuseNoPlanReason::NoContiguousPrefix => "no_contiguous_prefix"@,
            RemoteKvReuseNoPlanReason::SourceIsTarget => "source_is_target"@,
            RemoteKvReuseNoPlanReason::NoSourceControlEndpoint => "no_source_control_endpoint"@,
            RemoteKvReuseNoPlanReason::IncompatibleBlockSize => "incompatible_block_size"@,
            RemoteKvReuseNoPlanReason::SerializationFailed => "serialization_failed"@,
        }
    }

    pub fn as_str(&self) -> (name: &'static str)
        ensures
            name@ == self.label(),
    {
        match self {
            RemoteKvReuseNoPlanReason::Disabled => "disabled",
            RemoteKvReuseNoPlanReason::NoRemoteG2Candidate => "no_remote_g2_candidate",
            RemoteKvReuseNoPlanReason::NoContiguousPrefix => "no_contiguous_prefix",
            RemoteKvReuseNoPlanReason::SourceIsTarget => "source_is_target",
            RemoteKvReuseNoPlanReason::NoSourceControlEndpoint => "no_source_control_endpoint",
            RemoteKvReuseNoPlanReason::IncompatibleBlockSize => "incompatible_block_size",
            RemoteKvReuseNoPlanReason::SerializationFailed => "serialization_failed",
        }
    }
}

/// A request, the worker that is to serve it, and how it matched.
pub struct RemoteKvReuseSelectionInput<'a> {
    pub request_id: &'a str,
    pub target: WorkerWithDpRank,
    pub block_hashes: &'a [LocalBlockHash],
    pub tiered_matches: &'a TieredMatchDetails,
}

/// What was passed over while a source was selected.
#[derive(Debug, Clone, Copy, Default, PartialEq, Eq, Structural)]
pub struct RemoteKvReuseSelectionStats {
    /// Workers that hold a part of the prefix on their device.
    pub rejected_g1_candidates: u32,
}

/// The outcome for one request.
#[derive(Debug, Clone, PartialEq, Eq)]
pub enum RemoteKvReuseDecision {
    Candidate { candidate: RemoteKvReuseCandidate, stats: RemoteKvReuseSelectionStats },
    Plan { plan: RemoteKvReusePlan, stats: RemoteKvReuseSelectionStats },
    NoPlan { reason: RemoteKvReuseNoPlanReason, stats: RemoteKvReuseSelectionStats },
}

/// Counts are kept in 32 bits.
pub open spec fn low_32_bits(n: int) -> int {
    n % 0x1_0000_0000
}

/// The workers that hold a part of the prefix on their device.
pub open spec fn device_holders(scores: Map<WorkerWithDpRank, u32>) -> Set<WorkerWithDpRank> {
    Set::new(|w: WorkerWithDpRank| scores.contains_key(w) && scores[w] > 0)
}

/// Some worker other than the target is known to the tier.
pub open spec fn has_peer(
    hits: Map<WorkerWithDpRank, usize>,
    target: WorkerWithDpRank,
) -> bool {
    exists|w: WorkerWithDpRank| #[trigger] hits.contains_key(w) && w != target
}

/// `source` is a peer of the target that holds blocks, and no peer holds more;
/// of those that hold as many it comes first by worker, then by rank.
pub open spec fn is_best_source(
    hits: Map<WorkerWithDpRank, usize>,
    target: WorkerWithDpRank,
    source: WorkerWithDpRank,
) -> bool {
    &&& hits.contains_key(source)
    &&& source != target
    &&& hits[source] > 0
    &&& forall|w: WorkerWithDpRank| #[trigger]
        hits.contains_key(w) && w != target ==> hits[w] < hits[source] || (hits[w] == hits[source]
            && !w.precedes(source))
}

/// The best source, if any peer holds blocks.
pub open spec fn best_source(
    hits: Map<WorkerWithDpRank, usize>,
    target: WorkerWithDpRank,
) -> Option<WorkerWithDpRank> {
    if exists|s: WorkerWithDpRank| is_best_source(hits, target, s) {
        Some(choose|s: WorkerWithDpRank| is_best_source(hits, target, s))
    } else {
        None
    }
}

/// How many leading blocks the target holds on its device.
pub open spec fn target_device_match(
    scores: Map<WorkerWithDpRank, u32>,
    target: WorkerWithDpRank,
) -> int {
    if scores.contains_key(target) {
        scores[target] as int
    } else {
        0
    }
}

/// The position at which the `hits` host-pinned blocks of `source` start: the
/// anchor of the chain that was counted. Without a recorded anchor the start is
/// `hits` positions before where the source's match stands, but not before the
/// request starts.
pub open spec fn source_start(
    anchors: Map<WorkerWithDpRank, CrossWorkerAnchor>,
    next_continuations: Map<WorkerWithDpRank, LowerTierContinuation>,
    source: WorkerWithDpRank,
    hits: int,
) -> int {
    if anchors.contains_key(source) {
        anchors[source].start_pos as int
    } else if next_continuations.contains_key(source) && next_continuations[source].start_pos
        >= hits {
        next_continuations[source].start_pos - hits
    } else {
        0
    }
}

/// Where the window starts: behind what the target already holds, at the
/// earliest where the source's blocks start, and within the request.
pub open spec fn window_start(target_match: int, source_start: int, request_blocks: int) -> int {
    let start = if target_match >= source_start {
        target_match
    } else {
        source_start
    };
    if start <= request_blocks {
        start
    } else {
        request_blocks
    }
}

/// How many of the source's blocks lie in the request from the window's start on.
pub open spec fn window_len(
    start: int,
    source_start: int,
    hits: int,
    request_blocks: int,
) -> int {
    let end = if source_start + hits <= request_blocks {
        source_start + hits
    } else {
        request_blocks
    };
    if start <= end {
        end - start
    } else {
        0
    }
}

/// What there is to pull for a request.
pub enum Selection {
    /// No peer has anything in host-pinned memory.
    NoPeer,
    /// Peers are known, but none has a block that the target needs.
    NothingToPull,
    /// Pull `blocks` blocks from `source`, from position `start` on.
    Pull { source: WorkerWithDpRank, start: int, blocks: int },
}

/// What there is to pull for a request of `request_blocks` blocks, given the
/// device match and the host-pinned tier's match, if that tier has one.
pub open spec fn selection(
    scores: Map<WorkerWithDpRank, u32>,
    host_pinned: Option<LowerTierMatchView>,
    target: WorkerWithDpRank,
    request_blocks: int,
) -> Selection {
    match host_pinned {
        None => Selection::NoPeer,
        Some(matches) => match best_source(matches.cross_worker_hits, target) {
            None => if has_peer(matches.cross_worker_hits, target) {
                Selection::NothingToPull
            } else {
                Selection::NoPeer
            },
            Some(source) => {
                let hits = matches.cross_worker_hits[source] as int;
                let from = source_start(
                    matches.cross_worker_anchors,
                    matches.next_continuations,
                    source,
                    hits,
                );
                let start = window_start(
                    target_device_match(scores, target),
                    from,
                    request_blocks,
                );
                let blocks = low_32_bits(window_len(start, from, hits, request_blocks));
                if blocks == 0 {
                    Selection::NothingToPull
                } else {
                    Selection::Pull { source, start, blocks }
                }
            },
        },
    }
}

impl<'a> RemoteKvReuseSelectionInput<'a> {
    /// What the host-pinned tier adds, if it has an index.
    pub open spec fn host_pinned(self) -> Option<LowerTierMatchView> {
        if self.tiered_matches.lower_tier@.contains_key(StorageTier::HostPinned) {
            Some(self.tiered_matches.lower_tier@[StorageTier::HostPinned]@)
        } else {
            None
        }
    }

    /// What there is to pull for this request.
    pub open spec fn selection(self) -> Selection {
        selection(
            self.tiered_matches.device.overlap_scores.scores@,
            self.host_pinned(),
            self.target,
            self.block_hashes@.len() as int,
        )
    }

    /// The statistics that go with the outcome.
    pub open spec fn stats(self) -> RemoteKvReuseSelectionStats {
        RemoteKvReuseSelectionStats {
            rejected_g1_candidates: low_32_bits(
                device_holders(self.tiered_matches.device.overlap_scores.scores@).len() as int,
            ) as u32,
        }
    }

    /// `decision` is the outcome for this request.
    pub open spec fn decides(self, decision: RemoteKvReuseDecision) -> bool {
        match self.selection() {
            Selection::NoPeer => decision == (RemoteKvReuseDecision::NoPlan {
                reason: RemoteKvReuseNoPlanReason::NoRemoteG2Candidate,
                stats: self.stats(),
            }),
            Selection::NothingToPull => decision == (RemoteKvReuseDecision::NoPlan {
                reason: RemoteKvReuseNoPlanReason::NoContiguousPrefix,
                stats: self.stats(),
            }),
            Selection::Pull { source, start, blocks } => {
                &&& decision matches RemoteKvReuseDecision::Candidate { candidate, stats }
                &&& candidate.request_id@ == self.request_id@
                &&& candidate.source == source
                &&& candidate.routing_block_hashes@ == self.block_hashes@.subrange(
                    start,
                    start + blocks,
                )
                &&& candidate.start_block_index == low_32_bits(start)
                &&& stats == self.stats()
            },
        }
    }
}

/// The low 32 bits of a count.
fn truncate(n: usize) -> (low: u32)
    ensures
        low == low_32_bits(n as int),
{
    (n as u64 % 0x1_0000_0000) as u32
}

/// The number of workers that hold a part of the prefix on their device.
fn count_device_holders(scores: &WorkerMap<u32>) -> (count: usize)
    ensures
        count == device_holders(scores@).len(),
{
    let mut count: usize = 0;
    let entries = scores.entries();
    let ghost mut seen = Set::<WorkerWithDpRank>::empty();
    for i in 0..entries.len()
        invariant
            lists(entries@, scores@),
            seen.finite(),
            seen.len() == count,
            count <= i,
            forall|w: WorkerWithDpRank| #[trigger]
                seen.contains(w) <==> exists|k: int|
                    0 <= k < i && (#[trigger] entries@[k]).0 == w && entries@[k].1 > 0,
    {
        let (worker, overlap) = entries[i];
        if overlap > 0 {
            proof {
                assert(!seen.contains(worker));
                assert forall|w: WorkerWithDpRank| #[trigger]
                    seen.insert(worker).contains(w) <==> exists|k: int|
                        0 <= k < i + 1 && (#[trigger] entries@[k]).0 == w && entries@[k].1
                            > 0 by {
                    if w == worker {
                        assert(entries@[i as int].0 == w);
                    }
                }
                seen = seen.insert(worker);
            }
            count = count + 1;
        }
    }
    proof {
        assert forall|w: WorkerWithDpRank| device_holders(scores@).contains(
            w,
        ) implies seen.contains(w) by {
            let k = choose|k: int| 0 <= k < entries@.len() && entries@[k] == (w, scores@[w]);
            assert(entries@[k].0 == w);
        }
        assert(seen =~= device_holders(scores@));
    }
    count
}

/// The outcome of looking through the peers of `target`: whether there are any,
/// and the best source among them.
fn find_source(hits: &WorkerMap<usize>, target: WorkerWithDpRank) -> (found: (
    bool,
    Option<(WorkerWithDpRank, usize)>,
))
    ensures
        found.0 == has_peer(hits@, target),
        match found.1 {
            Some((source, count)) => is_best_source(hits@, target, source) && count
                == hits@[source],
            None => forall|s: WorkerWithDpRank| !is_best_source(hits@, target, s),
        },
{
    let mut saw_peer = false;
    let mut best: Option<(WorkerWithDpRank, usize)> = None;
    let entries = hits.entries();
    for i in 0..entries.len()
        invariant
            lists(entries@, hits@),
            saw_peer <==> exists|k: int| 0 <= k < i && (#[trigger] entries@[k]).0 != target,
            match best {
                None => forall|k: int|
                    0 <= k < i ==> (#[trigger] entries@[k]).0 == target || entries@[k].1 == 0,
                Some((source, count)) => {
                    &&& source != target
                    &&& count > 0
                    &&& hits@.contains_key(source)
                    &&& hits@[source] == count
                    &&& forall|k: int|
                        0 <= k < i && (#[trigger] entries@[k]).0 != target ==> entries@[k].1
                            < count || (entries@[k].1 == count && !entries@[k].0.precedes(source))
                },
            },
    {
        let (worker, count) = entries[i];
        if worker != target {
            assert(entries@[i as int].0 != target);
            saw_peer = true;
            if count > 0 {
                let better = match best {
                    None => true,
                    Some((best_worker, best_count)) => count > best_count || (count == best_count
                        && worker.is_before(&best_worker)),
                };
                if better {
                    best = Some((worker, count));
                }
            }
        }
    }
    proof {
        assert forall|w: WorkerWithDpRank| #[trigger] hits@.contains_key(w) implies exists|k: int|
            0 <= k < entries@.len() && #[trigger] entries@[k] == (w, hits@[w]) by {
            assert(entries@.contains((w, hits@[w])));
        }
    }
    (saw_peer, best)
}

/// At most one worker is the best source.
pub proof fn lemma_best_source_is_unique(
    hits: Map<WorkerWithDpRank, usize>,
    target: WorkerWithDpRank,
    first: WorkerWithDpRank,
    second: WorkerWithDpRank,
)
    requires
        is_best_source(hits, target, first),
        is_best_source(hits, target, second),
    ensures
        first == second,
{
    assert(hits.contains_key(first) && hits.contains_key(second));
}

/// Selects the peer to pull a prefix from, and the window of the request's
/// blocks to pull.
///
/// The source is the peer with the most host-pinned blocks; ties go to the
/// lower worker, then to the lower rank. A peer is any other pair of worker and
/// rank, also another rank of the target's own worker. The window starts where
/// the target's own device match ends: it serves what lies before from its own
/// cache. Where the source's host-pinned chain starts later, at the anchor that
/// was recorded for it, the window starts there. What the source still holds on
/// its device does not move a window whose anchor is recorded.
pub fn select_remote_g2_reuse_plan(input: RemoteKvReuseSelectionInput<'_>) -> (decision:
    RemoteKvReuseDecision)
    ensures
        input.decides(decision),
{
    let scores = &input.tiered_matches.device.overlap_scores.scores;
    let stats = RemoteKvReuseSelectionStats {
        rejected_g1_candidates: truncate(count_device_holders(scores)),
    };
    let host_pinned = match input.tiered_matches.lower_tier.get(StorageTier::HostPinned) {
        Some(matches) => matches,
        None => {
            return RemoteKvReuseDecision::NoPlan {
                reason: RemoteKvReuseNoPlanReason::NoRemoteG2Candidate,
                stats,
            };
        },
    };
    let (saw_peer, best) = find_source(&host_pinned.cross_worker_hits, input.target);
    let (source, hits) = match best {
        Some(best) => best,
        None => {
            return RemoteKvReuseDecision::NoPlan {
                reason: if saw_peer {
                    RemoteKvReuseNoPlanReason::NoContiguousPrefix
                } else {
                    RemoteKvReuseNoPlanReason::NoRemoteG2Candidate
                },
                stats,
            };
        },
    };
    proof {
        let chosen = best_source(host_pinned.cross_worker_hits@, input.target);
        lemma_best_source_is_unique(
            host_pinned.cross_worker_hits@,
            input.target,
            source,
            chosen.unwrap(),
        );
    }
    let target_match: usize = match scores.get(input.target) {
        Some(blocks) => blocks as usize,
        None => 0,
    };
    let source_hp_start: usize = match host_pinned.cross_worker_anchors.get(source) {
        Some(anchor) => anchor.start_pos,
        None => match host_pinned.next_continuations.get(source) {
            Some(next) => next.start_pos.saturating_sub(hits),
            None => 0,
        },
    };
    let request_blocks = input.block_hashes.len();
    let latest_start: usize = if target_match >= source_hp_start {
        target_match
    } else {
        source_hp_start
    };
    let start: usize = if latest_start <= request_blocks {
        latest_start
    } else {
        request_blocks
    };
    let source_hp_end: usize = source_hp_start.saturating_add(hits);
    let useful: usize = if source_hp_end >= start {
        source_hp_end - start
    } else {
        0
    };
    let available: usize = request_blocks - start;
    let planned_blocks = truncate(
        if useful <= available {
            useful
        } else {
            available
        },
    );
    if planned_blocks == 0 {
        return RemoteKvReuseDecision::NoPlan {
            reason: RemoteKvReuseNoPlanReason::NoContiguousPrefix,
            stats,
        };
    }
    let end: usize = start + planned_blocks as usize;
    RemoteKvReuseDecision::Candidate {
        candidate: RemoteKvReuseCandidate {
            request_id: input.request_id.to_string(),
            source,
            routing_block_hashes: vstd::slice::slice_to_vec(
                vstd::slice::slice_subrange(input.block_hashes, start, end),
            ),
            start_block_index: truncate(start),
        },
        stats,
    }
}

} // verus!
