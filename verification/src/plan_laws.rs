//! What holds of remote reuse selections as a whole.

use vstd::prelude::*;

use crate::indexer::laws::{law_anchor_leads_to_counted_chain, law_peer_sees_chain_from_root};
use crate::indexer::lower_tier::{
    chain, suffix, Edges, LowerTierContinuation, LowerTierMatchView,
};
use crate::indexer::lower_tier_indexers::tier_matches;
use crate::protocols::{LocalBlockHash, WorkerWithDpRank};
use crate::remote_g2_plan::{
    best_source, has_peer, is_best_source, low_32_bits, selection, source_start,
    target_device_match, window_len, window_start, RemoteKvReuseNoPlanReason,
};

verus! {

/// A best source exists exactly if some peer of the target holds blocks.
pub proof fn law_some_source_is_found(
    hits: Map<WorkerWithDpRank, usize>,
    target: WorkerWithDpRank,
)
    requires
        hits.dom().finite(),
    ensures
        best_source(hits, target) is Some <==> exists|w: WorkerWithDpRank| #[trigger]
            hits.contains_key(w) && w != target && hits[w] > 0,
    decreases hits.dom().len(),
{
    if exists|w: WorkerWithDpRank| #[trigger]
        hits.contains_key(w) && w != target && hits[w] > 0 {
        let one = choose|w: WorkerWithDpRank| #[trigger]
            hits.contains_key(w) && w != target && hits[w] > 0;
        let rest = hits.remove(one);
        law_some_source_is_found(rest, target);
        if best_source(rest, target) is Some {
            let other = best_source(rest, target).unwrap();
            assert(is_best_source(rest, target, other));
            let best = if hits[one] > hits[other] || (hits[one] == hits[other] && one.precedes(
                other,
            )) {
                one
            } else {
                other
            };
            assert forall|w: WorkerWithDpRank| #[trigger] hits.contains_key(w) && w
                != target implies hits[w] < hits[best] || (hits[w] == hits[best] && !w.precedes(
                best,
            )) by {
                if w != one {
                    assert(rest.contains_key(w));
                }
            }
            assert(is_best_source(hits, target, best));
        } else {
            assert forall|w: WorkerWithDpRank| #[trigger] hits.contains_key(w) && w
                != target implies hits[w] < hits[one] || (hits[w] == hits[one] && !w.precedes(
                one,
            )) by {
                if w != one {
                    assert(rest.contains_key(w));
                }
            }
            assert(is_best_source(hits, target, one));
        }
    }
}

/// The source is a peer of the target, never the target itself, and no peer
/// has more blocks to offer; of those with as many none comes before it.
pub proof fn law_source_is_the_best_peer(
    scores: Map<WorkerWithDpRank, u32>,
    matches: LowerTierMatchView,
    target: WorkerWithDpRank,
    request_blocks: int,
    peer: WorkerWithDpRank,
)
    requires
        selection(scores, Some(matches), target, request_blocks) is Pull,
        matches.cross_worker_hits.contains_key(peer),
        peer != target,
    ensures
        ({
            let hits = matches.cross_worker_hits;
            let source = selection(scores, Some(matches), target, request_blocks)->source;
            &&& source != target
            &&& hits.contains_key(source)
            &&& hits[source] >= hits[peer]
            &&& hits[source] == hits[peer] && peer != source ==> source.precedes(peer)
        }),
{
    let source = selection(scores, Some(matches), target, request_blocks)->source;
    assert(is_best_source(matches.cross_worker_hits, target, source));
}

/// There is no peer to pull from exactly if the host-pinned tier has no index
/// or knows no worker but the target.
pub proof fn law_no_peer_reason(
    scores: Map<WorkerWithDpRank, u32>,
    host_pinned: Option<LowerTierMatchView>,
    target: WorkerWithDpRank,
    request_blocks: int,
)
    ensures
        selection(scores, host_pinned, target, request_blocks) is NoPeer <==> (match host_pinned {
            None => true,
            Some(matches) => !has_peer(matches.cross_worker_hits, target),
        }),
{
    if host_pinned is Some {
        let hits = host_pinned->0.cross_worker_hits;
        if best_source(hits, target) is Some {
            let source = best_source(hits, target).unwrap();
            assert(is_best_source(hits, target, source));
        }
    }
}

/// The window is a run of the request's blocks that starts behind what the
/// target holds on its device, and consists of blocks that the source is
/// counted for.
pub proof fn law_window_is_needed_and_offered(
    scores: Map<WorkerWithDpRank, u32>,
    matches: LowerTierMatchView,
    target: WorkerWithDpRank,
    request_blocks: int,
)
    requires
        0 <= request_blocks,
        selection(scores, Some(matches), target, request_blocks) is Pull,
    ensures
        ({
            let pull = selection(scores, Some(matches), target, request_blocks);
            let hits = matches.cross_worker_hits[pull->source] as int;
            let from = source_start(
                matches.cross_worker_anchors,
                matches.next_continuations,
                pull->source,
                hits,
            );
            &&& 0 < pull->blocks
            &&& target_device_match(scores, target) <= pull->start
            &&& from <= pull->start
            &&& pull->start + pull->blocks <= from + hits
            &&& pull->start + pull->blocks <= request_blocks
        }),
{
    let pull = selection(scores, Some(matches), target, request_blocks);
    let hits = matches.cross_worker_hits[pull->source] as int;
    let from = source_start(
                matches.cross_worker_anchors,
                matches.next_continuations,
                pull->source,
                hits,
            );
    let len = window_len(pull->start, from, hits, request_blocks);
    assert(0 <= len % 0x1_0000_0000 <= len);
}

/// For requests that 32 bits can count, the window leaves nothing out: it ends
/// where the source's blocks or the request end.
pub proof fn law_window_is_as_long_as_possible(
    scores: Map<WorkerWithDpRank, u32>,
    matches: LowerTierMatchView,
    target: WorkerWithDpRank,
    request_blocks: int,
)
    requires
        0 <= request_blocks < 0x1_0000_0000,
        selection(scores, Some(matches), target, request_blocks) is Pull,
    ensures
        ({
            let pull = selection(scores, Some(matches), target, request_blocks);
            let hits = matches.cross_worker_hits[pull->source] as int;
            let from = source_start(
                matches.cross_worker_anchors,
                matches.next_continuations,
                pull->source,
                hits,
            );
            let end = pull->start + pull->blocks;
            end == from + hits || end == request_blocks
        }),
{
}

/// Device matches of other workers than the target do not change what is pulled.
pub proof fn law_device_matches_of_peers_do_not_matter(
    one: Map<WorkerWithDpRank, u32>,
    other: Map<WorkerWithDpRank, u32>,
    host_pinned: Option<LowerTierMatchView>,
    target: WorkerWithDpRank,
    request_blocks: int,
)
    requires
        one.get(target) == other.get(target),
    ensures
        selection(one, host_pinned, target, request_blocks) == selection(
            other,
            host_pinned,
            target,
            request_blocks,
        ),
{
    assert(target_device_match(one, target) == target_device_match(other, target));
}

/// The source holds the whole window: when the matches come from a walk of the
/// host-pinned tier, the window lies within the chain behind the source's
/// anchor, and walking that chain reaches every block of it, wherever the
/// source's own match stands.
pub proof fn law_source_holds_the_window(
    edges: Edges,
    sequence: Seq<LocalBlockHash>,
    continuations: Map<WorkerWithDpRank, LowerTierContinuation>,
    scores: Map<WorkerWithDpRank, u32>,
    target: WorkerWithDpRank,
)
    requires
        sequence.len() <= usize::MAX,
        ({
            let matches = tier_matches(edges, sequence, continuations);
            let pull = selection(scores, Some(matches), target, sequence.len() as int);
            pull is Pull
        }),
    ensures
        ({
            let matches = tier_matches(edges, sequence, continuations);
            let pull = selection(scores, Some(matches), target, sequence.len() as int);
            let anchor = matches.cross_worker_anchors[pull->source];
            let held = chain(
                edges,
                pull->source,
                anchor.parent_hash,
                suffix(sequence, anchor.start_pos as int),
            );
            &&& anchor.start_pos <= pull->start
            &&& pull->start + pull->blocks <= anchor.start_pos + held.len()
        }),
{
    let matches = tier_matches(edges, sequence, continuations);
    let pull = selection(scores, Some(matches), target, sequence.len() as int);
    let source = pull->source;
    assert(is_best_source(matches.cross_worker_hits, target, source));
    law_window_is_needed_and_offered(scores, matches, target, sequence.len() as int);
    law_anchor_leads_to_counted_chain(edges, sequence, continuations, source);
}

/// What the source holds on its device does not move the window off a chain
/// that starts at the root: where the source's host-pinned chain from the root
/// is at least as long as what extends its own match, that chain alone places
/// and sizes the window, whatever the continuations were.
pub proof fn law_chain_from_root_places_the_window(
    edges: Edges,
    sequence: Seq<LocalBlockHash>,
    continuations: Map<WorkerWithDpRank, LowerTierContinuation>,
    scores: Map<WorkerWithDpRank, u32>,
    target: WorkerWithDpRank,
)
    requires
        sequence.len() <= usize::MAX,
        ({
            let matches = tier_matches(edges, sequence, continuations);
            let pull = selection(scores, Some(matches), target, sequence.len() as int);
            let from_root = chain(edges, pull->source, None, sequence).len();
            &&& pull is Pull
            &&& 0 < from_root
            &&& matches.hits[pull->source] <= from_root
        }),
    ensures
        ({
            let matches = tier_matches(edges, sequence, continuations);
            let pull = selection(scores, Some(matches), target, sequence.len() as int);
            let from_root = chain(edges, pull->source, None, sequence).len() as int;
            let blocks = sequence.len() as int;
            &&& pull->start == window_start(target_device_match(scores, target), 0, blocks)
            &&& pull->blocks == low_32_bits(window_len(pull->start, 0, from_root, blocks))
        }),
{
    let matches = tier_matches(edges, sequence, continuations);
    let pull = selection(scores, Some(matches), target, sequence.len() as int);
    law_peer_sees_chain_from_root(edges, sequence, continuations, pull->source);
}

/// Distinct reasons have distinct names.
pub proof fn law_reason_names_are_distinct(
    one: RemoteKvReuseNoPlanReason,
    other: RemoteKvReuseNoPlanReason,
)
    requires
        one.label() == other.label(),
    ensures
        one == other,
{
    reveal_strlit("disabled");
    reveal_strlit("no_remote_g2_candidate");
    reveal_strlit("no_contiguous_prefix");
    reveal_strlit("source_is_target");
    reveal_strlit("no_source_control_endpoint");
    reveal_strlit("incompatible_block_size");
    reveal_strlit("serialization_failed");
    assert(one.label().len() == other.label().len());
    assert("disabled"@.len() == 8);
    assert("no_remote_g2_candidate"@.len() == 22);
    assert("no_contiguous_prefix"@.len() == 20);
    assert("source_is_target"@.len() == 16);
    assert("no_source_control_endpoint"@.len() == 26);
    assert("incompatible_block_size"@.len() == 23);
    assert("serialization_failed"@.len() == 20);
    assert("no_contiguous_prefix"@[0] == 'n');
    assert("serialization_failed"@[0] == 's');
}

} // verus!
