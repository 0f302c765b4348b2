//! What holds of the indexes and of the walk through them as a whole.

use vstd::prelude::*;

use super::anchor_map::CrossWorkerAnchor;
use super::lower_tier::{
    advanced, chain, extension, lemma_chain_len, stored, suffix, Edges, LowerTierContinuation,
    LowerTierIndexer, LowerTierMatchView,
};
use super::lower_tier_indexers::{
    continuations_below, lower_tier_matches, match_views, query_order, root, root_holders, seeds,
    tier_matches, tiers_above, with_roots, LowerTierIndexers,
};
use super::match_details::TieredMatchDetails;
use super::thread_pool::ThreadPoolIndexer;
use super::wire::WireTieredMatchDetails;
use crate::listing::{
    from_pairs, lemma_from_pairs_keys, lemma_last_pair_stays, lemma_listing_gives_map_back,
};
use crate::protocols::{
    ExternalSequenceBlockHash, KvCacheStoredBlockData, LocalBlockHash, StorageTier,
    WorkerWithDpRank,
};

verus! {

/// The external hashes of `blocks`.
pub open spec fn block_hashes(blocks: Seq<KvCacheStoredBlockData>) -> Seq<
    ExternalSequenceBlockHash,
> {
    blocks.map_values(|block: KvCacheStoredBlockData| block.block_hash)
}

/// The local hashes of `blocks`.
pub open spec fn tokens_hashes(blocks: Seq<KvCacheStoredBlockData>) -> Seq<LocalBlockHash> {
    blocks.map_values(|block: KvCacheStoredBlockData| block.tokens_hash)
}

/// Matching a shorter run gives the front of the longer chain.
proof fn lemma_chain_of_prefix(
    edges: Edges,
    worker: WorkerWithDpRank,
    parent: Option<ExternalSequenceBlockHash>,
    locals: Seq<LocalBlockHash>,
    n: int,
)
    requires
        0 <= n <= locals.len(),
    ensures
        n <= chain(edges, worker, parent, locals).len() ==> chain(
            edges,
            worker,
            parent,
            locals.take(n),
        ) == chain(edges, worker, parent, locals).take(n),
    decreases n,
{
    let full = chain(edges, worker, parent, locals);
    if 0 < n <= full.len() {
        let block = edges[(worker, parent, locals[0])];
        lemma_chain_of_prefix(edges, worker, Some(block), locals.drop_first(), n - 1);
        assert(locals.take(n).drop_first() =~= locals.drop_first().take(n - 1));
        assert(locals.take(n)[0] == locals[0]);
        assert(full.take(n) =~= seq![block] + chain(
            edges,
            worker,
            Some(block),
            locals.drop_first(),
        ).take(n - 1));
    } else if n == 0 {
        assert(chain(edges, worker, parent, locals.take(0)) =~= full.take(0));
    }
}

/// Storing blocks leaves every edge alone that is another worker's, or that
/// hangs off none of the blocks nor off what they hang off.
proof fn lemma_stored_keeps(
    edges: Edges,
    worker: WorkerWithDpRank,
    parent: Option<ExternalSequenceBlockHash>,
    blocks: Seq<KvCacheStoredBlockData>,
    other: WorkerWithDpRank,
    behind: Option<ExternalSequenceBlockHash>,
    local: LocalBlockHash,
)
    requires
        other != worker || (behind != parent && forall|i: int|
            0 <= i < blocks.len() ==> behind != Some((#[trigger] blocks[i]).block_hash)),
    ensures
        stored(edges, worker, parent, blocks).get((other, behind, local)) == edges.get(
            (other, behind, local),
        ),
    decreases blocks.len(),
{
    if blocks.len() > 0 {
        let rest = blocks.drop_first();
        assert forall|i: int| 0 <= i < rest.len() implies rest[i] == blocks[i + 1] by {}
        lemma_stored_keeps(
            edges.insert((worker, parent, blocks[0].tokens_hash), blocks[0].block_hash),
            worker,
            Some(blocks[0].block_hash),
            rest,
            other,
            behind,
            local,
        );
    }
}

/// What a worker stores is found again: along the local hashes of the stored
/// blocks, behind the same parent, its chain is made of the stored blocks. The
/// blocks have distinct names, none of them the parent's.
pub proof fn law_stored_chain_is_found(
    edges: Edges,
    worker: WorkerWithDpRank,
    parent: Option<ExternalSequenceBlockHash>,
    blocks: Seq<KvCacheStoredBlockData>,
)
    requires
        block_hashes(blocks).no_duplicates(),
        forall|i: int|
            0 <= i < blocks.len() ==> parent != Some((#[trigger] blocks[i]).block_hash),
    ensures
        chain(stored(edges, worker, parent, blocks), worker, parent, tokens_hashes(blocks))
            == block_hashes(blocks),
    decreases blocks.len(),
{
    let after = stored(edges, worker, parent, blocks);
    if blocks.len() > 0 {
        let first = blocks[0];
        let rest = blocks.drop_first();
        let with_first = edges.insert((worker, parent, first.tokens_hash), first.block_hash);
        assert forall|i: int| 0 <= i < rest.len() implies rest[i] == blocks[i + 1]
            && block_hashes(blocks)[i + 1] == rest[i].block_hash by {}
        assert(block_hashes(blocks)[0] == first.block_hash);
        assert(block_hashes(rest) =~= block_hashes(blocks).drop_first());
        assert forall|i: int| 0 <= i < rest.len() implies Some(first.block_hash) != Some(
            (#[trigger] rest[i]).block_hash,
        ) by {
            assert(block_hashes(blocks)[0] != block_hashes(blocks)[i + 1]);
        }
        law_stored_chain_is_found(with_first, worker, Some(first.block_hash), rest);
        lemma_stored_keeps(
            with_first,
            worker,
            Some(first.block_hash),
            rest,
            worker,
            parent,
            first.tokens_hash,
        );
        assert(with_first.contains_key((worker, parent, first.tokens_hash)));
        assert(after.get((worker, parent, first.tokens_hash)) == Some(first.block_hash));
        assert(tokens_hashes(blocks)[0] == first.tokens_hash);
        assert(tokens_hashes(blocks).drop_first() =~= tokens_hashes(rest));
        assert(block_hashes(blocks) =~= seq![first.block_hash] + block_hashes(rest));
    } else {
        assert(chain(after, worker, parent, tokens_hashes(blocks)) =~= block_hashes(blocks));
    }
}

/// What one worker stores changes no other worker's chains.
pub proof fn law_storing_leaves_other_workers_alone(
    edges: Edges,
    worker: WorkerWithDpRank,
    parent: Option<ExternalSequenceBlockHash>,
    blocks: Seq<KvCacheStoredBlockData>,
    other: WorkerWithDpRank,
    behind: Option<ExternalSequenceBlockHash>,
    locals: Seq<LocalBlockHash>,
)
    requires
        other != worker,
    ensures
        chain(stored(edges, worker, parent, blocks), other, behind, locals) == chain(
            edges,
            other,
            behind,
            locals,
        ),
    decreases locals.len(),
{
    let after = stored(edges, worker, parent, blocks);
    if locals.len() > 0 {
        lemma_stored_keeps(edges, worker, parent, blocks, other, behind, locals[0]);
        let key = (other, behind, locals[0]);
        assert(after.contains_key(key) == edges.contains_key(key));
        if edges.contains_key(key) {
            assert(after[key] == edges[key]);
            law_storing_leaves_other_workers_alone(
                edges,
                worker,
                parent,
                blocks,
                other,
                Some(edges[key]),
                locals.drop_first(),
            );
        }
    }
}

/// A tier answers for the same workers in all four maps: for those whose match
/// it was handed, and for those that it knows from the root.
pub proof fn law_tier_answers_for_every_worker(
    edges: Edges,
    sequence: Seq<LocalBlockHash>,
    continuations: Map<WorkerWithDpRank, LowerTierContinuation>,
    worker: WorkerWithDpRank,
)
    ensures
        ({
            let matches = tier_matches(edges, sequence, continuations);
            let known = continuations.contains_key(worker) || root_holders(
                edges,
                sequence,
            ).contains(worker);
            &&& matches.hits.contains_key(worker) <==> known
            &&& matches.cross_worker_hits.contains_key(worker) <==> known
            &&& matches.cross_worker_anchors.contains_key(worker) <==> known
            &&& matches.next_continuations.contains_key(worker) <==> known
        }),
{
}

/// Walking from the recorded anchor gives the counted chain: its length is the
/// cross-worker hit count.
pub proof fn law_anchor_leads_to_counted_chain(
    edges: Edges,
    sequence: Seq<LocalBlockHash>,
    continuations: Map<WorkerWithDpRank, LowerTierContinuation>,
    worker: WorkerWithDpRank,
)
    requires
        sequence.len() <= usize::MAX,
        tier_matches(edges, sequence, continuations).cross_worker_hits.contains_key(worker),
    ensures
        ({
            let matches = tier_matches(edges, sequence, continuations);
            let anchor = matches.cross_worker_anchors[worker];
            chain(
                edges,
                worker,
                anchor.parent_hash,
                suffix(sequence, anchor.start_pos as int),
            ).len() == matches.cross_worker_hits[worker]
        }),
{
    let holders = root_holders(edges, sequence);
    let starts = with_roots(continuations, holders);
    lemma_extension_fits(edges, sequence, worker, starts[worker]);
    lemma_extension_fits(edges, sequence, worker, root());
}

/// An extension ends within the request or adds nothing.
proof fn lemma_extension_fits(
    edges: Edges,
    sequence: Seq<LocalBlockHash>,
    worker: WorkerWithDpRank,
    from: LowerTierContinuation,
)
    ensures
        extension(edges, sequence, worker, from).len() <= sequence.len(),
        from.start_pos <= sequence.len() ==> from.start_pos + extension(
            edges,
            sequence,
            worker,
            from,
        ).len() <= sequence.len(),
        from.start_pos > sequence.len() ==> extension(edges, sequence, worker, from).len() == 0,
{
    lemma_chain_len(
        edges,
        worker,
        from.last_matched_hash,
        suffix(sequence, from.start_pos as int),
    );
}

/// Any window of the counted chain can be materialized: walking from the anchor
/// to the window's end and dropping what lies before its start gives one block
/// for each position of the window, and these are the blocks of the counted chain.
pub proof fn law_window_materializes(
    edges: Edges,
    sequence: Seq<LocalBlockHash>,
    continuations: Map<WorkerWithDpRank, LowerTierContinuation>,
    worker: WorkerWithDpRank,
    start: int,
    end: int,
)
    requires
        sequence.len() <= usize::MAX,
        tier_matches(edges, sequence, continuations).cross_worker_hits.contains_key(worker),
        ({
            let matches = tier_matches(edges, sequence, continuations);
            let anchor = matches.cross_worker_anchors[worker];
            anchor.start_pos <= start <= end <= anchor.start_pos
                + matches.cross_worker_hits[worker]
        }),
        end <= sequence.len(),
    ensures
        ({
            let anchor = tier_matches(
                edges,
                sequence,
                continuations,
            ).cross_worker_anchors[worker];
            let from = anchor.start_pos as int;
            let walked = chain(
                edges,
                worker,
                anchor.parent_hash,
                sequence.subrange(from, end),
            );
            let counted = chain(edges, worker, anchor.parent_hash, suffix(sequence, from));
            &&& walked.skip(start - from).len() == end - start
            &&& walked.skip(start - from) == counted.subrange(start - from, end - from)
        }),
{
    law_anchor_leads_to_counted_chain(edges, sequence, continuations, worker);
    let anchor = tier_matches(edges, sequence, continuations).cross_worker_anchors[worker];
    let from = anchor.start_pos as int;
    let behind = suffix(sequence, from);
    lemma_chain_of_prefix(edges, worker, anchor.parent_hash, behind, end - from);
    assert(behind.take(end - from) =~= sequence.subrange(from, end));
    let counted = chain(edges, worker, anchor.parent_hash, behind);
    assert(counted.take(end - from).skip(start - from) =~= counted.subrange(
        start - from,
        end - from,
    ));
}

/// What a peer sees of a worker never falls short of the worker's chain from
/// the root, wherever the worker's own match stands; and where the two counts
/// are equal or the one from the root is larger, the root is the anchor.
pub proof fn law_peer_sees_chain_from_root(
    edges: Edges,
    sequence: Seq<LocalBlockHash>,
    continuations: Map<WorkerWithDpRank, LowerTierContinuation>,
    worker: WorkerWithDpRank,
)
    requires
        sequence.len() <= usize::MAX,
        chain(edges, worker, None, sequence).len() > 0,
    ensures
        ({
            let matches = tier_matches(edges, sequence, continuations);
            let from_root = chain(edges, worker, None, sequence).len();
            &&& matches.cross_worker_hits.contains_key(worker)
            &&& matches.cross_worker_hits[worker] >= from_root
            &&& from_root >= matches.hits[worker] ==> matches.cross_worker_hits[worker]
                == from_root && matches.cross_worker_anchors[worker] == (CrossWorkerAnchor {
                start_pos: 0,
                parent_hash: None,
            })
        }),
{
    let holders = root_holders(edges, sequence);
    assert(holders.contains(worker));
    assert(suffix(sequence, 0) =~= sequence);
    lemma_chain_len(edges, worker, None, sequence);
}

/// What a peer sees of a worker is never less than what the worker itself gains.
pub proof fn law_cross_worker_hits_cover_hits(
    edges: Edges,
    sequence: Seq<LocalBlockHash>,
    continuations: Map<WorkerWithDpRank, LowerTierContinuation>,
    worker: WorkerWithDpRank,
)
    requires
        tier_matches(edges, sequence, continuations).hits.contains_key(worker),
    ensures
        tier_matches(edges, sequence, continuations).cross_worker_hits[worker] >= tier_matches(
            edges,
            sequence,
            continuations,
        ).hits[worker],
{
}

/// The position at which `worker` enters the lower tiers: where its device
/// match ends, or the start of the request.
pub open spec fn entry_pos(
    seeds: Map<WorkerWithDpRank, LowerTierContinuation>,
    worker: WorkerWithDpRank,
) -> int {
    if seeds.contains_key(worker) {
        seeds[worker].start_pos as int
    } else {
        0
    }
}

/// The sum of a worker's `hits` over the allocated tiers of `above`.
pub open spec fn total_hits(
    tiers: Map<StorageTier, Edges>,
    sequence: Seq<LocalBlockHash>,
    seeds: Map<WorkerWithDpRank, LowerTierContinuation>,
    above: Seq<StorageTier>,
    worker: WorkerWithDpRank,
) -> int
    decreases above.len(),
{
    if above.len() == 0 {
        0
    } else {
        let rest = above.drop_last();
        let before = continuations_below(tiers, sequence, seeds, rest);
        let here = if tiers.contains_key(above.last()) {
            tier_matches(tiers[above.last()], sequence, before).hits
        } else {
            Map::empty()
        };
        total_hits(tiers, sequence, seeds, rest, worker) + if here.contains_key(worker) {
            here[worker] as int
        } else {
            0
        }
    }
}

/// No block is counted twice: each tier takes a worker's match up where the one
/// above left it, so that the device match and the `hits` of all tiers add up to
/// where the match stands in the end, and stay within the request.
pub proof fn law_no_block_is_counted_twice(
    tiers: Map<StorageTier, Edges>,
    sequence: Seq<LocalBlockHash>,
    seeds: Map<WorkerWithDpRank, LowerTierContinuation>,
    above: Seq<StorageTier>,
    worker: WorkerWithDpRank,
)
    requires
        sequence.len() <= usize::MAX,
    ensures
        ({
            let below = continuations_below(tiers, sequence, seeds, above);
            let entry = entry_pos(seeds, worker);
            let total = total_hits(tiers, sequence, seeds, above, worker);
            &&& 0 <= total
            &&& below.contains_key(worker) ==> below[worker].start_pos == entry + total
            &&& !below.contains_key(worker) ==> total == 0
            &&& seeds.contains_key(worker) ==> below.contains_key(worker)
            &&& entry <= sequence.len() ==> entry + total <= sequence.len()
            &&& entry > sequence.len() ==> total == 0
        }),
    decreases above.len(),
{
    if above.len() > 0 {
        let rest = above.drop_last();
        let before = continuations_below(tiers, sequence, seeds, rest);
        law_no_block_is_counted_twice(tiers, sequence, seeds, rest, worker);
        if tiers.contains_key(above.last()) {
            let edges = tiers[above.last()];
            let starts = with_roots(before, root_holders(edges, sequence));
            let matches = tier_matches(edges, sequence, before);
            if starts.contains_key(worker) {
                lemma_extension_fits(edges, sequence, worker, starts[worker]);
                assert(matches.next_continuations[worker] == advanced(
                    edges,
                    sequence,
                    worker,
                    starts[worker],
                ));
                assert(matches.hits[worker] == extension(
                    edges,
                    sequence,
                    worker,
                    starts[worker],
                ).len());
            }
        }
    }
}

/// The `hits` of `worker` in the answer for `tier`.
pub open spec fn hits_in(
    answers: Map<StorageTier, LowerTierMatchView>,
    tier: StorageTier,
    worker: WorkerWithDpRank,
) -> int {
    if answers.contains_key(tier) && answers[tier].hits.contains_key(worker) {
        answers[tier].hits[worker] as int
    } else {
        0
    }
}

/// A worker's device match and its `hits` in all tiers together do not exceed
/// the request; a device match that already does leaves no hits to any tier.
pub proof fn law_hits_of_all_tiers_fit_the_request(
    tiers: Map<StorageTier, Edges>,
    sequence: Seq<LocalBlockHash>,
    seeds: Map<WorkerWithDpRank, LowerTierContinuation>,
    worker: WorkerWithDpRank,
)
    requires
        sequence.len() <= usize::MAX,
    ensures
        ({
            let answers = lower_tier_matches(tiers, sequence, seeds);
            let total = hits_in(answers, StorageTier::HostPinned, worker) + hits_in(
                answers,
                StorageTier::Disk,
                worker,
            ) + hits_in(answers, StorageTier::External, worker);
            &&& entry_pos(seeds, worker) <= sequence.len() ==> entry_pos(seeds, worker) + total
                <= sequence.len()
            &&& entry_pos(seeds, worker) > sequence.len() ==> total == 0
        }),
{
    reveal_with_fuel(total_hits, 4);
    let order = query_order();
    assert(order.drop_last() =~= tiers_above(StorageTier::External));
    assert(order.drop_last().drop_last() =~= tiers_above(StorageTier::Disk));
    assert(order.drop_last().drop_last().drop_last() =~= tiers_above(StorageTier::HostPinned));
    law_no_block_is_counted_twice(tiers, sequence, seeds, order, worker);
}

/// A worker's `hits` count what extends its own match, whatever the tier holds
/// for it from the root; only a worker without a match of its own is counted
/// from there.
pub proof fn law_hits_extend_own_match(
    edges: Edges,
    sequence: Seq<LocalBlockHash>,
    continuations: Map<WorkerWithDpRank, LowerTierContinuation>,
    worker: WorkerWithDpRank,
)
    requires
        sequence.len() <= usize::MAX,
        tier_matches(edges, sequence, continuations).hits.contains_key(worker),
    ensures
        tier_matches(edges, sequence, continuations).hits[worker] == if continuations.contains_key(
            worker,
        ) {
            extension(edges, sequence, worker, continuations[worker]).len()
        } else {
            chain(edges, worker, None, sequence).len()
        },
{
    let starts = with_roots(continuations, root_holders(edges, sequence));
    lemma_extension_fits(edges, sequence, worker, starts[worker]);
    assert(suffix(sequence, 0) =~= sequence);
}

/// There is an answer for every allocated tier below the device, and for no
/// other; with no tier allocated there is none, whatever the device matched.
pub proof fn law_answers_are_for_allocated_tiers(
    tiers: Map<StorageTier, Edges>,
    sequence: Seq<LocalBlockHash>,
    scores: Map<WorkerWithDpRank, u32>,
    last_matched_hashes: Map<WorkerWithDpRank, ExternalSequenceBlockHash>,
)
    ensures
        ({
            let answers = lower_tier_matches(tiers, sequence, seeds(scores, last_matched_hashes));
            &&& answers.dom() == tiers.dom().remove(StorageTier::Device)
            &&& tiers == Map::<StorageTier, Edges>::empty() ==> answers == Map::<
                StorageTier,
                LowerTierMatchView,
            >::empty()
        }),
{
    let answers = lower_tier_matches(tiers, sequence, seeds(scores, last_matched_hashes));
    assert(answers.dom() =~= tiers.dom().remove(StorageTier::Device));
    if tiers == Map::<StorageTier, Edges>::empty() {
        assert(answers =~= Map::empty());
    }
}

/// The tiers above each tier are those that the query order has before it.
pub proof fn law_tiers_above_follow_query_order(i: int)
    requires
        0 <= i < query_order().len(),
    ensures
        tiers_above(query_order()[i]) == query_order().take(i),
{
    assert(tiers_above(query_order()[i]) =~= query_order().take(i));
}

/// A tier's index is created once: asked for again, the registry hands out the
/// same index with what was done to it since.
pub proof fn law_allocated_index_is_handed_out_again(
    first: LowerTierIndexers,
    second: LowerTierIndexers,
    third: LowerTierIndexers,
    tier: StorageTier,
    given: ThreadPoolIndexer<LowerTierIndexer>,
    left: ThreadPoolIndexer<LowerTierIndexer>,
    given_again: ThreadPoolIndexer<LowerTierIndexer>,
    left_again: ThreadPoolIndexer<LowerTierIndexer>,
)
    requires
        first.hands_out(tier, given, left, second),
        second.hands_out(tier, given_again, left_again, third),
    ensures
        given_again == left,
        third@.dom() == second@.dom(),
{
    assert(third@.dom() =~= second@.dom());
}

/// Asking for a tier's index allocates that tier, leaves all others as they
/// are, and never gives the device an index.
pub proof fn law_allocation_concerns_one_tier(
    before: LowerTierIndexers,
    after: LowerTierIndexers,
    tier: StorageTier,
    given: ThreadPoolIndexer<LowerTierIndexer>,
    left: ThreadPoolIndexer<LowerTierIndexer>,
    other: StorageTier,
)
    requires
        tier != StorageTier::Device,
        before.hands_out(tier, given, left, after),
    ensures
        after@.contains_key(tier),
        other != tier ==> after@.get(other) == before@.get(other),
        before.wf() ==> after.wf(),
{
}

/// What goes over the wire comes back: decoding what a match was encoded as
/// gives its device scores and its tiers.
pub proof fn law_wire_round_trip(details: TieredMatchDetails, wire: WireTieredMatchDetails)
    requires
        wire.encodes(details),
    ensures
        from_pairs(wire.device.scores@) == details.device.overlap_scores.scores@,
        wire.decoded_tiers() == match_views(details.lower_tier@),
{
    lemma_listing_gives_map_back(
        wire.device.scores@,
        details.device.overlap_scores.scores@,
    );
    let decoded = wire.decoded_tiers();
    let views = match_views(details.lower_tier@);
    assert forall|t: StorageTier| decoded.contains_key(t) <==> views.contains_key(t) by {
        lemma_from_pairs_keys(wire.lower_tier@, t);
    }
    assert forall|t: StorageTier| views.contains_key(t) implies decoded[t] == views[t] by {
        assert(details.lower_tier@.contains_key(t));
        let i = choose|i: int|
            0 <= i < wire.lower_tier@.len() && (#[trigger] wire.lower_tier@[i]).0 == t;
        lemma_last_pair_stays(wire.lower_tier@, i);
        let sent = wire.lower_tier@[i].1;
        let view = details.lower_tier@[t]@;
        lemma_listing_gives_map_back(sent.hits@, view.hits);
        lemma_listing_gives_map_back(sent.cross_worker_hits@, view.cross_worker_hits);
        lemma_listing_gives_map_back(sent.cross_worker_anchors@, view.cross_worker_anchors);
        lemma_listing_gives_map_back(sent.next_continuations@, view.next_continuations);
    }
    assert(decoded =~= views);
}

/// Of several entries for one tier on the wire the last one counts.
pub proof fn law_last_tier_entry_counts(wire: WireTieredMatchDetails, i: int)
    requires
        0 <= i < wire.lower_tier@.len(),
        forall|j: int|
            i < j < wire.lower_tier@.len() ==> (#[trigger] wire.lower_tier@[j]).0
                != wire.lower_tier@[i].0,
    ensures
        wire.decoded_tiers().contains_pair(
            wire.lower_tier@[i].0,
            wire.lower_tier@[i].1.decoded(),
        ),
{
    lemma_last_pair_stays(wire.lower_tier@, i);
}

} // verus!
