//! What holds of chains of blocks, of storing them, and of matching them.

use vstd::prelude::*;

use super::lower_tier::{
    chain, lemma_chain_len, match_details, stored, suffix, Edges, LowerTierContinuation,
    LowerTierIndexer, LowerTierMatchDetails,
};
use crate::protocols::{
    ExternalSequenceBlockHash, KvCacheStoredBlockData, LocalBlockHash, WorkerWithDpRank,
};

verus! {

/// Every block of a chain is held by the worker over the local hash at its
/// position, behind the block before it; the first one behind the parent.
pub proof fn law_chain_follows_edges(
    edges: Edges,
    worker: WorkerWithDpRank,
    parent: Option<ExternalSequenceBlockHash>,
    locals: Seq<LocalBlockHash>,
    i: int,
)
    requires
        0 <= i < chain(edges, worker, parent, locals).len(),
    ensures
        ({
            let blocks = chain(edges, worker, parent, locals);
            let behind = if i == 0 {
                parent
            } else {
                Some(blocks[i - 1])
            };
            &&& i < locals.len()
            &&& edges.contains_pair((worker, behind, locals[i]), blocks[i])
        }),
    decreases locals.len(),
{
    if i > 0 {
        let block = edges[(worker, parent, locals[0])];
        law_chain_follows_edges(edges, worker, Some(block), locals.drop_first(), i - 1);
    }
}

/// A chain goes on for as long as it can: it ends with the run of local hashes,
/// or where the worker holds nothing behind its last block.
pub proof fn law_chain_ends_where_edges_end(
    edges: Edges,
    worker: WorkerWithDpRank,
    parent: Option<ExternalSequenceBlockHash>,
    locals: Seq<LocalBlockHash>,
)
    ensures
        ({
            let blocks = chain(edges, worker, parent, locals);
            let last = if blocks.len() == 0 {
                parent
            } else {
                Some(blocks.last())
            };
            &&& blocks.len() <= locals.len()
            &&& blocks.len() < locals.len() ==> !edges.contains_key(
                (worker, last, locals[blocks.len() as int]),
            )
        }),
    decreases locals.len(),
{
    if locals.len() > 0 && edges.contains_key((worker, parent, locals[0])) {
        let block = edges[(worker, parent, locals[0])];
        let rest = chain(edges, worker, Some(block), locals.drop_first());
        law_chain_ends_where_edges_end(edges, worker, Some(block), locals.drop_first());
        assert(chain(edges, worker, parent, locals) =~= seq![block] + rest);
        if rest.len() > 0 {
            assert((seq![block] + rest).last() == rest.last());
        }
    }
}

/// A path of blocks that the worker holds, each behind the one before it, and
/// that cannot be made longer, is the chain.
pub proof fn law_longest_path_is_the_chain(
    edges: Edges,
    worker: WorkerWithDpRank,
    parent: Option<ExternalSequenceBlockHash>,
    locals: Seq<LocalBlockHash>,
    path: Seq<ExternalSequenceBlockHash>,
)
    requires
        path.len() <= locals.len(),
        forall|i: int|
            0 <= i < path.len() ==> edges.contains_pair(
                (
                    worker,
                    if i == 0 {
                        parent
                    } else {
                        Some(path[i - 1])
                    },
                    #[trigger] locals[i],
                ),
                path[i],
            ),
        path.len() < locals.len() ==> !edges.contains_key(
            (
                worker,
                if path.len() == 0 {
                    parent
                } else {
                    Some(path.last())
                },
                locals[path.len() as int],
            ),
        ),
    ensures
        chain(edges, worker, parent, locals) == path,
    decreases locals.len(),
{
    if path.len() > 0 {
        let rest = path.drop_first();
        let ahead = locals.drop_first();
        assert(edges.contains_pair((worker, parent, locals[0]), path[0]));
        assert forall|i: int| 0 <= i < rest.len() implies edges.contains_pair(
            (
                worker,
                if i == 0 {
                    Some(path[0])
                } else {
                    Some(rest[i - 1])
                },
                #[trigger] ahead[i],
            ),
            rest[i],
        ) by {
            assert(ahead[i] == locals[i + 1]);
            assert(rest[i] == path[i + 1]);
        }
        if rest.len() > 0 {
            assert(rest.last() == path.last());
        } else {
            assert(path.last() == path[0]);
        }
        law_longest_path_is_the_chain(edges, worker, Some(path[0]), ahead, rest);
        assert(path =~= seq![path[0]] + rest);
    } else {
        assert(chain(edges, worker, parent, locals) =~= path);
    }
}

/// Following a chain for a while and then going on from the block reached gives
/// the chain that is followed in one go.
pub proof fn law_chain_can_be_resumed(
    edges: Edges,
    worker: WorkerWithDpRank,
    parent: Option<ExternalSequenceBlockHash>,
    locals: Seq<LocalBlockHash>,
    n: int,
)
    requires
        0 <= n <= chain(edges, worker, parent, locals).len(),
    ensures
        ({
            let blocks = chain(edges, worker, parent, locals);
            let reached = if n == 0 {
                parent
            } else {
                Some(blocks[n - 1])
            };
            blocks == blocks.take(n) + chain(edges, worker, reached, locals.skip(n))
        }),
    decreases n,
{
    let blocks = chain(edges, worker, parent, locals);
    if n > 0 {
        let block = edges[(worker, parent, locals[0])];
        let rest = chain(edges, worker, Some(block), locals.drop_first());
        law_chain_can_be_resumed(edges, worker, Some(block), locals.drop_first(), n - 1);
        lemma_chain_len(edges, worker, parent, locals);
        assert(locals.drop_first().skip(n - 1) =~= locals.skip(n));
        assert(blocks =~= seq![block] + rest);
        assert(blocks.take(n) =~= seq![block] + rest.take(n - 1));
        assert(blocks.take(n) + chain(
            edges,
            worker,
            Some(blocks[n - 1]),
            locals.skip(n),
        ) =~= seq![block] + (rest.take(n - 1) + chain(
            edges,
            worker,
            Some(blocks[n - 1]),
            locals.skip(n),
        )));
    } else {
        assert(locals.skip(0) =~= locals);
        assert(blocks =~= blocks.take(0) + blocks);
    }
}

/// After storing, the worker holds each stored block over its local hash behind
/// the block stored before it, the first one behind the parent, unless a later
/// block of the same run took its place.
pub proof fn law_stored_block_hangs_off_the_one_before(
    edges: Edges,
    worker: WorkerWithDpRank,
    parent: Option<ExternalSequenceBlockHash>,
    blocks: Seq<KvCacheStoredBlockData>,
    i: int,
)
    requires
        0 <= i < blocks.len(),
        forall|j: int|
            i < j < blocks.len() && blocks[i].tokens_hash == (#[trigger] blocks[j].tokens_hash)
                ==> Some(blocks[j - 1].block_hash) != (if i == 0 {
                parent
            } else {
                Some(blocks[i - 1].block_hash)
            }),
    ensures
        stored(edges, worker, parent, blocks).contains_pair(
            (
                worker,
                if i == 0 {
                    parent
                } else {
                    Some(blocks[i - 1].block_hash)
                },
                blocks[i].tokens_hash,
            ),
            blocks[i].block_hash,
        ),
    decreases blocks.len(),
{
    let rest = blocks.drop_first();
    let with_first = edges.insert((worker, parent, blocks[0].tokens_hash), blocks[0].block_hash);
    let key = (worker, parent, blocks[0].tokens_hash);
    if i == 0 {
        assert forall|j: int| 0 <= j < rest.len() implies key != (
            worker,
            if j == 0 {
                Some(blocks[0].block_hash)
            } else {
                Some(rest[j - 1].block_hash)
            },
            #[trigger] rest[j].tokens_hash,
        ) by {
            assert(rest[j].tokens_hash == blocks[j + 1].tokens_hash);
            if j > 0 {
                assert(rest[j - 1] == blocks[j]);
            }
        }
        law_storing_keeps_other_edges(
            with_first,
            worker,
            Some(blocks[0].block_hash),
            rest,
            key,
        );
        assert(with_first.contains_key(key));
        assert(stored(edges, worker, parent, blocks).get(key) == with_first.get(key));
    } else {
        assert forall|j: int|
            i - 1 < j < rest.len() && rest[i - 1].tokens_hash == (
            #[trigger] rest[j].tokens_hash) implies Some(rest[j - 1].block_hash) != (if i - 1
            == 0 {
            Some(blocks[0].block_hash)
        } else {
            Some(rest[i - 2].block_hash)
        }) by {
            assert(rest[j].tokens_hash == blocks[j + 1].tokens_hash);
        }
        law_stored_block_hangs_off_the_one_before(
            with_first,
            worker,
            Some(blocks[0].block_hash),
            rest,
            i - 1,
        );
    }
}

/// Storing changes nothing but the places of the stored blocks.
pub proof fn law_storing_keeps_other_edges(
    edges: Edges,
    worker: WorkerWithDpRank,
    parent: Option<ExternalSequenceBlockHash>,
    blocks: Seq<KvCacheStoredBlockData>,
    key: (WorkerWithDpRank, Option<ExternalSequenceBlockHash>, LocalBlockHash),
)
    requires
        forall|j: int|
            0 <= j < blocks.len() ==> key != (
                worker,
                if j == 0 {
                    parent
                } else {
                    Some(blocks[j - 1].block_hash)
                },
                #[trigger] blocks[j].tokens_hash,
            ),
    ensures
        stored(edges, worker, parent, blocks).get(key) == edges.get(key),
    decreases blocks.len(),
{
    if blocks.len() > 0 {
        let rest = blocks.drop_first();
        assert(key != (worker, parent, blocks[0].tokens_hash));
        assert forall|j: int| 0 <= j < rest.len() implies key != (
            worker,
            if j == 0 {
                Some(blocks[0].block_hash)
            } else {
                Some(rest[j - 1].block_hash)
            },
            #[trigger] rest[j].tokens_hash,
        ) by {
            assert(rest[j].tokens_hash == blocks[j + 1].tokens_hash);
            if j > 0 {
                assert(rest[j - 1] == blocks[j]);
            }
        }
        law_storing_keeps_other_edges(
            edges.insert((worker, parent, blocks[0].tokens_hash), blocks[0].block_hash),
            worker,
            Some(blocks[0].block_hash),
            rest,
            key,
        );
    }
}

/// A match that an index extends by some blocks stands behind the last of them,
/// wherever it stood before, the root included. A match that is not extended
/// stays where it was. Only the workers asked about are answered for, and
/// nothing is said of what peers see.
pub proof fn law_match_stands_behind_its_last_block(
    indexer: LowerTierIndexer,
    sequence: Seq<LocalBlockHash>,
    continuations: Map<WorkerWithDpRank, LowerTierContinuation>,
    details: LowerTierMatchDetails,
    worker: WorkerWithDpRank,
)
    requires
        sequence.len() <= usize::MAX,
        details@ == match_details(indexer@, sequence, continuations),
    ensures
        details.hits@.dom() == continuations.dom(),
        details.next_continuations@.dom() == continuations.dom(),
        details.cross_worker_hits@.dom() == Set::<WorkerWithDpRank>::empty(),
        details.cross_worker_anchors@.dom() == Set::<WorkerWithDpRank>::empty(),
        continuations.contains_key(worker) ==> ({
            let from = continuations[worker];
            let next = details.next_continuations@[worker];
            let n = details.hits@[worker] as int;
            &&& next.start_pos == from.start_pos + n
            &&& n == 0 ==> next.last_matched_hash == from.last_matched_hash
            &&& n > 0 ==> next.start_pos <= sequence.len() && next.last_matched_hash == Some(
                chain(
                    indexer@,
                    worker,
                    from.last_matched_hash,
                    sequence.skip(from.start_pos as int),
                )[n - 1],
            )
            &&& from.start_pos <= sequence.len() ==> n == chain(
                indexer@,
                worker,
                from.last_matched_hash,
                sequence.skip(from.start_pos as int),
            ).len()
            &&& from.start_pos > sequence.len() ==> n == 0
        }),
{
    assert(details@.hits.dom() =~= continuations.dom());
    assert(details@.next_continuations.dom() =~= continuations.dom());
    assert(details@.cross_worker_hits.dom() =~= Set::<WorkerWithDpRank>::empty());
    assert(details@.cross_worker_anchors.dom() =~= Set::<WorkerWithDpRank>::empty());
    if continuations.contains_key(worker) {
        let from = continuations[worker];
        lemma_chain_len(
            indexer@,
            worker,
            from.last_matched_hash,
            suffix(sequence, from.start_pos as int),
        );
    }
}

/// An index has nothing to add to a match that it has just extended: asked to
/// go on from where it stopped, it finds no further block.
pub proof fn law_extended_match_is_exhausted(
    indexer: LowerTierIndexer,
    sequence: Seq<LocalBlockHash>,
    continuations: Map<WorkerWithDpRank, LowerTierContinuation>,
    first: LowerTierMatchDetails,
    second: LowerTierMatchDetails,
    worker: WorkerWithDpRank,
)
    requires
        sequence.len() <= usize::MAX,
        first@ == match_details(indexer@, sequence, continuations),
        second@ == match_details(indexer@, sequence, first.next_continuations@),
        continuations.contains_key(worker),
    ensures
        second.hits@[worker] == 0,
        second.next_continuations@ == first.next_continuations@,
{
    assert forall|w: WorkerWithDpRank| continuations.contains_key(
        w,
    ) implies #[trigger] second.hits@[w] == 0 && second.next_continuations@[w]
        == first.next_continuations@[w] by {
        let from = continuations[w];
        let locals = suffix(sequence, from.start_pos as int);
        let blocks = chain(indexer@, w, from.last_matched_hash, locals);
        let next = first.next_continuations@[w];
        law_match_stands_behind_its_last_block(indexer, sequence, continuations, first, w);
        law_match_stands_behind_its_last_block(
            indexer,
            sequence,
            first.next_continuations@,
            second,
            w,
        );
        law_chain_ends_where_edges_end(indexer@, w, from.last_matched_hash, locals);
        if next.start_pos < sequence.len() {
            let ahead = sequence.skip(next.start_pos as int);
            assert(ahead[0] == locals[blocks.len() as int]);
            assert(chain(indexer@, w, next.last_matched_hash, ahead).len() == 0);
        } else if next.start_pos == sequence.len() {
            lemma_chain_len(
                indexer@,
                w,
                next.last_matched_hash,
                sequence.skip(next.start_pos as int),
            );
        }
    }
    law_match_stands_behind_its_last_block(indexer, sequence, continuations, first, worker);
    law_match_stands_behind_its_last_block(
        indexer,
        sequence,
        first.next_continuations@,
        second,
        worker,
    );
    assert forall|w: WorkerWithDpRank| first.next_continuations@.contains_key(
        w,
    ) implies second.next_continuations@[w] == first.next_continuations@[w] by {
        assert(continuations.contains_key(w));
        assert(second.hits@[w] == 0);
    }
    assert(second.next_continuations@ =~= first.next_continuations@);
}

/// Where the upper index holds nothing behind what the match stands at, the
/// lower one alone decides what both together hold.
proof fn lemma_lower_part(
    upper: Edges,
    lower: Edges,
    worker: WorkerWithDpRank,
    parent: Option<ExternalSequenceBlockHash>,
    locals: Seq<LocalBlockHash>,
)
    requires
        locals.len() > 0 ==> !upper.contains_key((worker, parent, locals[0])),
        forall|behind: Option<ExternalSequenceBlockHash>, over: LocalBlockHash, next: LocalBlockHash|
            #![trigger lower[(worker, behind, over)], upper.contains_key(
                (worker, Some(lower[(worker, behind, over)]), next),
            )]
            lower.contains_key((worker, behind, over)) ==> !upper.contains_key(
                (worker, Some(lower[(worker, behind, over)]), next),
            ),
    ensures
        chain(lower.union_prefer_right(upper), worker, parent, locals) == chain(
            lower,
            worker,
            parent,
            locals,
        ),
    decreases locals.len(),
{
    if locals.len() > 0 && lower.contains_key((worker, parent, locals[0])) {
        let block = lower[(worker, parent, locals[0])];
        let rest = locals.drop_first();
        if rest.len() > 0 {
            assert(!upper.contains_key((worker, Some(block), rest[0])));
        }
        lemma_lower_part(upper, lower, worker, Some(block), rest);
    }
}

/// A chain whose front lies in one index and whose rest lies in another is
/// found in full by following it in the first and going on in the second from
/// the block reached. No block of the second has a successor in the first.
pub proof fn law_split_chain_is_found_in_full(
    upper: Edges,
    lower: Edges,
    worker: WorkerWithDpRank,
    parent: Option<ExternalSequenceBlockHash>,
    locals: Seq<LocalBlockHash>,
)
    requires
        forall|behind: Option<ExternalSequenceBlockHash>, over: LocalBlockHash, next: LocalBlockHash|
            #![trigger lower[(worker, behind, over)], upper.contains_key(
                (worker, Some(lower[(worker, behind, over)]), next),
            )]
            lower.contains_key((worker, behind, over)) ==> !upper.contains_key(
                (worker, Some(lower[(worker, behind, over)]), next),
            ),
    ensures
        ({
            let front = chain(upper, worker, parent, locals);
            let reached = if front.len() == 0 {
                parent
            } else {
                Some(front.last())
            };
            front + chain(lower, worker, reached, locals.skip(front.len() as int)) == chain(
                lower.union_prefer_right(upper),
                worker,
                parent,
                locals,
            )
        }),
    decreases locals.len(),
{
    let both = lower.union_prefer_right(upper);
    let front = chain(upper, worker, parent, locals);
    if locals.len() > 0 && upper.contains_key((worker, parent, locals[0])) {
        let block = upper[(worker, parent, locals[0])];
        let rest = chain(upper, worker, Some(block), locals.drop_first());
        law_split_chain_is_found_in_full(upper, lower, worker, Some(block), locals.drop_first());
        lemma_chain_len(upper, worker, parent, locals);
        assert(front =~= seq![block] + rest);
        assert(locals.drop_first().skip(rest.len() as int) =~= locals.skip(front.len() as int));
        let reached = if rest.len() == 0 {
            Some(block)
        } else {
            Some(rest.last())
        };
        assert(reached == Some(front.last()));
        let tail = chain(lower, worker, reached, locals.skip(front.len() as int));
        assert(front + tail =~= seq![block] + (rest + tail));
    } else {
        assert(front =~= Seq::<ExternalSequenceBlockHash>::empty());
        assert(locals.skip(0) =~= locals);
        lemma_lower_part(upper, lower, worker, parent, locals);
        assert(front + chain(lower, worker, parent, locals) =~= chain(
            lower,
            worker,
            parent,
            locals,
        ));
    }
}

} // verus!
