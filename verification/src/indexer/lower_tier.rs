//! The block index of one lower tier.
//!
//! A tier's index is a set of edges. An edge says that a worker holds a block:
//! it leads from the block's parent (or the root) over the block's local hash
//! to its external hash. A request is matched against a worker's blocks by
//! following edges over the request's local hashes for as long as there are any.

use std::collections::HashMap;

use vstd::prelude::*;

use super::anchor_map::{AnchorMap, CrossWorkerAnchor};
use crate::listing::lists;
use crate::protocols::{
    ExternalSequenceBlockHash, KvCacheStoreData, KvCacheStoredBlockData, LocalBlockHash,
    WorkerWithDpRank,
};
use crate::worker_map::WorkerMap;

verus! {

broadcast use vstd::std_specs::hash::group_hash_axioms;

/// Who holds what: from a worker, a parent and a local hash to the external
/// hash of the block that the worker holds there.
pub type Edges = Map<
    (WorkerWithDpRank, Option<ExternalSequenceBlockHash>, LocalBlockHash),
    ExternalSequenceBlockHash,
>;

/// Where a worker's match stands when it passes from one tier to the next.
#[derive(Debug, Clone, Copy, PartialEq, Eq, Structural)]
pub struct LowerTierContinuation {
    /// Position of the first block that is not matched yet.
    pub start_pos: usize,
    /// The last block that was matched, or `None` if there is none.
    pub last_matched_hash: Option<ExternalSequenceBlockHash>,
}

impl LowerTierContinuation {
    /// Continues at `start_pos`, behind the block `last_matched_hash`.
    pub fn new(start_pos: usize, last_matched_hash: ExternalSequenceBlockHash) -> (continuation:
        Self)
        ensures
            continuation == (LowerTierContinuation {
                start_pos,
                last_matched_hash: Some(last_matched_hash),
            }),
    {
        LowerTierContinuation { start_pos, last_matched_hash: Some(last_matched_hash) }
    }

    /// Continues at `start_pos`, from the root.
    pub fn from_root(start_pos: usize) -> (continuation: Self)
        ensures
            continuation == (LowerTierContinuation { start_pos, last_matched_hash: None }),
    {
        LowerTierContinuation { start_pos, last_matched_hash: None }
    }
}

/// What one tier contributes to a request, per worker.
///
/// `hits` leaves out what the worker's device and the tiers above already
/// cover. `cross_worker_hits` does not: it is what a peer could pull from the
/// worker. `cross_worker_anchors` says where the chain behind each cross-worker
/// count starts. `next_continuations` is where the tier below goes on.
#[derive(Debug, Clone)]
pub struct LowerTierMatchDetails {
    pub hits: WorkerMap<usize>,
    pub cross_worker_hits: WorkerMap<usize>,
    pub cross_worker_anchors: AnchorMap,
    pub next_continuations: WorkerMap<LowerTierContinuation>,
}

/// The maps of a [`LowerTierMatchDetails`].
#[verifier::ext_equal]
pub struct LowerTierMatchView {
    pub hits: Map<WorkerWithDpRank, usize>,
    pub cross_worker_hits: Map<WorkerWithDpRank, usize>,
    pub cross_worker_anchors: Map<WorkerWithDpRank, CrossWorkerAnchor>,
    pub next_continuations: Map<WorkerWithDpRank, LowerTierContinuation>,
}

impl LowerTierMatchView {
    pub open spec fn empty() -> Self {
        LowerTierMatchView {
            hits: Map::empty(),
            cross_worker_hits: Map::empty(),
            cross_worker_anchors: Map::empty(),
            next_continuations: Map::empty(),
        }
    }
}

impl View for LowerTierMatchDetails {
    type V = LowerTierMatchView;

    open spec fn view(&self) -> LowerTierMatchView {
        LowerTierMatchView {
            hits: self.hits@,
            cross_worker_hits: self.cross_worker_hits@,
            cross_worker_anchors: self.cross_worker_anchors@,
            next_continuations: self.next_continuations@,
        }
    }
}

impl Default for LowerTierMatchDetails {
    fn default() -> (details: Self)
        ensures
            details@ == LowerTierMatchView::empty(),
            details.hits@ == Map::<WorkerWithDpRank, usize>::empty(),
            details.cross_worker_hits@ == Map::<WorkerWithDpRank, usize>::empty(),
            details.cross_worker_anchors@ == Map::<WorkerWithDpRank, CrossWorkerAnchor>::empty(),
            details.next_continuations@ == Map::<
                WorkerWithDpRank,
                LowerTierContinuation,
            >::empty(),
    {
        LowerTierMatchDetails {
            hits: WorkerMap::new(),
            cross_worker_hits: WorkerMap::new(),
            cross_worker_anchors: AnchorMap::new(),
            next_continuations: WorkerMap::new(),
        }
    }
}

/// The blocks that `worker` holds along `locals`, one for each local hash from
/// the first on, for as long as each hangs off the one before it and the first
/// off `parent`.
pub open spec fn chain(
    edges: Edges,
    worker: WorkerWithDpRank,
    parent: Option<ExternalSequenceBlockHash>,
    locals: Seq<LocalBlockHash>,
) -> Seq<ExternalSequenceBlockHash>
    decreases locals.len(),
{
    if locals.len() == 0 || !edges.contains_key((worker, parent, locals[0])) {
        Seq::empty()
    } else {
        let block = edges[(worker, parent, locals[0])];
        seq![block] + chain(edges, worker, Some(block), locals.drop_first())
    }
}

/// The part of `sequence` from `pos` on, which is empty past the end.
pub open spec fn suffix(sequence: Seq<LocalBlockHash>, pos: int) -> Seq<LocalBlockHash> {
    if pos <= sequence.len() {
        sequence.skip(pos)
    } else {
        Seq::empty()
    }
}

/// The blocks with which `worker` extends a match of `sequence` that stands at `from`.
pub open spec fn extension(
    edges: Edges,
    sequence: Seq<LocalBlockHash>,
    worker: WorkerWithDpRank,
    from: LowerTierContinuation,
) -> Seq<ExternalSequenceBlockHash> {
    chain(edges, worker, from.last_matched_hash, suffix(sequence, from.start_pos as int))
}

/// Where that match stands afterwards.
pub open spec fn advanced(
    edges: Edges,
    sequence: Seq<LocalBlockHash>,
    worker: WorkerWithDpRank,
    from: LowerTierContinuation,
) -> LowerTierContinuation {
    let blocks = extension(edges, sequence, worker, from);
    LowerTierContinuation {
        start_pos: (from.start_pos + blocks.len()) as usize,
        last_matched_hash: if blocks.len() > 0 {
            Some(blocks.last())
        } else {
            from.last_matched_hash
        },
    }
}

/// What a tier answers when every worker of `continuations` goes on from where
/// its match stands.
pub open spec fn match_details(
    edges: Edges,
    sequence: Seq<LocalBlockHash>,
    continuations: Map<WorkerWithDpRank, LowerTierContinuation>,
) -> LowerTierMatchView {
    LowerTierMatchView {
        hits: Map::new(
            |w: WorkerWithDpRank| continuations.contains_key(w),
            |w: WorkerWithDpRank| extension(edges, sequence, w, continuations[w]).len() as usize,
        ),
        next_continuations: Map::new(
            |w: WorkerWithDpRank| continuations.contains_key(w),
            |w: WorkerWithDpRank| advanced(edges, sequence, w, continuations[w]),
        ),
        ..LowerTierMatchView::empty()
    }
}

/// The edges after `worker` has stored `blocks` behind `parent`.
pub open spec fn stored(
    edges: Edges,
    worker: WorkerWithDpRank,
    parent: Option<ExternalSequenceBlockHash>,
    blocks: Seq<KvCacheStoredBlockData>,
) -> Edges
    decreases blocks.len(),
{
    if blocks.len() == 0 {
        edges
    } else {
        stored(
            edges.insert((worker, parent, blocks[0].tokens_hash), blocks[0].block_hash),
            worker,
            Some(blocks[0].block_hash),
            blocks.drop_first(),
        )
    }
}

/// A chain is no longer than the run of local hashes that it is matched against.
pub proof fn lemma_chain_len(
    edges: Edges,
    worker: WorkerWithDpRank,
    parent: Option<ExternalSequenceBlockHash>,
    locals: Seq<LocalBlockHash>,
)
    ensures
        chain(edges, worker, parent, locals).len() <= locals.len(),
    decreases locals.len(),
{
    if locals.len() > 0 && edges.contains_key((worker, parent, locals[0])) {
        lemma_chain_len(
            edges,
            worker,
            Some(edges[(worker, parent, locals[0])]),
            locals.drop_first(),
        );
    }
}

/// The index of one lower tier.
#[derive(Debug)]
pub struct LowerTierIndexer {
    /// Blocks without a parent, by local hash.
    roots: HashMap<u64, WorkerMap<ExternalSequenceBlockHash>>,
    /// Blocks with a parent, by the parent's external hash and the local hash.
    links: HashMap<u128, WorkerMap<ExternalSequenceBlockHash>>,
}

spec fn link(parent: ExternalSequenceBlockHash, local: LocalBlockHash) -> u128 {
    (parent.0 * 0x1_0000_0000_0000_0000 + local.0) as u128
}

fn link_of(parent: ExternalSequenceBlockHash, local: LocalBlockHash) -> (key: u128)
    ensures
        key == link(parent, local),
{
    (parent.0 as u128) * 0x1_0000_0000_0000_0000 + (local.0 as u128)
}

impl View for LowerTierIndexer {
    type V = Edges;

    closed spec fn view(&self) -> Edges {
        Map::new(
            |e: (WorkerWithDpRank, Option<ExternalSequenceBlockHash>, LocalBlockHash)|
                self.holders(e.1, e.2).contains_key(e.0),
            |e: (WorkerWithDpRank, Option<ExternalSequenceBlockHash>, LocalBlockHash)|
                self.holders(e.1, e.2)[e.0],
        )
    }
}

impl LowerTierIndexer {
    /// The workers that hold a block behind `parent` over `local`.
    spec fn holders(
        self,
        parent: Option<ExternalSequenceBlockHash>,
        local: LocalBlockHash,
    ) -> Map<WorkerWithDpRank, ExternalSequenceBlockHash> {
        match parent {
            None => if self.roots@.contains_key(local.0) {
                self.roots@[local.0]@
            } else {
                Map::empty()
            },
            Some(p) => if self.links@.contains_key(link(p, local)) {
                self.links@[link(p, local)]@
            } else {
                Map::empty()
            },
        }
    }

    /// The index without blocks.
    pub fn new() -> (indexer: Self)
        ensures
            indexer@ == Edges::empty(),
    {
        let indexer = LowerTierIndexer { roots: HashMap::new(), links: HashMap::new() };
        assert(indexer@ =~= Edges::empty());
        indexer
    }

    /// Records that `worker` holds `block` behind `parent` over `local`.
    fn add_edge(
        &mut self,
        worker: WorkerWithDpRank,
        parent: Option<ExternalSequenceBlockHash>,
        local: LocalBlockHash,
        block: ExternalSequenceBlockHash,
    )
        ensures
            final(self)@ == old(self)@.insert((worker, parent, local), block),
    {
        match parent {
            None => {
                self.roots.entry(local.0).or_insert(WorkerMap::new()).insert(worker, block);
            },
            Some(p) => {
                self.links.entry(link_of(p, local)).or_insert(WorkerMap::new()).insert(
                    worker,
                    block,
                );
            },
        }
        assert(self@ =~= old(self)@.insert((worker, parent, local), block));
    }

    /// Records the blocks of `data` as held by `worker`. A block that the
    /// worker held in the same place before is replaced.
    pub fn apply_stored(&mut self, worker: WorkerWithDpRank, data: &KvCacheStoreData)
        ensures
            final(self)@ == stored(old(self)@, worker, data.parent_hash, data.blocks@),
    {
        let mut parent = data.parent_hash;
        assert(data.blocks@.skip(0) =~= data.blocks@);
        for i in 0..data.blocks.len()
            invariant
                stored(old(self)@, worker, data.parent_hash, data.blocks@) == stored(
                    self@,
                    worker,
                    parent,
                    data.blocks@.skip(i as int),
                ),
        {
            let block = data.blocks[i];
            assert(data.blocks@.skip(i as int).drop_first() =~= data.blocks@.skip(i + 1));
            self.add_edge(worker, parent, block.tokens_hash, block.block_hash);
            parent = Some(block.block_hash);
        }
    }

    /// The block that `worker` holds behind `parent` over `local`.
    fn child(
        &self,
        worker: WorkerWithDpRank,
        parent: Option<ExternalSequenceBlockHash>,
        local: LocalBlockHash,
    ) -> (block: Option<ExternalSequenceBlockHash>)
        ensures
            block == self@.get((worker, parent, local)),
    {
        let holders = match parent {
            None => self.roots.get(&local.0),
            Some(p) => self.links.get(&link_of(p, local)),
        };
        match holders {
            Some(holders) => holders.get(worker),
            None => None,
        }
    }

    /// The workers that hold a block without a parent over `first_hash`, each
    /// once, in no particular order.
    pub fn root_workers(&self, first_hash: LocalBlockHash) -> (workers: Vec<WorkerWithDpRank>)
        ensures
            workers@.no_duplicates(),
            forall|w: WorkerWithDpRank| #[trigger]
                workers@.contains(w) <==> self@.contains_key((w, None, first_hash)),
    {
        let mut workers: Vec<WorkerWithDpRank> = Vec::new();
        match self.roots.get(&first_hash.0) {
            Some(holders) => {
                let entries = holders.entries();
                for i in 0..entries.len()
                    invariant
                        workers@.len() == i,
                        forall|k: int| 0 <= k < i ==> #[trigger] workers@[k] == entries@[k].0,
                {
                    workers.push(entries[i].0);
                }
                proof {
                    assert forall|w: WorkerWithDpRank| #[trigger]
                        workers@.contains(w) <==> self@.contains_key((w, None, first_hash)) by {
                        if workers@.contains(w) {
                            let k = choose|k: int| 0 <= k < workers@.len() && workers@[k] == w;
                            assert(holders@.contains_key(entries@[k].0));
                        }
                        if holders@.contains_key(w) {
                            let k = choose|k: int|
                                0 <= k < entries@.len() && entries@[k] == (w, holders@[w]);
                            assert(workers@[k] == w);
                        }
                    }
                }
            },
            None => {},
        }
        workers
    }

    /// The external hashes of the blocks that `worker` holds along `locals`
    /// behind `parent`, up to the first one that it does not hold.
    pub fn chain_block_hashes_for_worker(
        &self,
        worker: WorkerWithDpRank,
        parent: Option<ExternalSequenceBlockHash>,
        locals: &[LocalBlockHash],
    ) -> (hashes: Vec<ExternalSequenceBlockHash>)
        ensures
            hashes@ == chain(self@, worker, parent, locals@),
    {
        let mut hashes: Vec<ExternalSequenceBlockHash> = Vec::new();
        let mut last = parent;
        let mut pos: usize = 0;
        assert(locals@.skip(0) =~= locals@);
        while pos < locals.len()
            invariant
                pos <= locals@.len(),
                chain(self@, worker, parent, locals@) =~= hashes@ + chain(
                    self@,
                    worker,
                    last,
                    locals@.skip(pos as int),
                ),
            decreases locals@.len() - pos,
        {
            assert(locals@.skip(pos as int).drop_first() =~= locals@.skip(pos + 1));
            match self.child(worker, last, locals[pos]) {
                Some(block) => {
                    hashes.push(block);
                    last = Some(block);
                    pos = pos + 1;
                },
                None => {
                    return hashes;
                },
            }
        }
        hashes
    }

    /// Goes on matching `sequence` against the blocks of `worker`, from where
    /// the match stands. Hands back the number of further blocks, and where the
    /// match stands then.
    fn advance(
        &self,
        sequence: &[LocalBlockHash],
        worker: WorkerWithDpRank,
        from: LowerTierContinuation,
    ) -> (step: (usize, LowerTierContinuation))
        ensures
            step.0 == extension(self@, sequence@, worker, from).len(),
            step.1 == advanced(self@, sequence@, worker, from),
    {
        let ghost blocks = extension(self@, sequence@, worker, from);
        let ghost mut walked = Seq::<ExternalSequenceBlockHash>::empty();
        let mut hits: usize = 0;
        let mut last = from.last_matched_hash;
        if from.start_pos >= sequence.len() {
            return (0, from);
        }
        let mut pos: usize = from.start_pos;
        while pos < sequence.len()
            invariant_except_break
                blocks =~= walked + chain(self@, worker, last, sequence@.skip(pos as int)),
            invariant
                from.start_pos <= pos <= sequence@.len(),
                hits == pos - from.start_pos,
                hits == walked.len(),
                last == (if hits > 0 {
                    Some(walked.last())
                } else {
                    from.last_matched_hash
                }),
            ensures
                blocks =~= walked,
            decreases sequence@.len() - pos,
        {
            assert(sequence@.skip(pos as int).drop_first() =~= sequence@.skip(pos + 1));
            match self.child(worker, last, sequence[pos]) {
                Some(block) => {
                    proof {
                        walked = walked.push(block);
                    }
                    last = Some(block);
                    hits = hits + 1;
                    pos = pos + 1;
                },
                None => {
                    break ;
                },
            }
        }
        (hits, LowerTierContinuation { start_pos: pos, last_matched_hash: last })
    }

    /// Extends the match of every worker of `continuations` by the blocks that
    /// the tier holds for it. Every such worker gets an entry, also where the
    /// tier adds nothing. The cross-worker maps stay empty.
    pub fn query_match_details(
        &self,
        sequence: &[LocalBlockHash],
        continuations: &WorkerMap<LowerTierContinuation>,
    ) -> (details: LowerTierMatchDetails)
        ensures
            details@ == match_details(self@, sequence@, continuations@),
    {
        let mut details = LowerTierMatchDetails::default();
        let entries = continuations.entries();
        let ghost answer = match_details(self@, sequence@, continuations@);
        for i in 0..entries.len()
            invariant
                lists(entries@, continuations@),
                answer == match_details(self@, sequence@, continuations@),
                details@.cross_worker_hits == answer.cross_worker_hits,
                details@.cross_worker_anchors == answer.cross_worker_anchors,
                details@.hits.submap_of(answer.hits),
                details@.next_continuations.submap_of(answer.next_continuations),
                forall|k: int|
                    0 <= k < i ==> details@.hits.contains_key((#[trigger] entries@[k]).0)
                        && details@.next_continuations.contains_key(entries@[k].0),
        {
            let (worker, from) = entries[i];
            let (hits, next) = self.advance(sequence, worker, from);
            assert(answer.hits.contains_pair(worker, hits));
            assert(answer.next_continuations.contains_pair(worker, next));
            details.hits.insert(worker, hits);
            details.next_continuations.insert(worker, next);
        }
        proof {
            assert forall|w: WorkerWithDpRank| continuations@.contains_key(
                w,
            ) implies details@.hits.contains_key(w) && details@.next_continuations.contains_key(
                w,
            ) by {
                let k = choose|k: int|
                    0 <= k < entries@.len() && entries@[k] == (w, continuations@[w]);
                assert(entries@[k].0 == w);
            }
            assert(details@.hits =~= answer.hits);
            assert(details@.next_continuations =~= answer.next_continuations);
        }
        details
    }
}

} // verus!
