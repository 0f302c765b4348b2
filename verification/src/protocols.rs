//! Identifiers that the indexers and the planner share.

use vstd::prelude::*;

use crate::worker_map::WorkerMap;

verus! {

/// Hash of one block's tokens, as the router computes it from a request.
#[derive(Debug, Clone, Copy, PartialEq, Eq, Hash, PartialOrd, Ord, Structural)]
pub struct LocalBlockHash(pub u64);

/// Hash of a block in its sequence, as the engine that stores the block names it.
#[derive(Debug, Clone, Copy, PartialEq, Eq, Hash, PartialOrd, Ord, Structural)]
pub struct ExternalSequenceBlockHash(pub u64);

/// How many data-parallel ranks one worker identifier can tell apart.
pub const RANK_SPAN: u128 = 0x1_0000_0000;

/// How many distinct workers there are: the codes run below this bound.
pub const CODE_SPAN: u128 = 0x1_0000_0000_0000_0000_0000_0000;

/// One KV-cache owner: a worker together with a data-parallel rank on it.
///
/// Two ranks of the same worker own separate caches.
#[derive(Debug, Clone, Copy, PartialEq, Eq, Hash, PartialOrd, Ord, Structural)]
pub struct WorkerWithDpRank {
    pub worker_id: u64,
    pub dp_rank: u32,
}

impl WorkerWithDpRank {
    pub fn new(worker_id: u64, dp_rank: u32) -> (worker: Self)
        ensures
            worker == (WorkerWithDpRank { worker_id, dp_rank }),
    {
        WorkerWithDpRank { worker_id, dp_rank }
    }

    /// The worker as one number: worker identifier first, rank second.
    pub open spec fn code(self) -> u128 {
        (self.worker_id * RANK_SPAN + self.dp_rank) as u128
    }

    /// The order by worker identifier, then by rank.
    pub open spec fn precedes(self, other: Self) -> bool {
        ||| self.worker_id < other.worker_id
        ||| self.worker_id == other.worker_id && self.dp_rank < other.dp_rank
    }

    /// Whether `self` comes before `other` in the order by worker, then by rank.
    pub fn is_before(&self, other: &Self) -> (before: bool)
        ensures
            before == self.precedes(*other),
    {
        self.worker_id < other.worker_id || (self.worker_id == other.worker_id && self.dp_rank
            < other.dp_rank)
    }

    pub(crate) fn to_code(&self) -> (code: u128)
        ensures
            code == self.code(),
            code < CODE_SPAN,
    {
        (self.worker_id as u128) * RANK_SPAN + (self.dp_rank as u128)
    }

    pub(crate) fn from_code(code: u128) -> (worker: Self)
        requires
            code < CODE_SPAN,
        ensures
            worker.code() == code,
    {
        WorkerWithDpRank { worker_id: (code / RANK_SPAN) as u64, dp_rank: (code % RANK_SPAN) as u32 }
    }

    /// Distinct workers have distinct codes, and every code is below [`CODE_SPAN`].
    pub proof fn lemma_code_is_injective(self, other: Self)
        ensures
            self.code() < CODE_SPAN,
            self.code() == other.code() ==> self == other,
    {
    }
}

/// Where a KV block is stored, from the device downwards.
#[derive(Debug, Clone, Copy, PartialEq, Eq, Hash, PartialOrd, Ord, Structural)]
pub enum StorageTier {
    Device,
    HostPinned,
    Disk,
    External,
}

impl StorageTier {
    /// Whether the tier is the device itself rather than one of those below it.
    pub fn is_gpu(&self) -> (gpu: bool)
        ensures
            gpu == (*self == StorageTier::Device),
    {
        match self {
            StorageTier::Device => true,
            _ => false,
        }
    }
}

/// How many of a request's leading blocks each worker holds on its device.
#[derive(Debug, Clone)]
pub struct OverlapScores {
    pub scores: WorkerMap<u32>,
}

impl OverlapScores {
    pub fn new() -> (overlap: Self)
        ensures
            overlap.scores@ == Map::<WorkerWithDpRank, u32>::empty(),
    {
        OverlapScores { scores: WorkerMap::new() }
    }
}

/// One stored block under both of its names.
#[derive(Debug, Clone, Copy, PartialEq, Eq)]
pub struct KvCacheStoredBlockData {
    pub block_hash: ExternalSequenceBlockHash,
    pub tokens_hash: LocalBlockHash,
}

/// A run of blocks that a worker reports as stored, each hanging off the one
/// before it and the first off `parent_hash` (`None` for the root).
#[derive(Debug, Clone, PartialEq, Eq)]
pub struct KvCacheStoreData {
    pub parent_hash: Option<ExternalSequenceBlockHash>,
    pub blocks: Vec<KvCacheStoredBlockData>,
}

} // verus!
