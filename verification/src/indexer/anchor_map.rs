//! The anchors of cross-worker chains, keyed by worker.

use rustc_hash::FxHashMap;
use vstd::prelude::*;

use crate::listing::{from_pairs, lists};
use crate::protocols::{ExternalSequenceBlockHash, WorkerWithDpRank, CODE_SPAN};

verus! {

/// The hasher builder of `rustc_hash`, so that it can stand in the type of an
/// [`FxHashMap`]. Nothing is claimed of its values here. What is claimed of the
/// maps below rests on every hasher that it builds starting from the same state,
/// so that a key always hashes to the same number.
#[verifier::external_type_specification]
#[verifier::external_body]
pub struct ExFxBuildHasher(rustc_hash::FxBuildHasher);

/// `insert` on an [`FxHashMap`] with integer keys: afterwards the map holds
/// `value` under `key`, in place of what it held there, and is otherwise
/// unchanged.
#[verifier::external_body]
fn fx_insert<V>(table: &mut FxHashMap<u128, V>, key: u128, value: V)
    ensures
        final(table)@ == old(table)@.insert(key, value),
{
    table.insert(key, value);
}

/// `get` on an [`FxHashMap`] with integer keys: the value that the map holds
/// under `key`, and `None` if and only if it holds none.
#[verifier::external_body]
fn fx_get<V: Copy>(table: &FxHashMap<u128, V>, key: u128) -> (value: Option<V>)
    ensures
        value == table@.get(key),
{
    table.get(&key).copied()
}

/// `iter` on an [`FxHashMap`] with integer keys, each pair copied out: every
/// pair of the map exactly once. Nothing is claimed of their order.
#[verifier::external_body]
fn fx_pairs<V: Copy>(table: &FxHashMap<u128, V>) -> (pairs: Vec<(u128, V)>)
    ensures
        lists(pairs@, table@),
{
    table.iter().map(|(key, value)| (*key, *value)).collect()
}

/// Where the chain behind a worker's cross-worker hit count starts.
#[derive(Debug, Clone, Copy, PartialEq, Eq, Structural)]
pub struct CrossWorkerAnchor {
    /// Position in the request's blocks at which the chain's first block stands.
    pub start_pos: usize,
    /// Block that the chain hangs off, or `None` for a chain that starts at the root.
    pub parent_hash: Option<ExternalSequenceBlockHash>,
}

/// A map from worker to [`CrossWorkerAnchor`].
///
/// The entries sit in an [`FxHashMap`] under the workers' codes.
#[derive(Debug)]
pub struct AnchorMap {
    inner: FxHashMap<u128, CrossWorkerAnchor>,
}

impl View for AnchorMap {
    type V = Map<WorkerWithDpRank, CrossWorkerAnchor>;

    closed spec fn view(&self) -> Map<WorkerWithDpRank, CrossWorkerAnchor> {
        Map::new(
            |w: WorkerWithDpRank| self.inner@.contains_key(w.code()),
            |w: WorkerWithDpRank| self.inner@[w.code()],
        )
    }
}

impl AnchorMap {
    #[verifier::type_invariant]
    spec fn keys_are_codes(self) -> bool {
        forall|c: u128| #[trigger] self.inner@.contains_key(c) ==> c < CODE_SPAN
    }

    /// The map without entries.
    pub fn new() -> (map: Self)
        ensures
            map@ == Map::<WorkerWithDpRank, CrossWorkerAnchor>::empty(),
    {
        let map = AnchorMap { inner: FxHashMap::default() };
        assert(map@ =~= Map::<WorkerWithDpRank, CrossWorkerAnchor>::empty());
        map
    }

    /// Maps `worker` to `anchor`, in place of what it was mapped to before.
    pub fn insert(&mut self, worker: WorkerWithDpRank, anchor: CrossWorkerAnchor)
        ensures
            final(self)@ == old(self)@.insert(worker, anchor),
    {
        proof {
            use_type_invariant(&*self);
        }
        let code = worker.to_code();
        let mut inner = FxHashMap::default();
        std::mem::swap(&mut inner, &mut self.inner);
        fx_insert(&mut inner, code, anchor);
        self.inner = inner;
        proof {
            assert forall|w: WorkerWithDpRank| w.code() == code implies w == worker by {
                w.lemma_code_is_injective(worker);
            }
            assert(self@ =~= old(self)@.insert(worker, anchor));
        }
    }

    /// What `worker` is mapped to.
    pub fn get(&self, worker: WorkerWithDpRank) -> (anchor: Option<CrossWorkerAnchor>)
        ensures
            anchor == self@.get(worker),
    {
        fx_get(&self.inner, worker.to_code())
    }

    /// The map with the pairs of `entries`; of several pairs for one worker the
    /// last one counts.
    pub fn from_entries(entries: &[(WorkerWithDpRank, CrossWorkerAnchor)]) -> (map: Self)
        ensures
            map@ == from_pairs(entries@),
    {
        let mut map = AnchorMap::new();
        assert(entries@.take(0) =~= Seq::<(WorkerWithDpRank, CrossWorkerAnchor)>::empty());
        for i in 0..entries.len()
            invariant
                map@ == from_pairs(entries@.take(i as int)),
        {
            assert(entries@.take(i + 1).drop_last() =~= entries@.take(i as int));
            let (worker, value) = entries[i];
            map.insert(worker, value);
        }
        assert(entries@.take(entries@.len() as int) =~= entries@);
        map
    }

    /// All entries, in no particular order.
    pub fn entries(&self) -> (entries: Vec<(WorkerWithDpRank, CrossWorkerAnchor)>)
        ensures
            lists(entries@, self@),
    {
        proof {
            use_type_invariant(self);
        }
        let pairs = fx_pairs(&self.inner);
        let mut entries: Vec<(WorkerWithDpRank, CrossWorkerAnchor)> = Vec::new();
        for i in 0..pairs.len()
            invariant
                self.keys_are_codes(),
                lists(pairs@, self.inner@),
                entries@.len() == i,
                forall|k: int|
                    0 <= k < i ==> (#[trigger] entries@[k]).0.code() == pairs@[k].0
                        && entries@[k].1 == pairs@[k].1,
        {
            let (code, anchor) = pairs[i];
            entries.push((WorkerWithDpRank::from_code(code), anchor));
        }
        proof {
            assert forall|w: WorkerWithDpRank| #[trigger]
                self@.contains_key(w) implies entries@.contains((w, self@[w])) by {
                let c = w.code();
                assert(self.inner@.contains_key(c));
                let i = choose|i: int| 0 <= i < pairs@.len() && pairs@[i] == (c, self.inner@[c]);
                entries@[i].0.lemma_code_is_injective(w);
                assert(entries@[i] == (w, self@[w]));
            }
        }
        entries
    }
}

impl Clone for AnchorMap {
    fn clone(&self) -> (copy: Self)
        ensures
            copy@ == self@,
    {
        proof {
            use_type_invariant(self);
        }
        AnchorMap { inner: self.inner.clone() }
    }
}

} // verus!
