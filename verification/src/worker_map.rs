//! A hash map keyed by worker.

use std::collections::HashMap;

use vstd::prelude::*;

use crate::listing::{from_pairs, lists};
use crate::protocols::{WorkerWithDpRank, CODE_SPAN};

verus! {

broadcast use vstd::std_specs::hash::group_hash_axioms;

/// A map from [`WorkerWithDpRank`] to `V`.
///
/// The entries sit in a [`HashMap`] under the workers' codes.
#[derive(Debug)]
pub struct WorkerMap<V> {
    inner: HashMap<u128, V>,
}

impl<V> View for WorkerMap<V> {
    type V = Map<WorkerWithDpRank, V>;

    closed spec fn view(&self) -> Map<WorkerWithDpRank, V> {
        Map::new(
            |w: WorkerWithDpRank| self.inner@.contains_key(w.code()),
            |w: WorkerWithDpRank| self.inner@[w.code()],
        )
    }
}

impl<V> WorkerMap<V> {
    #[verifier::type_invariant]
    spec fn keys_are_codes(self) -> bool {
        forall|c: u128| #[trigger] self.inner@.contains_key(c) ==> c < CODE_SPAN
    }

    /// A map has finitely many entries.
    pub proof fn lemma_domain_is_finite(&self)
        ensures
            self@.dom().finite(),
    {
        let decoded = self.inner@.dom().map(|c: u128| decode(c));
        self.inner@.dom().lemma_map_finite(|c: u128| decode(c));
        assert forall|w: WorkerWithDpRank| self@.dom().contains(w) implies decoded.contains(
            w,
        ) by {
            w.lemma_code_is_injective(w);
            lemma_decode(w.code());
            decode(w.code()).lemma_code_is_injective(w);
            assert(self.inner@.dom().contains(w.code()));
        }
        vstd::set_lib::lemma_set_subset_finite(decoded, self@.dom());
    }

    /// The map without entries.
    pub fn new() -> (map: Self)
        ensures
            map@ == Map::<WorkerWithDpRank, V>::empty(),
    {
        let map = WorkerMap { inner: HashMap::new() };
        assert(map@ =~= Map::<WorkerWithDpRank, V>::empty());
        map
    }

    /// Maps `worker` to `value`, in place of what it was mapped to before.
    pub fn insert(&mut self, worker: WorkerWithDpRank, value: V)
        ensures
            final(self)@ == old(self)@.insert(worker, value),
    {
        proof {
            use_type_invariant(&*self);
        }
        let code = worker.to_code();
        let mut inner = HashMap::new();
        std::mem::swap(&mut inner, &mut self.inner);
        inner.insert(code, value);
        self.inner = inner;
        proof {
            assert forall|w: WorkerWithDpRank| w.code() == code implies w == worker by {
                w.lemma_code_is_injective(worker);
            }
            assert(self@ =~= old(self)@.insert(worker, value));
        }
    }

    pub fn contains_key(&self, worker: WorkerWithDpRank) -> (found: bool)
        ensures
            found == self@.contains_key(worker),
    {
        self.inner.contains_key(&worker.to_code())
    }

    /// Whether the map has no entries.
    pub fn is_empty(&self) -> (empty: bool)
        ensures
            empty == (self@ == Map::<WorkerWithDpRank, V>::empty()),
    {
        let empty = self.inner.is_empty();
        proof {
            use_type_invariant(self);
            if empty {
                assert(self@ =~= Map::<WorkerWithDpRank, V>::empty());
            } else {
                let c = choose|c: u128| self.inner@.contains_key(c);
                assert(self.inner@.contains_key(c)) by {
                    if forall|c: u128| !self.inner@.contains_key(c) {
                        assert(self.inner@ =~= Map::<u128, V>::empty());
                    }
                }
                let w = decode(c);
                lemma_decode(c);
                assert(self@.contains_key(w));
            }
        }
        empty
    }
}

impl<V: Copy> WorkerMap<V> {
    /// What `worker` is mapped to.
    pub fn get(&self, worker: WorkerWithDpRank) -> (value: Option<V>)
        ensures
            value == self@.get(worker),
    {
        match self.inner.get(&worker.to_code()) {
            Some(value) => Some(*value),
            None => None,
        }
    }

    /// The map with the pairs of `entries`; of several pairs for one worker the
    /// last one counts.
    pub fn from_entries(entries: &[(WorkerWithDpRank, V)]) -> (map: Self)
        ensures
            map@ == from_pairs(entries@),
    {
        let mut map = WorkerMap::new();
        assert(entries@.take(0) =~= Seq::<(WorkerWithDpRank, V)>::empty());
        for i in 0..entries.len()
            invariant
                map@ == from_pairs(entries@.take(i as int)),
        {
            assert(entries@.take(i + 1).drop_last() =~= entries@.take(i as int));
            let (worker, value) = entries[i];
            map.insert(worker, value);
        }
        assert(entries@.take(entries@.len() as int) =~= entries@);
        map
    }

    /// All entries, in no particular order.
    pub fn entries(&self) -> (entries: Vec<(WorkerWithDpRank, V)>)
        ensures
            lists(entries@, self@),
    {
        proof {
            use_type_invariant(self);
        }
        let mut entries: Vec<(WorkerWithDpRank, V)> = Vec::new();
        let pairs = self.inner.iter();
        let ghost items = vstd::std_specs::iter::IteratorSpec::remaining(&pairs);
        for pair in it: pairs
            invariant
                self.keys_are_codes(),
                it.seq() == items,
                items == vstd::std_specs::iter::IteratorSpec::remaining(
                    &vstd::std_specs::hash::spec_hash_map_iter(&self.inner),
                ),
                entries@.len() == it.index(),
                forall|i: int|
                    0 <= i < entries@.len() ==> (#[trigger] entries@[i]).0.code() == *items[i].0
                        && entries@[i].1 == *items[i].1,
        {
            assert(self.inner@.contains_key(*items[it.index()].0));
            entries.push((WorkerWithDpRank::from_code(*pair.0), *pair.1));
        }
        proof {
            assert(entries@.len() == items.len());
            assert forall|i: int, j: int| 0 <= i < j < entries@.len() implies (
            #[trigger] entries@[i]).0 != (#[trigger] entries@[j]).0 by {
                assert(self.inner@[*items[i].0] == *items[i].1);
                assert(self.inner@[*items[j].0] == *items[j].1);
                assert(items[i] != items[j]);
            }
            assert forall|i: int| 0 <= i < entries@.len() implies self@.contains_key(
                (#[trigger] entries@[i]).0,
            ) && self@[entries@[i].0] == entries@[i].1 by {
                assert(self.inner@.contains_key(*items[i].0));
            }
            assert forall|w: WorkerWithDpRank| #[trigger]
                self@.contains_key(w) implies entries@.contains((w, self@[w])) by {
                let c = w.code();
                assert(self.inner@.contains_key(c));
                assert(items.contains((&c, &self.inner@[c])));
                let i = choose|i: int| 0 <= i < items.len() && items[i] == (&c, &self.inner@[c]);
                entries@[i].0.lemma_code_is_injective(w);
                assert(entries@[i] == (w, self@[w]));
            }
        }
        entries
    }
}

impl<V: Copy> Clone for WorkerMap<V> {
    fn clone(&self) -> (copy: Self)
        ensures
            copy@ == self@,
    {
        proof {
            use_type_invariant(self);
        }
        WorkerMap { inner: self.inner.clone() }
    }
}

spec fn decode(c: u128) -> WorkerWithDpRank {
    choose|w: WorkerWithDpRank| w.code() == c
}

proof fn lemma_decode(c: u128)
    requires
        c < CODE_SPAN,
    ensures
        decode(c).code() == c,
{
    let w = WorkerWithDpRank {
        worker_id: (c / 0x1_0000_0000) as u64,
        dp_rank: (c % 0x1_0000_0000) as u32,
    };
    assert(w.code() == c);
}

} // verus!
