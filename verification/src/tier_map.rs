//! A hash map keyed by storage tier.

use std::collections::hash_map::Entry;
use std::collections::HashMap;

use vstd::prelude::*;

use crate::listing::lists;
use crate::protocols::StorageTier;

verus! {

broadcast use vstd::std_specs::hash::group_hash_axioms;

/// A map from [`StorageTier`] to `V`.
///
/// The entries sit in a [`HashMap`] under one small number per tier.
#[derive(Debug, Clone)]
pub struct TierMap<V> {
    inner: HashMap<u8, V>,
}

spec fn slot(tier: StorageTier) -> u8 {
    match tier {
        StorageTier::Device => 0,
        StorageTier::HostPinned => 1,
        StorageTier::Disk => 2,
        StorageTier::External => 3,
    }
}

fn slot_of(tier: StorageTier) -> (s: u8)
    ensures
        s == slot(tier),
{
    match tier {
        StorageTier::Device => 0,
        StorageTier::HostPinned => 1,
        StorageTier::Disk => 2,
        StorageTier::External => 3,
    }
}

impl<V> View for TierMap<V> {
    type V = Map<StorageTier, V>;

    closed spec fn view(&self) -> Map<StorageTier, V> {
        Map::new(
            |t: StorageTier| self.inner@.contains_key(slot(t)),
            |t: StorageTier| self.inner@[slot(t)],
        )
    }
}

impl<V> TierMap<V> {
    /// The map without entries.
    pub fn new() -> (map: Self)
        ensures
            map@ == Map::<StorageTier, V>::empty(),
    {
        let map = TierMap { inner: HashMap::new() };
        assert(map@ =~= Map::<StorageTier, V>::empty());
        map
    }

    /// Maps `tier` to `value`, in place of what it was mapped to before, which
    /// is handed back.
    pub fn insert(&mut self, tier: StorageTier, value: V) -> (previous: Option<V>)
        ensures
            final(self)@ == old(self)@.insert(tier, value),
            previous == old(self)@.get(tier),
    {
        let previous = self.inner.insert(slot_of(tier), value);
        assert(self@ =~= old(self)@.insert(tier, value));
        previous
    }

    /// What `tier` is mapped to.
    pub fn get(&self, tier: StorageTier) -> (value: Option<&V>)
        ensures
            value == (if self@.contains_key(tier) {
                Some(&self@[tier])
            } else {
                None
            }),
    {
        self.inner.get(&slot_of(tier))
    }

    /// What `tier` is mapped to, after mapping it to what `create` gives if it
    /// was not mapped to anything. `create` is called in that case only.
    pub fn get_or_insert_with<F: FnOnce() -> V>(&mut self, tier: StorageTier, create: F) -> (value:
        &mut V)
        requires
            !old(self)@.contains_key(tier) ==> create.requires(()),
        ensures
            old(self)@.contains_key(tier) ==> *value == old(self)@[tier],
            !old(self)@.contains_key(tier) ==> create.ensures((), *value),
            final(self)@ == old(self)@.insert(tier, *final(value)),
    {
        let ghost before = self@;
        let value = match self.inner.entry(slot_of(tier)) {
            Entry::Occupied(entry) => entry.into_mut(),
            Entry::Vacant(entry) => entry.insert(create()),
        };
        assert(after_borrow(self)@ =~= before.insert(tier, *final(value)));
        value
    }

    /// Whether the map has no entries.
    pub fn is_empty(&self) -> (empty: bool)
        ensures
            empty == (self@ == Map::<StorageTier, V>::empty()),
    {
        let mut empty = true;
        let tiers = all_tiers();
        for i in 0..4
            invariant
                forall|t: StorageTier| #[trigger] tiers@.contains(t),
                empty ==> forall|k: int| 0 <= k < i ==> !self@.contains_key(#[trigger] tiers@[k]),
                !empty ==> exists|t: StorageTier| self@.contains_key(t),
        {
            if self.get(tiers[i]).is_some() {
                empty = false;
            }
        }
        proof {
            if empty {
                assert forall|t: StorageTier| !self@.contains_key(t) by {
                    assert(tiers@.contains(t));
                }
                assert(self@ =~= Map::<StorageTier, V>::empty());
            }
        }
        empty
    }

    /// All entries, in no particular order.
    pub fn entries(&self) -> (entries: Vec<(StorageTier, &V)>)
        ensures
            lists(entries@, self@.map_values(|v: V| &v)),
    {
        let tiers = all_tiers();
        let mut entries: Vec<(StorageTier, &V)> = Vec::new();
        for i in 0..4
            invariant
                forall|t: StorageTier| #[trigger] tiers@.contains(t),
                tiers@.no_duplicates(),
                forall|k: int, l: int|
                    0 <= k < l < entries@.len() ==> (#[trigger] entries@[k]).0 != (
                    #[trigger] entries@[l]).0,
                forall|k: int|
                    0 <= k < entries@.len() ==> self@.contains_key((#[trigger] entries@[k]).0)
                        && *entries@[k].1 == self@[entries@[k].0],
                forall|k: int|
                    0 <= k < entries@.len() ==> tiers@.take(i as int).contains(
                        (#[trigger] entries@[k]).0,
                    ),
                forall|k: int|
                    0 <= k < i && self@.contains_key(#[trigger] tiers@[k]) ==> entries@.contains(
                        (tiers@[k], &self@[tiers@[k]]),
                    ),
        {
            let tier = tiers[i];
            let ghost before = entries@;
            match self.get(tier) {
                Some(value) => {
                    entries.push((tier, value));
                    proof {
                        assert(entries@.last() == (tier, value));
                        assert forall|e: (StorageTier, &V)| before.contains(
                            e,
                        ) implies #[trigger] entries@.contains(e) by {
                            let k = choose|k: int| 0 <= k < before.len() && before[k] == e;
                            assert(entries@[k] == e);
                        }
                        assert(!tiers@.take(i as int).contains(tier));
                    }
                },
                None => {},
            }
            proof {
                assert forall|t: StorageTier| tiers@.take(i as int).contains(
                    t,
                ) implies #[trigger] tiers@.take(i + 1).contains(t) by {
                    let k = choose|k: int| 0 <= k < i && tiers@.take(i as int)[k] == t;
                    assert(tiers@.take(i + 1)[k] == t);
                }
                assert(tiers@.take(i + 1)[i as int] == tier);
            }
        }
        assert forall|t: StorageTier| #[trigger] self@.contains_key(t) implies entries@.contains(
            (t, &self@[t]),
        ) by {
            assert(tiers@.contains(t));
        }
        entries
    }
}

fn all_tiers() -> (tiers: [StorageTier; 4])
    ensures
        tiers@.no_duplicates(),
        forall|t: StorageTier| #[trigger] tiers@.contains(t),
{
    let tiers = [
        StorageTier::Device,
        StorageTier::HostPinned,
        StorageTier::Disk,
        StorageTier::External,
    ];
    proof {
        assert forall|t: StorageTier| #[trigger] tiers@.contains(t) by {
            assert(tiers@[slot(t) as int] == t);
        }
    }
    tiers
}

} // verus!
