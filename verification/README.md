# kv_router

Verified matching of requests against KV-cache blocks below the device, and
planning of pulls between workers.

- `src/protocols.rs`: identifiers shared by everything else.
- `src/worker_map.rs`, `src/tier_map.rs`, `src/indexer/anchor_map.rs`: maps keyed
  by worker and by storage tier.
- `src/indexer/lower_tier.rs`: the block index of one tier.
- `src/indexer/lower_tier_indexers.rs`: the registry of tiers and the walk
  through them.
- `src/indexer/wire.rs`: matches as lists of pairs.
- `src/remote_g2_plan.rs`: the choice of a source and a window to pull.
- `src/indexer/laws.rs`, `src/plan_laws.rs`: what holds of these as a whole.
- `app/`: the serialized plan, and a registry that threads share.

What the proofs rest on beside Verus and vstd: `insert`, `get` and `iter` of an
`FxHashMap` with integer keys, and `Arc::clone`.
