# occ

An optimistic concurrency control engine after Kung and Robinson (1981),
written in Verus. Transactions read from a sharded store, buffer their
writes, and are validated at commit against the transactions that
committed since they started (and, in the parallel engine, against those
validating beside them).

- `src/storage.rs`: the store, split into shards behind reader-writer locks,
  with the per-shard lookup and batch application proved exact.
- `src/transaction.rs`: transactions: read sets, buffered writes,
  read-your-own-writes.
- `src/engine/history.rs`: the commit history and the registry of live
  snapshots: validation, commit numbering, pruning.
- `src/engine/batch.rs`: turning a write set into a batch for the store.
- `src/engine/serial.rs`, `src/engine/parallel.rs`: the two engines.
- `app/`: the error type with messages, for callers that report errors.

The engines share their state between threads through `vstd`'s verified
reader-writer lock, whose contents are known only through its invariant;
what a commit decides is stated exactly by the functions that run on the
state taken out of the lock: `SerialEngine::commit_locked` for the serial
engine, and, for the parallel one, `enter_validation` (what validation is
checked against), `validate` (the decision) and
`ParallelEngineState::conclude` (from the decision to the result, the
recorded commit and leaving the registry), which the commit calls in turn.

Contracts over keys require `occ::key_model::<K>()`, which a verified
caller can establish for integer keys only. A transaction must be ended
with `Transaction::finish` (or dropped inside `app`'s `FinishOnDrop`) to
release its snapshot.
