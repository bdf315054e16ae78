# axia_runtime

Verified scheduling and registration logic of the Axia relay chain, written in Verus.

- `src/scheduler.rs`: availability cores, validator groups and their rotation, the
  allythread claim queue, and scheduling, occupying, freeing and clearing cores. The
  state is a plain struct; what other runtime modules know (the allychains, the live
  allythreads, the host configuration, the block number) is passed in.
- `src/claims.rs`: the allythread claims the scheduler holds (queued, scheduled, or
  occupying a core) and the claim index that lets each allythread hold at most one;
  every scheduler operation keeps the index sound.
- `src/paras_registrar.rs`: reserving, registering, deregistering, swapping and locking
  allies, and the deposits held for them. An operation decides without writing: it
  names the call into another runtime module that may still refuse it (a deposit
  reservation, a lifecycle change), the changes to the registrar's state, and the calls
  to make afterwards. `Pallet::commit` takes the outcome of that first call and either
  refuses the operation, writing nothing, or applies the changes.
- `src/weights.rs`: benchmarked weights of the allychains inherent.
- `src/consensus.rs`: rejections of the Ethereum-log block import.
- `src/relay.rs`: the chains each headers-relay bridge connects, and chain settings.
- `src/primitives.rs`: shared value types and the host configuration.

Every public function carries a contract; invariants that span operations (sorted
schedule and claim index, a sound claim index, earlier assignments kept in order by
scheduling, a queue consistent with the allythread cores, the validator partition, group
rotation, deposit accounting, refused operations writing nothing, two-sided swaps,
manager locks) are stated and proved as proof functions or as clauses of the
operations' contracts.
