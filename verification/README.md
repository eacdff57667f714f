# paras_inherent

The inherent that every relay chain block carries for its parachains: availability
bitfields, backed candidates and dispute votes. The library sanitizes it, cuts it down to
the weight that a block allows, and runs it against the other modules of a runtime. It is
written in Rust and verified with Verus.

## Layout

- `src/pallet.rs`: the module itself. Entering an inherent, creating one, and the hooks at
  the start and the end of a block. `src/stages.rs` holds the stages that an inherent goes
  through, `src/votes.rs` the votes that it leaves on chain, `src/block.rs` the weight limit
  and the entropy of a block.
- `src/disputes.rs`, `src/freed.rs`: which dispute votes are imported, and which cores
  become free.
- `src/bitfields.rs`: which availability bitfields count.
- `src/backing.rs`: making sure of backed candidates. `src/cores.rs` puts them on cores,
  `src/disabled.rs` drops the votes of disabled validators.
- `src/weight_limit.rs`, `src/selection.rs`, `src/rng.rs`: the random choice of what fits in
  a block.
- `src/runtime.rs`: what a runtime supplies. A runtime is a value, the state of its modules,
  that is handed on from call to call. Nothing is assumed of an implementation. Contracts
  speak of its answers through `call_ensures`, and name the states that calls start from and
  lead to.
- `src/totals.rs`, `src/retain.rs`, `src/weight.rs`: weights, and lists that are cut down.
- `src/pallet_decl.rs`: declarations of the modules that a runtime is made of. `app/` reads
  these off syntax trees.
- `src/bits.rs`: bit strings, kept in `bitvec` vectors.

Functions marked `Trusted` in their doc comments call other crates or the standard library.
Everything else is proved, together with the laws that stand as public proof functions
beside the code that they speak of.
