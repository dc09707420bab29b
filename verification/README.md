# hyle

Verified parts of a Hyli node, written in Verus: the rules, data
structures and bookkeeping that the node's services apply. The services
themselves (consensus, networking, the REST and database layers) are not
part of this crate.

- `src/model`: names, hashes and transactions; contract-name registration
  rules; consensus proposals and their hash; native verifiers.
- `src/node_state`: unsettled transactions and their per-contract order,
  timeouts, the check of a proof's output against its blob transaction,
  the settlement of blob transactions against the registered contracts
  (including the rules of the 'hyle' contract), and what a settled
  transaction records in the block being built; the node state itself and
  how a signed block moves it forward (`state.rs`), stated as a function
  from state and block to the new state and the block built.
- `src/mempool`: the fee checks of blob transactions, the contracts the
  mempool knows, which data proposal of the own lane to send next, and the
  lanes kept in memory with their cleanup after a cut.
- `src/indexer`: the byte layout of stored records, their keys, the sled
  trees that hold blocks, blobs, proofs, contract registrations and
  transactions (stated over what each tree holds), and the rows that
  indexing a processed block writes. The stores are opened together by
  `IndexerDb::new` alone, each on trees that no other store uses. The
  contracts of the stores assume that nothing else writes to those trees
  while they are open: the crate keeps no second handle on them, and a
  caller must not open the same trees through another sled handle.
- `src/p2p`, `src/modules`: message headers, the filter of recently seen
  messages, websocket messages.
- `app/main.rs`: command-line entry that opens the indexer's store.

`tests/` runs the library on concrete values.
