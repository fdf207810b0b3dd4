# vanargand

The canonical objects and the ledger-state building blocks of Vanargand, a
partition-tolerant ledger design, written in Verus: every function in `src/`
carries a contract, and Verus proves that the code meets it.

## Layout

- `src/codec.rs`: the canonical encoding. Every decoder accepts exactly the
  canonical encoding of the value it returns (it never normalises), and it
  accepts the encoding of every value its type admits. The types that carry a
  signature-scheme key or signature (`VerifyingKey`, `Signature`, and so
  `Device`, `Account`, `PendingRecovery`, `TxKind`, `TxBody`, `Transaction`,
  `AccountEquivocation`, `SignedHeader`, `ValidatorEquivocation`) are encoded
  here but have no decoder: how many bytes a key or a signature takes is the
  signature scheme's to say.
- `src/hash.rs`, `src/hash/domain.rs`: the 32-byte digest and domain-separated
  BLAKE3, the one outside function the library calls.
- `src/id.rs`, `src/amount.rs`, `src/name.rs`, `src/nonce.rs`: identifiers,
  amounts and fee splits, names, two-dimensional nonces and lane counters.
- `src/bech32.rs`, `src/bech32/round_trip.rs`, `src/address.rs`: Bech32m and
  `van1…` addresses; an address's text parses back to the address.
- `src/block.rs`, `src/block/params.rs`: block headers, the finality ladder and
  contestation windows counted in finalised height.
- `src/merkle.rs`, `src/smt.rs`: the list Merkle tree and the sparse Merkle
  tree, with inclusion and non-inclusion proofs that verify against the root.
- `src/keys.rs`, `src/account.rs`, `src/asset.rs`, `src/name_book.rs`,
  `src/slashing.rs`, `src/recovery.rs`, `src/sign.rs`, `src/tx.rs`: state
  keys, accounts, local assets, name registration, punished offences, social
  recovery, and transactions: their kinds and encodings, identifiers,
  structural checks, equivocation evidence and the partition grammar of
  provisional blocks.
- `src/ledger.rs`: the rules a transaction meets against the ledger: the
  envelope (version, chain, validity in finalised height, the partition
  grammar), the signing device's authority, the offline (nomad) credit of
  each device, and the VAN a transaction takes out; the account transitions
  for declaring the credit, revoking a device, bonding, unbonding and
  completing a recovery; and the ledger's errors.
- `src/ledger/state.rs`: the `Ledger` and `Ledger::apply`, which applies a
  transaction entirely or not at all: a refused transaction leaves the ledger
  exactly as it was, fee and nonce included. Its contract gives the answer for
  every input (the checks in order, then the kind's own rules) and what an
  accepted transaction does; `lemma_nomad_ceiling` shows that no run of
  applications lets a device spend more than its share of the offline credit,
  and `lemma_value_conserved` that an application creates no VAN: what the
  accounts it touches gain, with the fire, the pot and the bonds, sums to
  nothing.
  Equivocation evidence is judged by `Ledger::apply_with_verdict`, which takes
  what the signature scheme answered of the evidence's signatures; `apply`,
  without that answer, does not apply evidence. Channel (purse) kinds are
  answered `NotImplemented`: the channel book lives outside this library.
- `src/ledger/root.rs`: the state tree: every account, asset, ticker, name,
  commitment, recovery and offence, and the burn, pot and fee counters, as
  leaves of the sparse Merkle tree whose root `Ledger::state_root` returns.
- `src/sorted_map.rs`: maps and sets held as vectors in strictly ascending
  key order, so that iteration order is a function of the contents. They
  stand where `BTreeMap` and `BTreeSet` would: vstd specifies those only for
  keys whose comparison carries a specification, and the keys here are the
  library's own identifier and offence types, whose order is a derived `Ord`
  that Verus does not read. Each key instead gives its order as bytes
  (`SortKey`), and the ascending order is an invariant proved of every
  operation.
- `tests/`: scenarios run against the compiled library.
