# sand

A node of a Raft-replicated key-value store. The verified library holds the
node's decisions and bookkeeping; `app/` holds what drives the storage side
of it: RocksDB, the Raft storage actor and its snapshot files.

- `src/network/network.rs`: what a node knows of the cluster (its identity,
  peers, connections, cut-off nodes, leader) and the decisions taken on it:
  registering peers, disconnections, where client requests, membership
  changes and Raft messages go.
- `src/raft/storage.rs`: the storage engine: the writes it asks for, the hard
  state, snapshots, the node set kept by the state machine, reading the log.
- `src/raft/log.rs`: the meaning of a log read (the entries from a start index
  up to, not including, a stop index, in index order) and the proof that a
  read gives back what was written.
- `src/rocksstore/keys.rs`: the key layout (`000` log, `001` applied, `002hs`
  hard state, `003` user data) with decimal indices, and its laws.
- `src/codec.rs`: the MessagePack encoding of stored values, byte for byte
  what rmp-serde writes for a string.
- `src/rocksstore/merge.rs`: the merge of stored values by concatenation.
- `src/utils.rs`: node identities from addresses.
- `app/`: the RocksDB database (under `/tmp/rocksdb`), the Raft storage
  actor, snapshot files, and the bodies of the HTTP routes: `/get/{key}`
  answers `true` when the key is stored on this node and `false` when not.
