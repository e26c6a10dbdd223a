# lib_storage

The verified core of a distributed storage layer, written in Verus.

`src/` is the library. Every function in it is verified against its
contract, except five small trusted wrappers (the system clock, `blake3`, `hex`
and `uuid`), whose contracts Verus takes as given:

- `quorum` — read/write quorum configurations and quorum checks over a set of
  replica nodes; read and write quorums always intersect.
- `erasure` — Reed-Solomon coding over GF(2^8): field arithmetic with its
  algebraic laws, Vandermonde encoding, Gauss-Jordan inversion and decoding;
  decoding any sufficient set of encoded shards gives the data back.
- `routing` — a Kademlia routing table of 160 k-buckets: XOR distance, bucket
  updates with least-recently-seen replacement, failure tracking, maintenance
  and nearest-node lookup; buckets never exceed `k` and lookups come back
  sorted by distance.
- `storage` — the local key-value store of a DHT node: write permissions,
  capacity accounting, expiry, replication bookkeeping; the usage always equals
  the total size of the stored values.
- `proofs` — structural checks of the zero-knowledge proofs attached to
  stored values.
- `network` — the answer to each incoming DHT request, and message
  identifiers.
- `contracts` — storage contracts between clients and providers: a contract
  is created as a draft and becomes active, with performance monitoring
  started, once both parties have signed; payments, per-node contract counts,
  statistics, and the whole-number checks of SLA measurements.
- `types`, `clock`, `hashing`, `encoding` — shared types, and the calls into
  the system clock, `blake3` and `hex`, each behind a small trusted wrapper.

`app/` holds what Verus does not check: UDP networking, `bincode` wire
encoding, entropy and other floating-point figures (including the SLA
monitoring of contracts, whose uptimes and scores are floating-point), and
replication over the network. `tests/` exercises the library.
