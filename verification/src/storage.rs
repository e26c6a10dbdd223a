//! Local key-value store of a DHT node, with capacity accounting, expiry,
//! access statistics and the rules that decide which writes are accepted.

use vstd::prelude::*;
use crate::clock::{unix_time_nanos, unix_time_secs};
use crate::encoding::{hex_encode, hex_lower};
use crate::hashing::{blake3_digest, blake3_hash};
use crate::routing::{
    bucket_index, closest_nodes, entries_after_failure, entries_after_response, entries_without, failed_count,
    full_count, non_empty_count, table_after_add, total_entries, with_nodes, xor_distance, KademliaRouter,
    RoutingError, RoutingStats,
};
use crate::proofs::{
    append_bytes, plonky2_view, same_bytes, storage_proof_inputs, verify_full_zk_proof, verify_generic_plonky2_proof, full_proof_valid,
    generic_plonky2_valid, Plonky2Proof, Plonky2ProofView, ZeroKnowledgeProof,
};
use crate::types::{copy_bytes, AccessLevel, DhtMessage, DhtMessageType, DhtNode, DhtNodeView, Hash256, NodeId, StorageTier};

verus! {

/// Largest value accepted by the store, in bytes (10 MiB).
pub const MAX_VALUE_SIZE: usize = 10485760;

/// Values above this size (1 MiB) need a proof to be stored.
pub const PROOF_FREE_VALUE_SIZE: usize = 1048576;

/// Bytes of metadata counted against capacity for each write.
pub const METADATA_OVERHEAD: u64 = 256;

/// Longest accepted key, in bytes.
pub const MAX_KEY_LEN: usize = 256;

/// A zero-knowledge proof attached to a stored value.
#[derive(Debug, Clone)]
pub struct ZkProof {
    /// Name of the proof system.
    pub proof_system: String,
    /// The proof itself.
    pub proof_data: Vec<u8>,
    /// Public inputs of the proof.
    pub public_inputs: Vec<u8>,
    /// Verification key.
    pub verification_key: Vec<u8>,
    /// The Plonky2 form of the proof, if any.
    pub plonky2_proof: Option<Plonky2Proof>,
}

/// The content of a `ZkProof`.
pub struct ZkProofView {
    pub proof_system: Seq<char>,
    pub proof_data: Seq<u8>,
    pub public_inputs: Seq<u8>,
    pub verification_key: Seq<u8>,
    pub plonky2_proof: Option<Plonky2ProofView>,
}

impl View for ZkProof {
    type V = ZkProofView;

    open spec fn view(&self) -> ZkProofView {
        ZkProofView {
            proof_system: self.proof_system@,
            proof_data: self.proof_data@,
            public_inputs: self.public_inputs@,
            verification_key: self.verification_key@,
            plonky2_proof: plonky2_view(self.plonky2_proof),
        }
    }
}

impl ZkProof {
    /// Whether the proof carries no proof data.
    pub fn is_empty(&self) -> (b: bool)
        ensures
            b == (self@.proof_data.len() == 0),
    {
        self.proof_data.len() == 0
    }
}

/// The view of an optional proof.
pub open spec fn proof_view(p: Option<ZkProof>) -> Option<ZkProofView> {
    match p {
        Some(q) => Some(q@),
        None => None,
    }
}

/// Metadata of a stored chunk.
#[derive(Debug, Clone)]
pub struct ChunkMetadata {
    /// Chunk identifier (the storage key).
    pub chunk_id: String,
    /// Size of the value in bytes.
    pub size: u64,
    /// Checksum of the value, bound to the storing node.
    pub checksum: Vec<u8>,
    /// Storage tier.
    pub tier: StorageTier,
    /// Nodes holding the chunk.
    pub location: Vec<NodeId>,
    /// Number of reads.
    pub access_count: u64,
    /// Time of the last read (seconds since the Unix epoch).
    pub last_access: u64,
    /// Compression algorithm, if any.
    pub compression_algorithm: Option<String>,
}

/// The content of a `ChunkMetadata`.
pub struct ChunkMetadataView {
    pub chunk_id: Seq<char>,
    pub size: u64,
    pub checksum: Seq<u8>,
    pub tier: StorageTier,
    pub location: Seq<Seq<u8>>,
    pub access_count: u64,
    pub last_access: u64,
    pub has_compression: bool,
}

impl View for ChunkMetadata {
    type V = ChunkMetadataView;

    open spec fn view(&self) -> ChunkMetadataView {
        ChunkMetadataView {
            chunk_id: self.chunk_id@,
            size: self.size,
            checksum: self.checksum@,
            tier: self.tier,
            location: self.location@.map_values(|n: NodeId| n@),
            access_count: self.access_count,
            last_access: self.last_access,
            has_compression: self.compression_algorithm is Some,
        }
    }
}

/// A stored key-value pair.
#[derive(Debug, Clone)]
pub struct StorageEntry {
    /// Storage key.
    pub key: String,
    /// Stored value.
    pub value: Vec<u8>,
    /// Storage time (seconds since the Unix epoch).
    pub timestamp: u64,
    /// Expiry time, if any.
    pub expiry: Option<u64>,
    /// Chunk metadata.
    pub metadata: ChunkMetadata,
    /// Proof attached to the value, if any.
    pub proof: Option<ZkProof>,
    /// Nodes holding replicas.
    pub replicas: Vec<NodeId>,
    /// Access control information, if any.
    pub access_control: Option<String>,
}

/// The content of a `StorageEntry`.
pub struct StorageEntryView {
    pub key: Seq<char>,
    pub value: Seq<u8>,
    pub timestamp: u64,
    pub expiry: Option<u64>,
    pub metadata: ChunkMetadataView,
    pub proof: Option<ZkProofView>,
    pub replicas: Seq<Seq<u8>>,
    pub has_access_control: bool,
}

impl View for StorageEntry {
    type V = StorageEntryView;

    open spec fn view(&self) -> StorageEntryView {
        StorageEntryView {
            key: self.key@,
            value: self.value@,
            timestamp: self.timestamp,
            expiry: self.expiry,
            metadata: self.metadata@,
            proof: proof_view(self.proof),
            replicas: self.replicas@.map_values(|n: NodeId| n@),
            has_access_control: self.access_control is Some,
        }
    }
}

/// The views of a sequence of storage entries.
pub open spec fn store_view(s: Seq<StorageEntry>) -> Seq<StorageEntryView> {
    s.map_values(|e: StorageEntry| e@)
}

/// Why the store refused an operation.
#[derive(Debug, Clone, Copy, PartialEq, Eq, Structural)]
pub enum StorageError {
    /// The key is empty or longer than 256 bytes.
    InvalidKey,
    /// The proof of a zero-knowledge value is not structurally valid.
    InvalidZkProof,
    /// The value is empty.
    EmptyValue,
    /// The value is larger than 10 MiB.
    ValueTooLarge,
    /// The key hashes into a reserved namespace.
    ReservedKey,
    /// The existing entry is protected and may not be overwritten.
    OverwriteDenied,
    /// The write would exceed the store's capacity.
    CapacityExceeded,
    /// The attached proof did not verify.
    ProofRejected,
    /// A proof is needed for this write and none was attached.
    ProofRequired,
    /// No entry has this key.
    KeyNotFound,
    /// The system clock reads before the Unix epoch.
    ClockBeforeEpoch,
    /// The routing table refused the node.
    Routing(RoutingError),
}

/// Storage statistics.
#[derive(Debug, Clone, Copy, PartialEq, Eq, Structural)]
pub struct StorageStats {
    pub total_entries: usize,
    pub total_size: u64,
    pub available_space: u64,
    pub max_capacity: u64,
    /// Sum of the read counts of all entries.
    pub total_accesses: u64,
}

/// What a storage message did to the store.
#[derive(Debug, Clone, PartialEq, Eq)]
pub enum StorageMessageOutcome {
    /// A value was stored under the key.
    Stored(String),
    /// Storing the value under the key failed.
    StoreFailed(String, StorageError),
    /// The requested key was found locally.
    Found(String),
    /// The requested key is not held locally.
    NotFound(String),
    /// This many known nodes are closest to the requested target.
    ClosestNodes(usize),
    /// The message asks nothing of the store.
    Ignored,
}

// ---------------------------------------------------------------------------
// Byte patterns of the storage rules.

/// Key prefixes that need a proof: "system:", "private:", "secure:".
pub open spec fn protected_prefixes() -> Seq<Seq<u8>> {
    seq![
        seq![115u8, 121, 115, 116, 101, 109, 58],
        seq![112u8, 114, 105, 118, 97, 116, 101, 58],
        seq![115u8, 101, 99, 117, 114, 101, 58],
    ]
}

/// Value contents that need a proof: "password", "private_key", "secret", "token".
pub open spec fn sensitive_patterns() -> Seq<Seq<u8>> {
    seq![
        seq![112u8, 97, 115, 115, 119, 111, 114, 100],
        seq![112u8, 114, 105, 118, 97, 116, 101, 95, 107, 101, 121],
        seq![115u8, 101, 99, 114, 101, 116],
        seq![116u8, 111, 107, 101, 110],
    ]
}

/// Reserved namespaces: "system", "node", "admin", "root".
pub open spec fn reserved_names() -> Seq<Seq<u8>> {
    seq![
        seq![115u8, 121, 115, 116, 101, 109],
        seq![110u8, 111, 100, 101],
        seq![97u8, 100, 109, 105, 110],
        seq![114u8, 111, 111, 116],
    ]
}

/// Whether `s` begins with `p`.
pub open spec fn starts_with(s: Seq<u8>, p: Seq<u8>) -> bool {
    p.len() <= s.len() && s.take(p.len() as int) == p
}

/// Whether `p` occurs in `s`.
pub open spec fn contains_pattern(s: Seq<u8>, p: Seq<u8>) -> bool {
    exists|i: int| 0 <= i && i + p.len() <= s.len() && #[trigger] s.subrange(i, i + p.len()) == p
}

/// The UTF-8 bytes of a key.
pub open spec fn key_bytes(key: Seq<char>) -> Seq<u8> {
    vstd::utf8::encode_utf8(key)
}

/// Whether the BLAKE3 digest of the key begins with the same 8 bytes as
/// the digest of one of the reserved names.
pub open spec fn is_reserved(key: Seq<char>) -> bool {
    exists|i: int| 0 <= i < reserved_names().len()
        && blake3_digest(key_bytes(key)).take(8) == #[trigger] blake3_digest(reserved_names()[i]).take(8)
}

/// Whether a write of `value` under `key` without a proof is refused: the
/// value is above 1 MiB, the key has a protected prefix, the value holds a
/// sensitive pattern, or the value has high entropy (likely encrypted).
pub open spec fn requires_proof(key: Seq<char>, value: Seq<u8>, high_entropy: bool) -> bool {
    ||| value.len() > PROOF_FREE_VALUE_SIZE
    ||| exists|i: int| 0 <= i < protected_prefixes().len() && starts_with(key_bytes(key), #[trigger] protected_prefixes()[i])
    ||| exists|i: int| 0 <= i < sensitive_patterns().len() && contains_pattern(value, #[trigger] sensitive_patterns()[i])
    ||| high_entropy
}

/// Whether an existing entry may be overwritten at time `now`: with a
/// non-empty proof always; without a proof when the entry has no proof or
/// has expired.
pub open spec fn may_overwrite(existing: StorageEntryView, attached: Option<ZkProofView>, now: u64) -> bool {
    match attached {
        Some(p) => p.proof_data.len() > 0,
        None => existing.proof is None || match existing.expiry {
            Some(e) => now > e,
            None => false,
        },
    }
}

/// Whether byte `i` on begins with `p`.
fn matches_at(s: &[u8], p: &[u8], i: usize) -> (b: bool)
    requires
        i + p@.len() <= s@.len(),
    ensures
        b == (s@.subrange(i as int, i + p@.len()) == p@),
{
    let n = s.len();
    let mut j: usize = 0;
    while j < p.len()
        invariant
            n == s@.len(),
            i + p@.len() <= s@.len(),
            j <= p@.len(),
            forall|m: int| 0 <= m < j ==> s@[i + m] == p@[m],
        decreases p@.len() - j,
    {
        if s[i + j] != p[j] {
            assert(s@.subrange(i as int, i + p@.len())[j as int] != p@[j as int]);
            return false;
        }
        j += 1;
    }
    assert(s@.subrange(i as int, i + p@.len()) =~= p@);
    true
}

/// Whether `s` begins with `p`.
pub fn bytes_start_with(s: &[u8], p: &[u8]) -> (b: bool)
    ensures
        b == starts_with(s@, p@),
{
    if p.len() > s.len() {
        return false;
    }
    let r = matches_at(s, p, 0);
    assert(s@.subrange(0, p@.len() as int) == s@.take(p@.len() as int));
    r
}

/// Whether `p` occurs in `s`.
pub fn bytes_contain(s: &[u8], p: &[u8]) -> (b: bool)
    ensures
        b == contains_pattern(s@, p@),
{
    if p.len() > s.len() {
        return false;
    }
    if p.len() == 0 {
        assert(s@.subrange(0int, 0int + p@.len()) =~= p@);
        return true;
    }
    let n = s.len();
    let last = n - p.len();
    let mut i: usize = 0;
    while i <= last
        invariant
            n == s@.len(),
            p@.len() >= 1,
            last + p@.len() == s@.len(),
            i <= last + 1,
            forall|m: int| 0 <= m < i ==> #[trigger] s@.subrange(m, m + p@.len()) != p@,
        decreases last + 1 - i,
    {
        if matches_at(s, p, i) {
            return true;
        }
        i += 1;
    }
    false
}

/// Index of the entry with key `key`, if any.
pub open spec fn find_key(s: Seq<StorageEntryView>, key: Seq<char>) -> Option<int> {
    if exists|i: int| 0 <= i < s.len() && #[trigger] s[i].key == key {
        Some(choose|i: int| 0 <= i < s.len() && #[trigger] s[i].key == key)
    } else {
        None
    }
}

/// No two entries share a key.
pub open spec fn keys_unique(s: Seq<StorageEntryView>) -> bool {
    forall|i: int, j: int| 0 <= i < s.len() && 0 <= j < s.len() && i != j ==> #[trigger] s[i].key != #[trigger] s[j].key
}

/// Total size of the stored values.
pub open spec fn values_size(s: Seq<StorageEntryView>) -> nat
    decreases s.len(),
{
    if s.len() == 0 {
        0
    } else {
        values_size(s.drop_last()) + s.last().value.len()
    }
}

/// Sum of the read counts of the entries.
pub open spec fn total_access_count(s: Seq<StorageEntryView>) -> nat
    decreases s.len(),
{
    if s.len() == 0 {
        0
    } else {
        total_access_count(s.drop_last()) + s.last().metadata.access_count as nat
    }
}

/// The checksum of `value` stored by node `local`:
/// `blake3(blake3(value) ++ local)`.
pub open spec fn checksum(value: Seq<u8>, local: Seq<u8>) -> Seq<u8> {
    blake3_digest(blake3_digest(value) + local)
}

/// The error, if any, of the permission checks on writing `value` under
/// `key` with proof `attached` into entries `s` at time `now`, in this order:
/// the key is 1 to 256 bytes, the value is not empty and at most 10 MiB, the
/// key is not reserved, and an existing entry under the key may be
/// overwritten.
pub open spec fn permission_error(
    s: Seq<StorageEntryView>,
    key: Seq<char>,
    value: Seq<u8>,
    attached: Option<ZkProofView>,
    now: u64,
) -> Option<StorageError> {
    if key_bytes(key).len() == 0 || key_bytes(key).len() > MAX_KEY_LEN {
        Some(StorageError::InvalidKey)
    } else if value.len() == 0 {
        Some(StorageError::EmptyValue)
    } else if value.len() > MAX_VALUE_SIZE {
        Some(StorageError::ValueTooLarge)
    } else if is_reserved(key) {
        Some(StorageError::ReservedKey)
    } else if (match find_key(s, key) {
        Some(p) => !may_overwrite(s[p], attached, now),
        None => false,
    }) {
        Some(StorageError::OverwriteDenied)
    } else {
        None
    }
}

/// The error, if any, of writing `value` under `key` with proof `attached`
/// into entries `s` holding `usage` bytes of at most `max`, at time `now`;
/// `proof_verified` is the verdict on the attached proof and `high_entropy`
/// whether the value looks encrypted. After the permission checks: the
/// value and 256 bytes of metadata fit, an attached proof verified, and a
/// write without proof does not need one.
pub open spec fn store_error(
    s: Seq<StorageEntryView>,
    usage: u64,
    max: u64,
    key: Seq<char>,
    value: Seq<u8>,
    attached: Option<ZkProofView>,
    proof_verified: bool,
    high_entropy: bool,
    now: u64,
) -> Option<StorageError> {
    if permission_error(s, key, value, attached, now) is Some {
        permission_error(s, key, value, attached, now)
    } else if usage + value.len() + METADATA_OVERHEAD > max {
        Some(StorageError::CapacityExceeded)
    } else if attached is Some && !proof_verified {
        Some(StorageError::ProofRejected)
    } else if attached is None && requires_proof(key, value, high_entropy) {
        Some(StorageError::ProofRequired)
    } else {
        None
    }
}

/// The error, if any, that the key and the value alone give: the key is
/// empty or longer than 256 bytes, the value is empty or larger than
/// 10 MiB, or the key is reserved.
pub open spec fn key_value_error(key: Seq<char>, value: Seq<u8>) -> Option<StorageError> {
    if key_bytes(key).len() == 0 || key_bytes(key).len() > MAX_KEY_LEN {
        Some(StorageError::InvalidKey)
    } else if value.len() == 0 {
        Some(StorageError::EmptyValue)
    } else if value.len() > MAX_VALUE_SIZE {
        Some(StorageError::ValueTooLarge)
    } else if is_reserved(key) {
        Some(StorageError::ReservedKey)
    } else {
        None
    }
}

/// The error, if any, of a write that is decided before any reading of
/// the clock: the key and value checks, and, where no entry has the key,
/// the capacity check and the need of a proof for a write without one.
pub open spec fn early_store_error(
    s: Seq<StorageEntryView>,
    usage: u64,
    max: u64,
    key: Seq<char>,
    value: Seq<u8>,
    has_proof: bool,
    high_entropy: bool,
) -> Option<StorageError> {
    if key_value_error(key, value) is Some {
        key_value_error(key, value)
    } else if find_key(s, key) is Some {
        None
    } else if usage + value.len() + METADATA_OVERHEAD > max {
        Some(StorageError::CapacityExceeded)
    } else if !has_proof && requires_proof(key, value, high_entropy) {
        Some(StorageError::ProofRequired)
    } else {
        None
    }
}

/// An error decided before the clock is read is the error of the write at
/// every time.
pub proof fn lemma_early_error_at_any_time(
    s: Seq<StorageEntryView>,
    usage: u64,
    max: u64,
    key: Seq<char>,
    value: Seq<u8>,
    attached: Option<ZkProofView>,
    proof_verified: bool,
    high_entropy: bool,
    now: u64,
)
    requires
        early_store_error(s, usage, max, key, value, attached is Some, high_entropy) is Some,
    ensures
        store_error(s, usage, max, key, value, attached, proof_verified, high_entropy, now)
            == early_store_error(s, usage, max, key, value, attached is Some, high_entropy),
{
}

/// The entry that a write of `value` under `key` by node `local` at time
/// `now` creates.
pub open spec fn new_entry(key: Seq<char>, value: Seq<u8>, attached: Option<ZkProofView>, local: Seq<u8>, now: u64) -> StorageEntryView {
    StorageEntryView {
        key,
        value,
        timestamp: now,
        expiry: None,
        metadata: ChunkMetadataView {
            chunk_id: key,
            size: value.len() as u64,
            checksum: checksum(value, local),
            tier: StorageTier::Hot,
            location: seq![local],
            access_count: 0,
            last_access: now,
            has_compression: false,
        },
        proof: attached,
        replicas: Seq::empty(),
        has_access_control: false,
    }
}

/// An entry after a read at time `now`: one more access, last read `now`.
pub open spec fn touched(e: StorageEntryView, now: u64) -> StorageEntryView {
    StorageEntryView {
        key: e.key,
        value: e.value,
        timestamp: e.timestamp,
        expiry: e.expiry,
        metadata: ChunkMetadataView {
            chunk_id: e.metadata.chunk_id,
            size: e.metadata.size,
            checksum: e.metadata.checksum,
            tier: e.metadata.tier,
            location: e.metadata.location,
            access_count: (e.metadata.access_count + 1) as u64,
            last_access: now,
            has_compression: e.metadata.has_compression,
        },
        proof: e.proof,
        replicas: e.replicas,
        has_access_control: e.has_access_control,
    }
}

/// Entries after putting `e`: it replaces the entry with its key, or is appended.
pub open spec fn entries_after_put(s: Seq<StorageEntryView>, e: StorageEntryView) -> Seq<StorageEntryView> {
    match find_key(s, e.key) {
        Some(p) => s.update(p, e),
        None => s.push(e),
    }
}

/// Whether an entry has expired at time `now`.
pub open spec fn expired(e: StorageEntryView, now: u64) -> bool {
    match e.expiry {
        Some(x) => now > x,
        None => false,
    }
}

/// The entries that have not expired at time `now`, in order.
pub open spec fn unexpired(s: Seq<StorageEntryView>, now: u64) -> Seq<StorageEntryView>
    decreases s.len(),
{
    if s.len() == 0 {
        s
    } else {
        let r = unexpired(s.drop_last(), now);
        if expired(s.last(), now) { r } else { r.push(s.last()) }
    }
}

/// The keys of the entries with fewer than `min` replicas, in order.
pub open spec fn under_replicated(s: Seq<StorageEntryView>, min: nat) -> Seq<Seq<char>>
    decreases s.len(),
{
    if s.len() == 0 {
        Seq::empty()
    } else {
        let r = under_replicated(s.drop_last(), min);
        if s.last().replicas.len() < min { r.push(s.last().key) } else { r }
    }
}

/// An entry with expiry `x`.
pub open spec fn with_expiry(e: StorageEntryView, x: u64) -> StorageEntryView {
    StorageEntryView {
        key: e.key,
        value: e.value,
        timestamp: e.timestamp,
        expiry: Some(x),
        metadata: e.metadata,
        proof: e.proof,
        replicas: e.replicas,
        has_access_control: e.has_access_control,
    }
}

/// An entry with replica nodes `replicas`.
pub open spec fn with_replicas(e: StorageEntryView, replicas: Seq<Seq<u8>>) -> StorageEntryView {
    StorageEntryView {
        key: e.key,
        value: e.value,
        timestamp: e.timestamp,
        expiry: e.expiry,
        metadata: e.metadata,
        proof: e.proof,
        replicas,
        has_access_control: e.has_access_control,
    }
}

/// The keys of the entries, in order.
pub open spec fn keys_of(s: Seq<StorageEntryView>) -> Seq<Seq<char>> {
    s.map_values(|e: StorageEntryView| e.key)
}

/// Sums over a prefix grow by the next entry.
proof fn lemma_store_take(s: Seq<StorageEntryView>, i: int, now: u64, min: nat)
    requires
        0 <= i < s.len(),
    ensures
        total_access_count(s.take(i + 1)) == total_access_count(s.take(i)) + s[i].metadata.access_count,
        unexpired(s.take(i + 1), now) == (if expired(s[i], now) { unexpired(s.take(i), now) } else { unexpired(s.take(i), now).push(s[i]) }),
        under_replicated(s.take(i + 1), min) == (if s[i].replicas.len() < min { under_replicated(s.take(i), min).push(s[i].key) } else { under_replicated(s.take(i), min) }),
{
    assert(s.take(i + 1).drop_last() =~= s.take(i));
}

/// The read count over a prefix is at most the read count over all entries.
proof fn lemma_access_prefix(s: Seq<StorageEntryView>, n: int)
    requires
        0 <= n <= s.len(),
    ensures
        total_access_count(s.take(n)) <= total_access_count(s),
    decreases s.len() - n,
{
    if n < s.len() {
        lemma_access_prefix(s, n + 1);
        lemma_store_take(s, n, 0, 0);
    } else {
        assert(s.take(n) =~= s);
    }
}

/// Names of the circuits whose proofs only the proof system can check:
/// "ZHTP-Optimized-StorageAccess" and "ZHTP-Optimized-DataIntegrity".
pub open spec fn circuit_storage_access() -> Seq<u8> {
    seq![90u8, 72, 84, 80, 45, 79, 112, 116, 105, 109, 105, 122, 101, 100, 45, 83, 116, 111, 114, 97, 103, 101, 65, 99, 99, 101, 115, 115]
}

pub open spec fn circuit_data_integrity() -> Seq<u8> {
    seq![90u8, 72, 84, 80, 45, 79, 112, 116, 105, 109, 105, 122, 101, 100, 45, 68, 97, 116, 97, 73, 110, 116, 101, 103, 114, 105, 116, 121]
}

pub open spec fn circuit_range() -> Seq<u8> {
    seq![90u8, 72, 84, 80, 45, 79, 112, 116, 105, 109, 105, 122, 101, 100, 45, 82, 97, 110, 103, 101]
}

pub open spec fn circuit_identity() -> Seq<u8> {
    seq![90u8, 72, 84, 80, 45, 79, 112, 116, 105, 109, 105, 122, 101, 100, 45, 73, 100, 101, 110, 116, 105, 116, 121]
}

/// The name of the general proof format that `verify_zk_proof` checks: "Plonky2".
pub open spec fn system_plonky2() -> Seq<u8> {
    seq![80u8, 108, 111, 110, 107, 121, 50]
}

/// The number of an access level: 0 public, 1 private, 2 restricted.
pub open spec fn access_level_number(a: AccessLevel) -> u64 {
    match a {
        AccessLevel::Public => 0,
        AccessLevel::Private => 1,
        AccessLevel::Restricted => 2,
    }
}

/// The public inputs that a proof for zero-knowledge value `v` held by node
/// `local` must begin with: the first 8 bytes of the access key (the digest
/// of the node and the digest of the data), the first 8 bytes of the
/// data's digest, and the access level twice, as big-endian 64-bit words.
pub open spec fn zk_value_inputs(encrypted_data: Seq<u8>, access_level: AccessLevel, local: Seq<u8>) -> Seq<u8> {
    let value_hash = blake3_digest(encrypted_data);
    let access_key = blake3_digest(local + value_hash);
    let level = crate::network::be_bytes(access_level_number(access_level));
    access_key.take(8) + value_hash.take(8) + level + level
}

/// The verdict on proof `p` for zero-knowledge value data `encrypted_data`
/// of access level `access_level`, held by node `local`, as far as the
/// proof's fields decide it: a Plonky2 proof of one of the four named
/// circuits is left to the proof system (`None`), one of another circuit
/// needs a non-empty proof and public inputs; without a Plonky2 proof, the
/// proof system must be "Plonky2", the public inputs and the verification
/// key must not be empty and the public inputs must begin with
/// `zk_value_inputs`, after which the proof system decides.
pub open spec fn zk_proof_verdict(p: ZkProofView, encrypted_data: Seq<u8>, access_level: AccessLevel, local: Seq<u8>) -> Option<bool> {
    match p.plonky2_proof {
        Some(q) => {
            let c = key_bytes(q.proof_system);
            if c == circuit_storage_access() || c == circuit_data_integrity() || c == circuit_range() || c == circuit_identity() {
                None
            } else {
                Some(q.proof.len() > 0 && q.public_inputs.len() > 0)
            }
        },
        None => {
            let expected = zk_value_inputs(encrypted_data, access_level, local);
            if key_bytes(p.proof_system) != system_plonky2() {
                Some(false)
            } else if p.public_inputs.len() == 0 || p.verification_key.len() == 0 {
                Some(false)
            } else if p.public_inputs.len() < expected.len() || p.public_inputs.take(expected.len() as int) != expected {
                Some(false)
            } else {
                None
            }
        },
    }
}

/// The verdict on storage proof `p` for `value` under `key` stored by node
/// `local` at time `nanos`, as far as the proof's fields decide it: a proof
/// without data, or whose public inputs do not begin with
/// `storage_proof_inputs`, is refused; a Plonky2 proof of another circuit
/// than the two above is judged by `generic_plonky2_valid`; `None` leaves
/// the verdict to the proof system.
pub open spec fn storage_proof_verdict(p: ZkProofView, key: Seq<char>, value: Seq<u8>, local: Seq<u8>, nanos: u64) -> Option<bool> {
    let expected = storage_proof_inputs(key, value, local, nanos);
    if p.proof_data.len() == 0 {
        Some(false)
    } else if p.public_inputs.len() < expected.len() || p.public_inputs.take(expected.len() as int) != expected {
        Some(false)
    } else {
        match p.plonky2_proof {
            Some(q) => if key_bytes(q.proof_system) == circuit_storage_access()
                || key_bytes(q.proof_system) == circuit_data_integrity() {
                None
            } else {
                Some(generic_plonky2_valid(q, expected))
            },
            None => None,
        }
    }
}

/// Whether the proof attached to a write of `value` under `key` by node
/// `local` at time `nanos` is accepted: no proof needs no verdict; a proof
/// is judged by `storage_proof_verdict`, and where that leaves the verdict
/// to the proof system, by `zk_system_verdict`.
pub open spec fn proof_accepted(
    attached: Option<ZkProofView>,
    key: Seq<char>,
    value: Seq<u8>,
    local: Seq<u8>,
    nanos: u64,
    zk_system_verdict: bool,
) -> bool {
    match attached {
        Some(p) => match storage_proof_verdict(p, key, value, local, nanos) {
            Some(v) => v,
            None => zk_system_verdict,
        },
        None => true,
    }
}

/// A value stored with a zero-knowledge proof of validity.
#[derive(Debug, Clone)]
pub struct ZkDhtValue {
    /// Encrypted content.
    pub encrypted_data: Vec<u8>,
    /// Proof of validity.
    pub validity_proof: ZeroKnowledgeProof,
    /// Access control proof requirements.
    pub access_requirements: Vec<String>,
    /// Encrypted content metadata.
    pub encrypted_metadata: Vec<u8>,
    /// Storage time.
    pub stored_at: u64,
    /// Expiry time, if any.
    pub expires_at: Option<u64>,
    /// Nonce.
    pub nonce: [u8; 32],
    /// Access level of the data.
    pub access_level: AccessLevel,
    /// Timestamp for ordering.
    pub timestamp: u64,
}

/// The proof of a stored value made from a proof in the general format.
pub open spec fn converted_proof(p: crate::proofs::ZeroKnowledgeProofView) -> ZkProofView {
    ZkProofView {
        proof_system: p.proof_system,
        proof_data: p.proof_data,
        public_inputs: p.public_inputs,
        verification_key: p.verification_key,
        plonky2_proof: p.plonky2_proof,
    }
}

/// The proof of a stored value made from a proof in the general format.
pub fn convert_to_zk_proof(zk: &ZeroKnowledgeProof) -> (r: ZkProof)
    ensures
        r@ == converted_proof(zk@),
{
    let plonky2_proof = match &zk.plonky2_proof {
        Some(q) => Some(q.duplicate()),
        None => None,
    };
    ZkProof {
        proof_system: zk.proof_system.clone(),
        proof_data: copy_bytes(&zk.proof_data),
        public_inputs: copy_bytes(&zk.public_inputs),
        verification_key: copy_bytes(&zk.verification_key),
        plonky2_proof,
    }
}

/// Known nodes after learning `n`: it replaces the node with its
/// identifier, or is appended.
pub open spec fn known_after_insert(k: Seq<DhtNodeView>, n: DhtNodeView) -> Seq<DhtNodeView> {
    if exists|i: int| 0 <= i < k.len() && #[trigger] k[i].id == n.id {
        k.update(choose|i: int| 0 <= i < k.len() && #[trigger] k[i].id == n.id, n)
    } else {
        k.push(n)
    }
}

/// Known nodes without the node with identifier `id`.
pub open spec fn known_without(k: Seq<DhtNodeView>, id: Seq<u8>) -> Seq<DhtNodeView> {
    if exists|i: int| 0 <= i < k.len() && #[trigger] k[i].id == id {
        k.remove(choose|i: int| 0 <= i < k.len() && #[trigger] k[i].id == id)
    } else {
        k
    }
}

/// The storage key of a content hash: its lowercase hexadecimal text.
pub open spec fn content_key(hash: Seq<u8>) -> Seq<char> {
    hex_lower(hash)
}

/// With distinct keys, the entry for `key` is the one at `p`.
proof fn lemma_find_key_at(s: Seq<StorageEntryView>, key: Seq<char>, p: int)
    requires
        keys_unique(s),
        0 <= p < s.len(),
        s[p].key == key,
    ensures
        find_key(s, key) == Some(p),
{
    let i = choose|i: int| 0 <= i < s.len() && #[trigger] s[i].key == key;
    assert(s[i].key == key);
    if i != p {
        assert(s[i].key != s[p].key);
    }
}

/// Replacing one entry changes the total size by the difference of sizes.
proof fn lemma_values_size_update(s: Seq<StorageEntryView>, p: int, e: StorageEntryView)
    requires
        0 <= p < s.len(),
    ensures
        values_size(s.update(p, e)) + s[p].value.len() == values_size(s) + e.value.len(),
        s[p].value.len() <= values_size(s),
    decreases s.len(),
{
    if p < s.len() - 1 {
        lemma_values_size_update(s.drop_last(), p, e);
        assert(s.update(p, e).drop_last() =~= s.drop_last().update(p, e));
    } else {
        assert(s.update(p, e).drop_last() =~= s.drop_last());
    }
}

/// Removing one entry lowers the total size by its size.
proof fn lemma_values_size_remove(s: Seq<StorageEntryView>, p: int)
    requires
        0 <= p < s.len(),
    ensures
        values_size(s.remove(p)) + s[p].value.len() == values_size(s),
    decreases s.len(),
{
    if p < s.len() - 1 {
        lemma_values_size_remove(s.drop_last(), p);
        assert(s.remove(p).drop_last() =~= s.drop_last().remove(p));
    } else {
        assert(s.remove(p) =~= s.drop_last());
    }
}

fn protected_prefixes_exec() -> (r: Vec<Vec<u8>>)
    ensures
        r@.len() == protected_prefixes().len(),
        forall|i: int| 0 <= i < r@.len() ==> (#[trigger] r@[i])@ == protected_prefixes()[i],
{
    let r = vec![
        vec![115u8, 121, 115, 116, 101, 109, 58],
        vec![112u8, 114, 105, 118, 97, 116, 101, 58],
        vec![115u8, 101, 99, 117, 114, 101, 58],
    ];
    assert(r@[0]@ =~= protected_prefixes()[0]);
    assert(r@[1]@ =~= protected_prefixes()[1]);
    assert(r@[2]@ =~= protected_prefixes()[2]);
    r
}

fn sensitive_patterns_exec() -> (r: Vec<Vec<u8>>)
    ensures
        r@.len() == sensitive_patterns().len(),
        forall|i: int| 0 <= i < r@.len() ==> (#[trigger] r@[i])@ == sensitive_patterns()[i],
{
    let r = vec![
        vec![112u8, 97, 115, 115, 119, 111, 114, 100],
        vec![112u8, 114, 105, 118, 97, 116, 101, 95, 107, 101, 121],
        vec![115u8, 101, 99, 114, 101, 116],
        vec![116u8, 111, 107, 101, 110],
    ];
    assert(r@[0]@ =~= sensitive_patterns()[0]);
    assert(r@[1]@ =~= sensitive_patterns()[1]);
    assert(r@[2]@ =~= sensitive_patterns()[2]);
    assert(r@[3]@ =~= sensitive_patterns()[3]);
    r
}

fn reserved_names_exec() -> (r: Vec<Vec<u8>>)
    ensures
        r@.len() == reserved_names().len(),
        forall|i: int| 0 <= i < r@.len() ==> (#[trigger] r@[i])@ == reserved_names()[i],
{
    let r = vec![
        vec![115u8, 121, 115, 116, 101, 109],
        vec![110u8, 111, 100, 101],
        vec![97u8, 100, 109, 105, 110],
        vec![114u8, 111, 111, 116],
    ];
    assert(r@[0]@ =~= reserved_names()[0]);
    assert(r@[1]@ =~= reserved_names()[1]);
    assert(r@[2]@ =~= reserved_names()[2]);
    assert(r@[3]@ =~= reserved_names()[3]);
    r
}

} // verus!

verus! {

/// Whether two digests agree on their first 8 bytes.
fn first_bytes_equal(a: &[u8; 32], b: &[u8; 32]) -> (r: bool)
    ensures
        r == (a@.take(8) == b@.take(8)),
{
    let mut j: usize = 0;
    while j < 8
        invariant
            j <= 8,
            a@.len() == 32,
            b@.len() == 32,
            forall|m: int| 0 <= m < j ==> a@[m] == b@[m],
        decreases 8 - j,
    {
        if a[j] != b[j] {
            assert(a@.take(8)[j as int] != b@.take(8)[j as int]);
            return false;
        }
        j += 1;
    }
    assert(a@.take(8) =~= b@.take(8));
    true
}

/// Whether the first 8 bytes of a key digest equal those of the digest of
/// one of the reserved names.
fn is_reserved_key(key_hash: &[u8; 32]) -> (b: bool)
    ensures
        b == exists|i: int| 0 <= i < reserved_names().len()
            && key_hash@.take(8) == #[trigger] blake3_digest(reserved_names()[i]).take(8),
{
    let names = reserved_names_exec();
    let mut i: usize = 0;
    while i < names.len()
        invariant
            i <= names@.len(),
            names@.len() == reserved_names().len(),
            forall|j: int| 0 <= j < names@.len() ==> (#[trigger] names@[j])@ == reserved_names()[j],
            forall|j: int| 0 <= j < i ==> key_hash@.take(8) != #[trigger] blake3_digest(reserved_names()[j]).take(8),
        decreases names@.len() - i,
    {
        let h = blake3_hash(names[i].as_slice());
        let same = first_bytes_equal(key_hash, &h);
        if same {
            return true;
        }
        i += 1;
    }
    false
}

/// Whether a write of `value` under `key` without a proof is refused (see
/// `requires_proof`); `high_entropy` tells whether the value looks encrypted.
pub fn requires_proof_for_storage(key: &str, value: &[u8], high_entropy: bool) -> (b: bool)
    ensures
        b == requires_proof(key@, value@, high_entropy),
{
    if value.len() > PROOF_FREE_VALUE_SIZE {
        return true;
    }
    let key_b = key.as_bytes();
    let prefixes = protected_prefixes_exec();
    let mut i: usize = 0;
    while i < prefixes.len()
        invariant
            i <= prefixes@.len(),
            key_b@ == key_bytes(key@),
            prefixes@.len() == protected_prefixes().len(),
            forall|j: int| 0 <= j < prefixes@.len() ==> (#[trigger] prefixes@[j])@ == protected_prefixes()[j],
            forall|j: int| 0 <= j < i ==> !starts_with(key_bytes(key@), #[trigger] protected_prefixes()[j]),
        decreases prefixes@.len() - i,
    {
        if bytes_start_with(key_b, prefixes[i].as_slice()) {
            return true;
        }
        i += 1;
    }
    let patterns = sensitive_patterns_exec();
    let mut i: usize = 0;
    while i < patterns.len()
        invariant
            i <= patterns@.len(),
            patterns@.len() == sensitive_patterns().len(),
            forall|j: int| 0 <= j < patterns@.len() ==> (#[trigger] patterns@[j])@ == sensitive_patterns()[j],
            forall|j: int| 0 <= j < i ==> !contains_pattern(value@, #[trigger] sensitive_patterns()[j]),
        decreases patterns@.len() - i,
    {
        if bytes_contain(value, patterns[i].as_slice()) {
            return true;
        }
        i += 1;
    }
    high_entropy
}

/// Whether `existing` may be overwritten at time `now` (see `may_overwrite`).
pub fn can_overwrite_entry(existing: &StorageEntry, attached: Option<&ZkProof>, now: u64) -> (b: bool)
    ensures
        b == may_overwrite(existing@, match attached { Some(p) => Some(p@), None => None }, now),
{
    if let Some(zk_proof) = attached {
        return !zk_proof.is_empty();
    }
    if existing.proof.is_none() {
        return true;
    }
    if let Some(expiry) = existing.expiry {
        if now > expiry {
            return true;
        }
    }
    false
}

} // verus!

verus! {

/// Position of the entry with key `key`, if any.
fn position_of_key(entries: &Vec<StorageEntry>, key: &String) -> (r: Option<usize>)
    ensures
        match r {
            Some(p) => p < entries@.len() && entries@[p as int].key@ == key@,
            None => forall|j: int| 0 <= j < entries@.len() ==> (#[trigger] entries@[j]).key@ != key@,
        },
{
    let mut i: usize = 0;
    while i < entries.len()
        invariant
            i <= entries@.len(),
            forall|j: int| 0 <= j < i ==> (#[trigger] entries@[j]).key@ != key@,
        decreases entries@.len() - i,
    {
        if entries[i].key == *key {
            return Some(i);
        }
        i += 1;
    }
    None
}

/// The key and value checks of a write (see `key_value_error`).
fn validate_key_value(key: &String, value: &[u8]) -> (r: Result<(), StorageError>)
    ensures
        match key_value_error(key@, value@) {
            Some(e) => r == Err::<(), StorageError>(e),
            None => r is Ok,
        },
{
    let key_b = key.as_str().as_bytes();
    if key_b.len() == 0 || key_b.len() > MAX_KEY_LEN {
        return Err(StorageError::InvalidKey);
    }
    if value.len() == 0 {
        return Err(StorageError::EmptyValue);
    }
    if value.len() > MAX_VALUE_SIZE {
        return Err(StorageError::ValueTooLarge);
    }
    let key_hash = blake3_hash(key_b);
    if is_reserved_key(&key_hash) {
        return Err(StorageError::ReservedKey);
    }
    Ok(())
}

/// The local key-value store of a DHT node, with its routing table and the
/// nodes it knows.
#[derive(Debug)]
pub struct DhtStorage {
    /// Stored entries, with distinct keys.
    entries: Vec<StorageEntry>,
    /// Capacity in bytes.
    max_storage_size: u64,
    /// Bytes of stored values.
    current_usage: u64,
    /// Local node identifier.
    local_node_id: NodeId,
    /// Kademlia routing table.
    router: KademliaRouter,
    /// Known DHT nodes, with distinct identifiers.
    known_nodes: Vec<DhtNode>,
}

impl DhtStorage {
    /// Well-formedness: distinct keys, usage equal to the total size of the
    /// values and within capacity, a well-formed routing table for the local
    /// node, distinct known nodes.
    pub closed spec fn wf(&self) -> bool {
        &&& keys_unique(self.spec_entries())
        &&& self.current_usage == values_size(self.spec_entries())
        &&& self.current_usage <= self.max_storage_size
        &&& self.router.wf()
        &&& self.router.spec_local_id() == self.local_node_id@
        &&& forall|i: int, j: int| 0 <= i < self.known_nodes@.len() && 0 <= j < self.known_nodes@.len() && i != j
            ==> #[trigger] self.known_nodes@[i].id@ != #[trigger] self.known_nodes@[j].id@
    }

    /// The stored entries.
    pub closed spec fn spec_entries(&self) -> Seq<StorageEntryView> {
        store_view(self.entries@)
    }

    /// Bytes in use.
    pub closed spec fn spec_usage(&self) -> u64 {
        self.current_usage
    }

    /// Capacity in bytes.
    pub closed spec fn spec_max(&self) -> u64 {
        self.max_storage_size
    }

    /// The local node identifier.
    pub closed spec fn spec_local_id(&self) -> Seq<u8> {
        self.local_node_id@
    }

    /// The routing table.
    pub closed spec fn spec_router(&self) -> KademliaRouter {
        self.router
    }

    /// The known nodes.
    pub closed spec fn spec_known(&self) -> Seq<DhtNodeView> {
        self.known_nodes@.map_values(|n: DhtNode| n@)
    }

    /// An empty store of capacity `max_storage_size` for node
    /// `local_node_id`, with a routing table of bucket size 20.
    pub fn new(local_node_id: NodeId, max_storage_size: u64) -> (s: DhtStorage)
        ensures
            s.wf(),
            s.spec_entries().len() == 0,
            s.spec_usage() == 0,
            s.spec_max() == max_storage_size,
            s.spec_local_id() == local_node_id@,
            s.spec_router().spec_local_id() == local_node_id@,
            s.spec_router().spec_k() == 20,
            forall|b: int| 0 <= b < s.spec_router().spec_table().len()
                ==> (#[trigger] s.spec_router().spec_table()[b]).nodes.len() == 0,
            s.spec_known().len() == 0,
    {
        let s = DhtStorage {
            entries: Vec::new(),
            max_storage_size,
            current_usage: 0,
            local_node_id,
            router: KademliaRouter::new(local_node_id, 20),
            known_nodes: Vec::new(),
        };
        assert(s.spec_entries() =~= Seq::<StorageEntryView>::empty());
        s
    }

    /// An empty store of 1 GB for the all-zero node identifier.
    pub fn new_default() -> (s: DhtStorage)
        ensures
            s.wf(),
            s.spec_entries().len() == 0,
            s.spec_usage() == 0,
            s.spec_max() == 1_000_000_000,
            s.spec_local_id() == Seq::new(32, |i: int| 0u8),
    {
        let zero = [0u8; 32];
        let id = Hash256::from_bytes(&zero);
        assert(zero@ =~= Seq::new(32, |i: int| 0u8));
        Self::new(id, 1_000_000_000)
    }

    /// The checksum of `data` as stored by this node.
    pub fn calculate_checksum(&self, data: &[u8]) -> (c: Vec<u8>)
        ensures
            c@ == checksum(data@, self.spec_local_id()),
    {
        let h = blake3_hash(data);
        let local = self.local_node_id.as_bytes();
        let mut joined: Vec<u8> = Vec::new();
        for i in 0..32
            invariant
                h@.len() == 32,
                joined@ == h@.take(i as int),
        {
            joined.push(h[i]);
            assert(h@.take(i + 1) =~= h@.take(i as int).push(h@[i as int]));
        }
        for i in 0..32
            invariant
                h@.len() == 32,
                local@ == self.spec_local_id(),
                local@.len() == 32,
                joined@ == h@ + local@.take(i as int),
        {
            joined.push(local[i]);
            assert(local@.take(i + 1) =~= local@.take(i as int).push(local@[i as int]));
            assert(h@ + local@.take(i + 1) =~= (h@ + local@.take(i as int)).push(local@[i as int]));
        }
        assert(h@.take(32) =~= h@);
        assert(local@.take(32) =~= local@);
        let h2 = blake3_hash(joined.as_slice());
        let mut c: Vec<u8> = Vec::new();
        for i in 0..32
            invariant
                h2@.len() == 32,
                c@ == h2@.take(i as int),
        {
            c.push(h2[i]);
            assert(h2@.take(i + 1) =~= h2@.take(i as int).push(h2@[i as int]));
        }
        assert(h2@.take(32) =~= h2@);
        c
    }

    /// The permission checks of a write (see `permission_error`).
    fn validate_storage_permissions(&self, key: &String, value: &[u8], attached: Option<&ZkProof>, now: u64) -> (r: Result<(), StorageError>)
        requires
            self.wf(),
        ensures
            match permission_error(self.spec_entries(), key@, value@,
                match attached { Some(p) => Some(p@), None => None }, now) {
                Some(e) => r == Err::<(), StorageError>(e),
                None => r is Ok,
            },
    {
        if let Err(e) = validate_key_value(key, value) {
            return Err(e);
        }
        match position_of_key(&self.entries, key) {
            Some(p) => {
                proof { lemma_find_key_at(self.spec_entries(), key@, p as int); }
                if !can_overwrite_entry(&self.entries[p], attached, now) {
                    return Err(StorageError::OverwriteDenied);
                }
            },
            None => {
                assert(find_key(self.spec_entries(), key@) is None);
            },
        }
        Ok(())
    }

    /// Write `value` under `key` at time `now` (`nanos` in nanoseconds),
    /// with proof `attached` and with `high_entropy` telling whether the
    /// value looks encrypted. The proof is judged here (see
    /// `proof_accepted`); `zk_system_verdict` is the proof system's verdict,
    /// used only where the proof's fields leave it open. The write is
    /// refused with the first error of `store_error`; otherwise a fresh entry
    /// replaces the entry under the key, or is appended, and the usage
    /// follows.
    pub fn store_at(
        &mut self,
        key: String,
        value: Vec<u8>,
        attached: Option<ZkProof>,
        zk_system_verdict: bool,
        high_entropy: bool,
        now: u64,
        nanos: u64,
    ) -> (r: Result<(), StorageError>)
        requires
            old(self).wf(),
        ensures
            final(self).wf(),
            final(self).spec_max() == old(self).spec_max(),
            final(self).spec_local_id() == old(self).spec_local_id(),
            final(self).spec_router() == old(self).spec_router(),
            final(self).spec_known() == old(self).spec_known(),
            match store_error(old(self).spec_entries(), old(self).spec_usage(), old(self).spec_max(), key@, value@,
                proof_view(attached), proof_accepted(proof_view(attached), key@, value@, old(self).spec_local_id(),
                nanos, zk_system_verdict), high_entropy, now) {
                Some(e) => r == Err::<(), StorageError>(e) && final(self).spec_entries() == old(self).spec_entries(),
                None => r is Ok && final(self).spec_entries() == entries_after_put(old(self).spec_entries(),
                    new_entry(key@, value@, proof_view(attached), old(self).spec_local_id(), now)),
            },
    {
        let ghost s = self.spec_entries();
        let ghost pv = proof_view(attached);
        let proof_verified = match &attached {
            Some(p) => match self.check_storage_proof(p, key.as_str(), value.as_slice(), nanos) {
                Some(v) => v,
                None => zk_system_verdict,
            },
            None => true,
        };
        let att_ref: Option<&ZkProof> = match &attached {
            Some(p) => Some(p),
            None => None,
        };
        assert(match att_ref { Some(p) => Some(p@), None => None } == pv);
        let check = self.validate_storage_permissions(&key, value.as_slice(), att_ref, now);
        if let Err(e) = check {
            return Err(e);
        }
        let value_size = value.len() as u64;
        let fits = match self.current_usage.checked_add(value_size) {
            Some(a) => match a.checked_add(METADATA_OVERHEAD) {
                Some(t) => t <= self.max_storage_size,
                None => false,
            },
            None => false,
        };
        if !fits {
            return Err(StorageError::CapacityExceeded);
        }
        if attached.is_some() {
            if !proof_verified {
                return Err(StorageError::ProofRejected);
            }
        } else if requires_proof_for_storage(key.as_str(), value.as_slice(), high_entropy) {
            return Err(StorageError::ProofRequired);
        }
        let sum = self.calculate_checksum(value.as_slice());
        let location = vec![self.local_node_id];
        assert(location@.map_values(|n: NodeId| n@) =~= seq![self.local_node_id@]);
        let ghost vv = value@;
        let entry = StorageEntry {
            key: key.clone(),
            value,
            timestamp: now,
            expiry: None,
            metadata: ChunkMetadata {
                chunk_id: key.clone(),
                size: value_size,
                checksum: sum,
                tier: StorageTier::Hot,
                location,
                access_count: 0,
                last_access: now,
                compression_algorithm: None,
            },
            proof: attached,
            replicas: Vec::new(),
            access_control: None,
        };
        let ghost ne = new_entry(key@, vv, pv, self.local_node_id@, now);
        assert(entry@.replicas =~= Seq::<Seq<u8>>::empty());
        assert(entry@ == ne);
        match position_of_key(&self.entries, &key) {
            Some(p) => {
                proof {
                    lemma_find_key_at(s, key@, p as int);
                    lemma_values_size_update(s, p as int, ne);
                }
                let old_len = self.entries[p].value.len() as u64;
                self.entries.set(p, entry);
                assert(self.spec_entries() =~= s.update(p as int, ne));
                self.current_usage = self.current_usage - old_len + value_size;
                assert forall|i: int, j: int| 0 <= i < self.spec_entries().len() && 0 <= j < self.spec_entries().len() && i != j
                    implies #[trigger] self.spec_entries()[i].key != #[trigger] self.spec_entries()[j].key by {
                    if i != p && j != p {
                        assert(s[i].key != s[j].key);
                    } else if i == p {
                        assert(s[j].key != s[p as int].key);
                    } else {
                        assert(s[i].key != s[p as int].key);
                    }
                }
            },
            None => {
                self.entries.push(entry);
                assert(self.spec_entries() =~= s.push(ne));
                assert(self.spec_entries().drop_last() =~= s);
                self.current_usage = self.current_usage + value_size;
            },
        }
        Ok(())
    }

    /// The checks of a write that come before any reading of the clock (see
    /// `early_store_error`).
    fn early_store_check(&self, key: &String, value: &[u8], has_proof: bool, high_entropy: bool) -> (r: Result<(), StorageError>)
        requires
            self.wf(),
        ensures
            match early_store_error(self.spec_entries(), self.spec_usage(), self.spec_max(), key@, value@, has_proof, high_entropy) {
                Some(e) => r == Err::<(), StorageError>(e),
                None => r is Ok,
            },
    {
        if let Err(e) = validate_key_value(key, value) {
            return Err(e);
        }
        match position_of_key(&self.entries, key) {
            Some(p) => {
                proof { lemma_find_key_at(self.spec_entries(), key@, p as int); }
                return Ok(());
            },
            None => {
                assert(find_key(self.spec_entries(), key@) is None);
            },
        }
        let value_size = value.len() as u64;
        let fits = match self.current_usage.checked_add(value_size) {
            Some(a) => match a.checked_add(METADATA_OVERHEAD) {
                Some(t) => t <= self.max_storage_size,
                None => false,
            },
            None => false,
        };
        if !fits {
            return Err(StorageError::CapacityExceeded);
        }
        if !has_proof && requires_proof_for_storage(key.as_str(), value, high_entropy) {
            return Err(StorageError::ProofRequired);
        }
        Ok(())
    }

    /// Write `value` under `key` at the current time (see `store_at`). The
    /// errors of `early_store_error` come first, before the clock is read;
    /// otherwise the write fails, changing nothing, when the clock reads
    /// before the Unix epoch, and else is that of `store_at` at the time
    /// read.
    pub fn store(
        &mut self,
        key: String,
        value: Vec<u8>,
        attached: Option<ZkProof>,
        zk_system_verdict: bool,
        high_entropy: bool,
    ) -> (r: Result<(), StorageError>)
        requires
            old(self).wf(),
        ensures
            final(self).wf(),
            final(self).spec_max() == old(self).spec_max(),
            final(self).spec_local_id() == old(self).spec_local_id(),
            final(self).spec_router() == old(self).spec_router(),
            final(self).spec_known() == old(self).spec_known(),
            early_store_error(old(self).spec_entries(), old(self).spec_usage(), old(self).spec_max(), key@, value@,
                attached is Some, high_entropy) matches Some(e) ==> (r == Err::<(), StorageError>(e)
                && final(self).spec_entries() == old(self).spec_entries()),
            r == Err::<(), StorageError>(StorageError::ClockBeforeEpoch) ==> final(self).spec_entries() == old(self).spec_entries(),
            early_store_error(old(self).spec_entries(), old(self).spec_usage(), old(self).spec_max(), key@, value@,
                attached is Some, high_entropy) is None && r != Err::<(), StorageError>(StorageError::ClockBeforeEpoch)
                ==> exists|now: u64, nanos: u64|
                match #[trigger] store_error(old(self).spec_entries(), old(self).spec_usage(), old(self).spec_max(), key@, value@,
                    proof_view(attached), proof_accepted(proof_view(attached), key@, value@, old(self).spec_local_id(),
                    nanos, zk_system_verdict), high_entropy, now) {
                    Some(e) => r == Err::<(), StorageError>(e) && final(self).spec_entries() == old(self).spec_entries(),
                    None => r is Ok && final(self).spec_entries() == entries_after_put(old(self).spec_entries(),
                        new_entry(key@, value@, proof_view(attached), old(self).spec_local_id(), now)),
                },
    {
        if let Err(e) = self.early_store_check(&key, value.as_slice(), attached.is_some(), high_entropy) {
            return Err(e);
        }
        let now = match unix_time_secs() {
            Some(t) => t,
            None => {
                return Err(StorageError::ClockBeforeEpoch);
            },
        };
        let nanos: u64 = match unix_time_nanos() {
            Some(n) => n as u64,
            None => {
                return Err(StorageError::ClockBeforeEpoch);
            },
        };
        self.store_at(key, value, attached, zk_system_verdict, high_entropy, now, nanos)
    }

    /// Read the value under `key` at time `now`. A held entry counts one
    /// more read, last at `now`; an entry expired at `now` is dropped and
    /// nothing is returned.
    pub fn get_at(&mut self, key: &str, now: u64) -> (r: Option<Vec<u8>>)
        requires
            old(self).wf(),
            forall|i: int| 0 <= i < old(self).spec_entries().len() && (#[trigger] old(self).spec_entries()[i]).key == key@
                ==> old(self).spec_entries()[i].metadata.access_count < u64::MAX,
        ensures
            final(self).wf(),
            final(self).spec_max() == old(self).spec_max(),
            final(self).spec_local_id() == old(self).spec_local_id(),
            final(self).spec_router() == old(self).spec_router(),
            final(self).spec_known() == old(self).spec_known(),
            match find_key(old(self).spec_entries(), key@) {
                None => r is None && final(self).spec_entries() == old(self).spec_entries(),
                Some(p) => if expired(old(self).spec_entries()[p], now) {
                    r is None && final(self).spec_entries() == old(self).spec_entries().remove(p)
                } else {
                    r matches Some(v) && v@ == old(self).spec_entries()[p].value
                        && final(self).spec_entries() == old(self).spec_entries().update(p, touched(old(self).spec_entries()[p], now))
                },
            },
    {
        let ghost s = self.spec_entries();
        let k = key.to_owned();
        match position_of_key(&self.entries, &k) {
            None => {
                assert(find_key(s, key@) is None);
                None
            },
            Some(p) => {
                proof {
                    lemma_find_key_at(s, key@, p as int);
                    lemma_values_size_remove(s, p as int);
                }
                let mut e = self.entries.remove(p);
                assert(self.spec_entries() =~= s.remove(p as int));
                e.metadata.access_count = e.metadata.access_count + 1;
                e.metadata.last_access = now;
                let is_expired = match e.expiry {
                    Some(x) => now > x,
                    None => false,
                };
                assert forall|i: int, j: int| 0 <= i < s.remove(p as int).len() && 0 <= j < s.remove(p as int).len() && i != j
                    implies #[trigger] s.remove(p as int)[i].key != #[trigger] s.remove(p as int)[j].key by {
                    let si = if i < p { i } else { i + 1 };
                    let sj = if j < p { j } else { j + 1 };
                    assert(s.remove(p as int)[i] == s[si] && s.remove(p as int)[j] == s[sj]);
                }
                if is_expired {
                    self.current_usage = self.current_usage - e.value.len() as u64;
                    None
                } else {
                    let v = copy_bytes(&e.value);
                    self.entries.insert(p, e);
                    assert(self.spec_entries() =~= s.update(p as int, touched(s[p as int], now)));
                    proof { lemma_values_size_update(s, p as int, touched(s[p as int], now)); }
                    assert forall|i: int, j: int| 0 <= i < self.spec_entries().len() && 0 <= j < self.spec_entries().len() && i != j
                        implies #[trigger] self.spec_entries()[i].key != #[trigger] self.spec_entries()[j].key by {
                        assert(s[i].key != s[j].key);
                    }
                    Some(v)
                }
            },
        }
    }

    /// Read the value under `key` at the current time (see `get_at`). A key
    /// that no entry has gives nothing, whatever the clock reads; otherwise
    /// the read fails, changing nothing, when the clock reads before the
    /// Unix epoch.
    pub fn get(&mut self, key: &str) -> (r: Result<Option<Vec<u8>>, StorageError>)
        requires
            old(self).wf(),
            forall|i: int| 0 <= i < old(self).spec_entries().len() && (#[trigger] old(self).spec_entries()[i]).key == key@
                ==> old(self).spec_entries()[i].metadata.access_count < u64::MAX,
        ensures
            final(self).wf(),
            final(self).spec_max() == old(self).spec_max(),
            final(self).spec_local_id() == old(self).spec_local_id(),
            final(self).spec_router() == old(self).spec_router(),
            final(self).spec_known() == old(self).spec_known(),
            find_key(old(self).spec_entries(), key@) is None ==> (r matches Ok(None)
                && final(self).spec_entries() == old(self).spec_entries()),
            r is Err ==> r == Err::<Option<Vec<u8>>, StorageError>(StorageError::ClockBeforeEpoch)
                && final(self).spec_entries() == old(self).spec_entries(),
            r is Ok ==> match find_key(old(self).spec_entries(), key@) {
                None => r matches Ok(None) && final(self).spec_entries() == old(self).spec_entries(),
                Some(p) => exists|now: u64| if #[trigger] expired(old(self).spec_entries()[p], now) {
                    r matches Ok(None) && final(self).spec_entries() == old(self).spec_entries().remove(p)
                } else {
                    r matches Ok(Some(v)) && v@ == old(self).spec_entries()[p].value
                        && final(self).spec_entries() == old(self).spec_entries().update(p, touched(old(self).spec_entries()[p], now))
                },
            },
    {
        let k = key.to_owned();
        match position_of_key(&self.entries, &k) {
            None => {
                assert(find_key(self.spec_entries(), key@) is None);
                return Ok(None);
            },
            Some(p) => {
                proof { lemma_find_key_at(self.spec_entries(), key@, p as int); }
            },
        }
        match unix_time_secs() {
            Some(now) => Ok(self.get_at(key, now)),
            None => Err(StorageError::ClockBeforeEpoch),
        }
    }

    /// Remove the entry under `key`; whether there was one.
    pub fn remove(&mut self, key: &str) -> (r: bool)
        requires
            old(self).wf(),
        ensures
            final(self).wf(),
            final(self).spec_max() == old(self).spec_max(),
            final(self).spec_local_id() == old(self).spec_local_id(),
            final(self).spec_router() == old(self).spec_router(),
            final(self).spec_known() == old(self).spec_known(),
            match find_key(old(self).spec_entries(), key@) {
                None => !r && final(self).spec_entries() == old(self).spec_entries(),
                Some(p) => r && final(self).spec_entries() == old(self).spec_entries().remove(p),
            },
    {
        let ghost s = self.spec_entries();
        let k = key.to_owned();
        match position_of_key(&self.entries, &k) {
            None => {
                assert(find_key(s, key@) is None);
                false
            },
            Some(p) => {
                proof {
                    lemma_find_key_at(s, key@, p as int);
                    lemma_values_size_remove(s, p as int);
                }
                let e = self.entries.remove(p);
                assert(self.spec_entries() =~= s.remove(p as int));
                self.current_usage = self.current_usage - e.value.len() as u64;
                assert forall|i: int, j: int| 0 <= i < s.remove(p as int).len() && 0 <= j < s.remove(p as int).len() && i != j
                    implies #[trigger] s.remove(p as int)[i].key != #[trigger] s.remove(p as int)[j].key by {
                    let si = if i < p { i } else { i + 1 };
                    let sj = if j < p { j } else { j + 1 };
                    assert(s.remove(p as int)[i] == s[si] && s.remove(p as int)[j] == s[sj]);
                }
                true
            },
        }
    }

    /// The metadata of the entry under `key`, if any.
    pub fn get_metadata(&self, key: &str) -> (r: Option<&ChunkMetadata>)
        requires
            self.wf(),
        ensures
            match find_key(self.spec_entries(), key@) {
                None => r is None,
                Some(p) => r matches Some(m) && m@ == self.spec_entries()[p].metadata,
            },
    {
        let k = key.to_owned();
        match position_of_key(&self.entries, &k) {
            None => {
                assert(find_key(self.spec_entries(), key@) is None);
                None
            },
            Some(p) => {
                proof { lemma_find_key_at(self.spec_entries(), key@, p as int); }
                Some(&self.entries[p].metadata)
            },
        }
    }

    /// The stored keys.
    pub fn list_keys(&self) -> (r: Vec<String>)
        requires
            self.wf(),
        ensures
            r@.map_values(|k: String| k@) == keys_of(self.spec_entries()),
    {
        let ghost s = self.spec_entries();
        let mut r: Vec<String> = Vec::new();
        for i in 0..self.entries.len()
            invariant
                s == self.spec_entries(),
                r@.map_values(|k: String| k@) == keys_of(s.take(i as int)),
        {
            let ghost before = r@;
            r.push(self.entries[i].key.clone());
            assert(r@.map_values(|k: String| k@) =~= before.map_values(|k: String| k@).push(s[i as int].key));
            assert(keys_of(s.take(i + 1)) =~= keys_of(s.take(i as int)).push(s[i as int].key));
        }
        assert(s.take(s.len() as int) =~= s);
        r
    }

    /// Storage statistics.
    pub fn get_storage_stats(&self) -> (st: StorageStats)
        requires
            self.wf(),
            total_access_count(self.spec_entries()) <= u64::MAX,
        ensures
            st.total_entries == self.spec_entries().len(),
            st.total_size == self.spec_usage(),
            st.total_size == values_size(self.spec_entries()),
            st.available_space == self.spec_max() - self.spec_usage(),
            st.max_capacity == self.spec_max(),
            st.total_accesses == total_access_count(self.spec_entries()),
    {
        let ghost s = self.spec_entries();
        let mut total: u64 = 0;
        let mut i: usize = 0;
        assert(s.take(0) =~= Seq::<StorageEntryView>::empty());
        while i < self.entries.len()
            invariant
                s == self.spec_entries(),
                i <= s.len(),
                total_access_count(s) <= u64::MAX,
                total == total_access_count(s.take(i as int)),
            decreases s.len() - i,
        {
            proof {
                lemma_store_take(s, i as int, 0, 0);
                lemma_access_prefix(s, i as int + 1);
            }
            total = total + self.entries[i].metadata.access_count;
            i += 1;
        }
        assert(s.take(s.len() as int) =~= s);
        StorageStats {
            total_entries: self.entries.len(),
            total_size: self.current_usage,
            available_space: self.max_storage_size - self.current_usage,
            max_capacity: self.max_storage_size,
            total_accesses: total,
        }
    }

    /// Drop the entries expired at time `now`; how many were dropped.
    pub fn cleanup_expired_at(&mut self, now: u64) -> (removed: usize)
        requires
            old(self).wf(),
        ensures
            final(self).wf(),
            final(self).spec_max() == old(self).spec_max(),
            final(self).spec_local_id() == old(self).spec_local_id(),
            final(self).spec_router() == old(self).spec_router(),
            final(self).spec_known() == old(self).spec_known(),
            final(self).spec_entries() == unexpired(old(self).spec_entries(), now),
            removed == old(self).spec_entries().len() - final(self).spec_entries().len(),
    {
        let ghost s = self.spec_entries();
        let ghost r0 = self.spec_router();
        let ghost k0 = self.spec_known();
        let n = self.entries.len();
        let mut i: usize = 0;
        let mut j: usize = 0;
        let mut removed: usize = 0;
        assert(s.take(0) =~= Seq::<StorageEntryView>::empty());
        assert(s.skip(0) =~= s);
        while j < n
            invariant
                self.wf(),
                n == s.len(),
                self.spec_max() == old(self).spec_max(),
                self.spec_local_id() == old(self).spec_local_id(),
                self.spec_router() == r0,
                self.spec_known() == k0,
                j <= n,
                i == unexpired(s.take(j as int), now).len(),
                removed == j - i,
                self.spec_entries() == unexpired(s.take(j as int), now) + s.skip(j as int),
            decreases n - j,
        {
            proof { lemma_store_take(s, j as int, now, 0); }
            let ghost u = unexpired(s.take(j as int), now);
            let ghost cur = self.spec_entries();
            assert(cur[i as int] == s[j as int]);
            let is_expired = match self.entries[i].expiry {
                Some(x) => now > x,
                None => false,
            };
            if is_expired {
                proof { lemma_values_size_remove(cur, i as int); }
                let e = self.entries.remove(i);
                assert(self.spec_entries() =~= cur.remove(i as int));
                assert(cur.remove(i as int) =~= u + s.skip(j + 1));
                self.current_usage = self.current_usage - e.value.len() as u64;
                assert forall|a: int, b: int| 0 <= a < cur.remove(i as int).len() && 0 <= b < cur.remove(i as int).len() && a != b
                    implies #[trigger] cur.remove(i as int)[a].key != #[trigger] cur.remove(i as int)[b].key by {
                    let ca = if a < i { a } else { a + 1 };
                    let cb = if b < i { b } else { b + 1 };
                    assert(cur.remove(i as int)[a] == cur[ca] && cur.remove(i as int)[b] == cur[cb]);
                }
                removed = removed + 1;
            } else {
                assert(cur =~= u.push(s[j as int]) + s.skip(j + 1));
                i = i + 1;
            }
            j = j + 1;
        }
        assert(s.take(n as int) =~= s);
        assert(s.skip(n as int) =~= Seq::<StorageEntryView>::empty());
        assert(self.spec_entries() =~= unexpired(s, now));
        removed
    }

    /// Drop the entries expired at the current time (see
    /// `cleanup_expired_at`). Fails, changing nothing, when the clock reads
    /// before the Unix epoch.
    pub fn cleanup_expired(&mut self) -> (r: Result<usize, StorageError>)
        requires
            old(self).wf(),
        ensures
            final(self).wf(),
            final(self).spec_max() == old(self).spec_max(),
            final(self).spec_local_id() == old(self).spec_local_id(),
            final(self).spec_router() == old(self).spec_router(),
            final(self).spec_known() == old(self).spec_known(),
            r is Err ==> r == Err::<usize, StorageError>(StorageError::ClockBeforeEpoch)
                && final(self).spec_entries() == old(self).spec_entries(),
            r matches Ok(n) ==> n == old(self).spec_entries().len() - final(self).spec_entries().len()
                && exists|now: u64| final(self).spec_entries() == #[trigger] unexpired(old(self).spec_entries(), now),
    {
        match unix_time_secs() {
            Some(now) => Ok(self.cleanup_expired_at(now)),
            None => Err(StorageError::ClockBeforeEpoch),
        }
    }

    /// Set the expiry of the entry under `key`; fails when there is none.
    pub fn set_expiry(&mut self, key: &str, expiry: u64) -> (r: Result<(), StorageError>)
        requires
            old(self).wf(),
        ensures
            final(self).wf(),
            final(self).spec_max() == old(self).spec_max(),
            final(self).spec_local_id() == old(self).spec_local_id(),
            final(self).spec_router() == old(self).spec_router(),
            final(self).spec_known() == old(self).spec_known(),
            match find_key(old(self).spec_entries(), key@) {
                None => r == Err::<(), StorageError>(StorageError::KeyNotFound)
                    && final(self).spec_entries() == old(self).spec_entries(),
                Some(p) => r is Ok && final(self).spec_entries()
                    == old(self).spec_entries().update(p, with_expiry(old(self).spec_entries()[p], expiry)),
            },
    {
        let ghost s = self.spec_entries();
        let k = key.to_owned();
        match position_of_key(&self.entries, &k) {
            None => {
                assert(find_key(s, key@) is None);
                Err(StorageError::KeyNotFound)
            },
            Some(p) => {
                proof {
                    lemma_find_key_at(s, key@, p as int);
                    lemma_values_size_update(s, p as int, with_expiry(s[p as int], expiry));
                }
                let mut e = self.entries.remove(p);
                e.expiry = Some(expiry);
                self.entries.insert(p, e);
                assert(self.spec_entries() =~= s.update(p as int, with_expiry(s[p as int], expiry)));
                assert forall|i: int, j: int| 0 <= i < self.spec_entries().len() && 0 <= j < self.spec_entries().len() && i != j
                    implies #[trigger] self.spec_entries()[i].key != #[trigger] self.spec_entries()[j].key by {
                    assert(s[i].key != s[j].key);
                }
                Ok(())
            },
        }
    }

    /// Keys of the entries held by fewer than `min_replicas` replicas.
    pub fn get_replication_candidates(&self, min_replicas: usize) -> (r: Vec<String>)
        requires
            self.wf(),
        ensures
            r@.map_values(|k: String| k@) == under_replicated(self.spec_entries(), min_replicas as nat),
    {
        let ghost s = self.spec_entries();
        let mut r: Vec<String> = Vec::new();
        for i in 0..self.entries.len()
            invariant
                s == self.spec_entries(),
                r@.map_values(|k: String| k@) == under_replicated(s.take(i as int), min_replicas as nat),
        {
            proof { lemma_store_take(s, i as int, 0, min_replicas as nat); }
            if self.entries[i].replicas.len() < min_replicas {
                let ghost before = r@;
                r.push(self.entries[i].key.clone());
                assert(r@.map_values(|k: String| k@) =~= before.map_values(|k: String| k@).push(s[i as int].key));
            }
        }
        assert(s.take(s.len() as int) =~= s);
        r
    }

    /// Record the replica nodes of the entry under `key`; fails when there is none.
    pub fn update_replicas(&mut self, key: &str, replicas: Vec<NodeId>) -> (r: Result<(), StorageError>)
        requires
            old(self).wf(),
        ensures
            final(self).wf(),
            final(self).spec_max() == old(self).spec_max(),
            final(self).spec_local_id() == old(self).spec_local_id(),
            final(self).spec_router() == old(self).spec_router(),
            final(self).spec_known() == old(self).spec_known(),
            match find_key(old(self).spec_entries(), key@) {
                None => r == Err::<(), StorageError>(StorageError::KeyNotFound)
                    && final(self).spec_entries() == old(self).spec_entries(),
                Some(p) => r is Ok && final(self).spec_entries() == old(self).spec_entries().update(p,
                    with_replicas(old(self).spec_entries()[p], replicas@.map_values(|n: NodeId| n@))),
            },
    {
        let ghost s = self.spec_entries();
        let ghost rv = replicas@.map_values(|n: NodeId| n@);
        let k = key.to_owned();
        match position_of_key(&self.entries, &k) {
            None => {
                assert(find_key(s, key@) is None);
                Err(StorageError::KeyNotFound)
            },
            Some(p) => {
                proof {
                    lemma_find_key_at(s, key@, p as int);
                    lemma_values_size_update(s, p as int, with_replicas(s[p as int], rv));
                }
                let mut e = self.entries.remove(p);
                e.replicas = replicas;
                self.entries.insert(p, e);
                assert(self.spec_entries() =~= s.update(p as int, with_replicas(s[p as int], rv)));
                assert forall|i: int, j: int| 0 <= i < self.spec_entries().len() && 0 <= j < self.spec_entries().len() && i != j
                    implies #[trigger] self.spec_entries()[i].key != #[trigger] self.spec_entries()[j].key by {
                    assert(s[i].key != s[j].key);
                }
                Ok(())
            },
        }
    }

    /// Failed pings recorded for the node `node_id` in the routing table.
    pub fn failed_attempts(&self, node_id: &NodeId) -> (r: Option<u32>)
        requires
            self.wf(),
        ensures
            r == failed_count(self.spec_router().spec_table(), self.spec_local_id(), node_id@),
    {
        self.router.failed_attempts(node_id)
    }

    /// Count one more failed ping of the node `node_id` (see
    /// `KademliaRouter::mark_node_failed`).
    pub fn mark_node_failed(&mut self, node_id: &NodeId)
        requires
            old(self).wf(),
            failed_count(old(self).spec_router().spec_table(), old(self).spec_local_id(), node_id@) != Some(u32::MAX),
        ensures
            final(self).wf(),
            final(self).spec_entries() == old(self).spec_entries(),
            final(self).spec_max() == old(self).spec_max(),
            final(self).spec_local_id() == old(self).spec_local_id(),
            final(self).spec_known() == old(self).spec_known(),
            final(self).spec_router().spec_k() == old(self).spec_router().spec_k(),
            ({
                let t = old(self).spec_router().spec_table();
                let b = bucket_index(xor_distance(old(self).spec_local_id(), node_id@)) as int;
                final(self).spec_router().spec_table() == with_nodes(t, b, entries_after_failure(t[b].nodes, node_id@))
            }),
    {
        self.router.mark_node_failed(node_id);
    }

    /// Record that the node `node_id` answered at time `now` (see
    /// `KademliaRouter::mark_node_responsive_at`).
    pub fn mark_node_responsive_at(&mut self, node_id: &NodeId, now: u64)
        requires
            old(self).wf(),
        ensures
            final(self).wf(),
            final(self).spec_entries() == old(self).spec_entries(),
            final(self).spec_max() == old(self).spec_max(),
            final(self).spec_local_id() == old(self).spec_local_id(),
            final(self).spec_known() == old(self).spec_known(),
            final(self).spec_router().spec_k() == old(self).spec_router().spec_k(),
            ({
                let t = old(self).spec_router().spec_table();
                let b = bucket_index(xor_distance(old(self).spec_local_id(), node_id@)) as int;
                final(self).spec_router().spec_table() == with_nodes(t, b, entries_after_response(t[b].nodes, node_id@, now))
            }),
    {
        self.router.mark_node_responsive_at(node_id, now);
    }

    /// Forget the node `node_id`: it leaves the routing table and the known nodes.
    pub fn remove_dht_node(&mut self, node_id: &NodeId)
        requires
            old(self).wf(),
        ensures
            final(self).wf(),
            final(self).spec_entries() == old(self).spec_entries(),
            final(self).spec_max() == old(self).spec_max(),
            final(self).spec_local_id() == old(self).spec_local_id(),
            final(self).spec_router().spec_k() == old(self).spec_router().spec_k(),
            final(self).spec_known() == known_without(old(self).spec_known(), node_id@),
            ({
                let t = old(self).spec_router().spec_table();
                let b = bucket_index(xor_distance(old(self).spec_local_id(), node_id@)) as int;
                final(self).spec_router().spec_table() == with_nodes(t, b, entries_without(t[b].nodes, node_id@))
            }),
    {
        self.router.remove_node(node_id);
        let ghost k = self.spec_known();
        let ghost r1 = self.spec_router();
        let mut i: usize = 0;
        while i < self.known_nodes.len()
            invariant
                self.wf(),
                self.spec_entries() == old(self).spec_entries(),
                self.spec_max() == old(self).spec_max(),
                self.spec_local_id() == old(self).spec_local_id(),
                self.spec_router() == r1,
                r1.spec_k() == old(self).spec_router().spec_k(),
                ({
                    let t = old(self).spec_router().spec_table();
                    let b = bucket_index(xor_distance(old(self).spec_local_id(), node_id@)) as int;
                    r1.spec_table() == with_nodes(t, b, entries_without(t[b].nodes, node_id@))
                }),
                k == self.spec_known(),
                k == old(self).spec_known(),
                i <= k.len(),
                forall|j: int| 0 <= j < i ==> (#[trigger] k[j]).id != node_id@,
            decreases k.len() - i,
        {
            if self.known_nodes[i].id == *node_id {
                proof {
                    assert(k[i as int].id == node_id@);
                    let c = choose|c: int| 0 <= c < k.len() && #[trigger] k[c].id == node_id@;
                    assert(k[c].id == node_id@);
                    if c != i {
                        assert(self.known_nodes@[c].id@ != self.known_nodes@[i as int].id@);
                    }
                }
                let _gone = self.known_nodes.remove(i);
                assert(self.spec_known() =~= known_without(k, node_id@));
                assert forall|a: int, b: int| 0 <= a < self.known_nodes@.len() && 0 <= b < self.known_nodes@.len() && a != b
                    implies #[trigger] self.known_nodes@[a].id@ != #[trigger] self.known_nodes@[b].id@ by {
                    let ka = if a < i { a } else { a + 1 };
                    let kb = if b < i { b } else { b + 1 };
                    assert(self.spec_known()[a] == k[ka] && self.spec_known()[b] == k[kb]);
                    assert(k[ka].id != k[kb].id);
                }
                return;
            }
            i += 1;
        }
        assert(known_without(k, node_id@) == k);
    }

    /// The commitment of a write of `value` under `key` by this node at time
    /// `nanos` (see `storage_commitment`).
    pub fn generate_storage_commitment(&self, key: &str, value: &[u8], nanos: u64) -> (c: [u8; 32])
        ensures
            c@ == crate::proofs::storage_commitment(key@, value@, self.spec_local_id(), nanos),
    {
        let mut data: Vec<u8> = Vec::new();
        append_bytes(&mut data, key.as_bytes());
        append_bytes(&mut data, value);
        append_bytes(&mut data, self.local_node_id.as_bytes());
        let mut t: Vec<u8> = Vec::new();
        for i in 0..8
            invariant
                t@ == crate::network::be_bytes(nanos).take(i as int),
        {
            let shift: u64 = 8 * (7 - i as u64);
            let b: u8 = ((nanos >> shift) & 0xffu64) as u8;
            t.push(b);
            assert(shift == (8 * (7 - i)) as u64);
            assert(crate::network::be_bytes(nanos).take(i + 1) =~= crate::network::be_bytes(nanos).take(i as int).push(b));
        }
        assert(crate::network::be_bytes(nanos).take(8) =~= crate::network::be_bytes(nanos));
        append_bytes(&mut data, t.as_slice());
        blake3_hash(data.as_slice())
    }

    /// The verdict on storage proof `attached` for `value` under `key`
    /// written at time `nanos`, as far as the proof's fields decide it (see
    /// `storage_proof_verdict`); `None` leaves it to the proof system.
    pub fn check_storage_proof(&self, attached: &ZkProof, key: &str, value: &[u8], nanos: u64) -> (r: Option<bool>)
        ensures
            r == storage_proof_verdict(attached@, key@, value@, self.spec_local_id(), nanos),
    {
        if attached.is_empty() {
            return Some(false);
        }
        let commitment = self.generate_storage_commitment(key, value, nanos);
        let key_hash = blake3_hash(key.as_bytes());
        let data_hash = blake3_hash(value);
        let mut node_data: Vec<u8> = Vec::new();
        append_bytes(&mut node_data, self.local_node_id.as_bytes());
        append_bytes(&mut node_data, &key_hash);
        append_bytes(&mut node_data, &data_hash);
        let node_commit = blake3_hash(node_data.as_slice());
        let mut expected: Vec<u8> = Vec::new();
        append_bytes(&mut expected, &commitment);
        append_bytes(&mut expected, &node_commit);
        let ghost ev = storage_proof_inputs(key@, value@, self.spec_local_id(), nanos);
        assert(expected@ =~= ev);
        if attached.public_inputs.len() < expected.len() {
            return Some(false);
        }
        let mut prefix: Vec<u8> = Vec::new();
        for i in 0..expected.len()
            invariant
                expected@.len() <= attached.public_inputs@.len(),
                prefix@ == attached.public_inputs@.take(i as int),
        {
            prefix.push(attached.public_inputs[i]);
            assert(attached.public_inputs@.take(i + 1) =~= attached.public_inputs@.take(i as int).push(attached.public_inputs@[i as int]));
        }
        if !same_bytes(prefix.as_slice(), expected.as_slice()) {
            return Some(false);
        }
        match &attached.plonky2_proof {
            Some(q) => {
                let access = vec![90u8, 72, 84, 80, 45, 79, 112, 116, 105, 109, 105, 122, 101, 100, 45, 83, 116, 111, 114, 97, 103, 101, 65, 99, 99, 101, 115, 115];
                let integrity = vec![90u8, 72, 84, 80, 45, 79, 112, 116, 105, 109, 105, 122, 101, 100, 45, 68, 97, 116, 97, 73, 110, 116, 101, 103, 114, 105, 116, 121];
                assert(access@ =~= circuit_storage_access());
                assert(integrity@ =~= circuit_data_integrity());
                let system = q.proof_system.as_str().as_bytes();
                if same_bytes(system, access.as_slice()) || same_bytes(system, integrity.as_slice()) {
                    None
                } else {
                    Some(verify_generic_plonky2_proof(q, expected.as_slice()))
                }
            },
            None => None,
        }
    }

    /// The verdict on proof `zk_proof` for the zero-knowledge value
    /// `zk_value`, as far as the proof's fields decide it (see
    /// `zk_proof_verdict`); `None` leaves it to the proof system.
    pub fn verify_zk_proof(&self, zk_proof: &ZkProof, zk_value: &ZkDhtValue) -> (r: Option<bool>)
        ensures
            r == zk_proof_verdict(zk_proof@, zk_value.encrypted_data@, zk_value.access_level, self.spec_local_id()),
    {
        if let Some(q) = &zk_proof.plonky2_proof {
            let access = vec![90u8, 72, 84, 80, 45, 79, 112, 116, 105, 109, 105, 122, 101, 100, 45, 83, 116, 111, 114, 97, 103, 101, 65, 99, 99, 101, 115, 115];
            let integrity = vec![90u8, 72, 84, 80, 45, 79, 112, 116, 105, 109, 105, 122, 101, 100, 45, 68, 97, 116, 97, 73, 110, 116, 101, 103, 114, 105, 116, 121];
            let range = vec![90u8, 72, 84, 80, 45, 79, 112, 116, 105, 109, 105, 122, 101, 100, 45, 82, 97, 110, 103, 101];
            let identity = vec![90u8, 72, 84, 80, 45, 79, 112, 116, 105, 109, 105, 122, 101, 100, 45, 73, 100, 101, 110, 116, 105, 116, 121];
            assert(access@ =~= circuit_storage_access());
            assert(integrity@ =~= circuit_data_integrity());
            assert(range@ =~= circuit_range());
            assert(identity@ =~= circuit_identity());
            let system = q.proof_system.as_str().as_bytes();
            if same_bytes(system, access.as_slice()) || same_bytes(system, integrity.as_slice())
                || same_bytes(system, range.as_slice()) || same_bytes(system, identity.as_slice()) {
                return None;
            }
            return Some(q.proof.len() > 0 && q.public_inputs.len() > 0);
        }
        let value_hash = blake3_hash(zk_value.encrypted_data.as_slice());
        let mut key_material: Vec<u8> = Vec::new();
        append_bytes(&mut key_material, self.local_node_id.as_bytes());
        append_bytes(&mut key_material, &value_hash);
        let access_key = blake3_hash(key_material.as_slice());
        let level: u64 = match zk_value.access_level {
            AccessLevel::Public => 0,
            AccessLevel::Private => 1,
            AccessLevel::Restricted => 2,
        };
        let mut level_bytes: Vec<u8> = Vec::new();
        for i in 0..8
            invariant
                level_bytes@ == crate::network::be_bytes(level).take(i as int),
        {
            let shift: u64 = 8 * (7 - i as u64);
            let b: u8 = ((level >> shift) & 0xffu64) as u8;
            level_bytes.push(b);
            assert(shift == (8 * (7 - i)) as u64);
            assert(crate::network::be_bytes(level).take(i + 1) =~= crate::network::be_bytes(level).take(i as int).push(b));
        }
        assert(crate::network::be_bytes(level).take(8) =~= crate::network::be_bytes(level));
        let mut expected: Vec<u8> = Vec::new();
        append_bytes(&mut expected, &access_key[0..8]);
        append_bytes(&mut expected, &value_hash[0..8]);
        append_bytes(&mut expected, level_bytes.as_slice());
        append_bytes(&mut expected, level_bytes.as_slice());
        assert(expected@ =~= zk_value_inputs(zk_value.encrypted_data@, zk_value.access_level, self.spec_local_id()));
        let plonky2_name = vec![80u8, 108, 111, 110, 107, 121, 50];
        assert(plonky2_name@ =~= system_plonky2());
        if !same_bytes(zk_proof.proof_system.as_str().as_bytes(), plonky2_name.as_slice()) {
            return Some(false);
        }
        if zk_proof.public_inputs.len() == 0 || zk_proof.verification_key.len() == 0 {
            return Some(false);
        }
        if zk_proof.public_inputs.len() < expected.len() {
            return Some(false);
        }
        let mut prefix: Vec<u8> = Vec::new();
        for i in 0..expected.len()
            invariant
                expected@.len() <= zk_proof.public_inputs@.len(),
                prefix@ == zk_proof.public_inputs@.take(i as int),
        {
            prefix.push(zk_proof.public_inputs[i]);
            assert(zk_proof.public_inputs@.take(i + 1) =~= zk_proof.public_inputs@.take(i as int).push(zk_proof.public_inputs@[i as int]));
        }
        if !same_bytes(prefix.as_slice(), expected.as_slice()) {
            return Some(false);
        }
        None
    }

    /// Store a zero-knowledge value under the text of `key` at time `now`:
    /// its proof must be structurally valid for its encrypted data (see
    /// `full_proof_valid`); then `serialized`, the value's encoding, is
    /// written with the converted proof attached (see `store_at`).
    pub fn store_zk_value_at(
        &mut self,
        key: Hash256,
        zk_value: &ZkDhtValue,
        serialized: Vec<u8>,
        zk_system_verdict: bool,
        high_entropy: bool,
        now: u64,
        nanos: u64,
    ) -> (r: Result<(), StorageError>)
        requires
            old(self).wf(),
        ensures
            final(self).wf(),
            final(self).spec_max() == old(self).spec_max(),
            final(self).spec_local_id() == old(self).spec_local_id(),
            final(self).spec_router() == old(self).spec_router(),
            final(self).spec_known() == old(self).spec_known(),
            !full_proof_valid(zk_value.validity_proof@, content_key(key@), zk_value.encrypted_data@) ==>
                r == Err::<(), StorageError>(StorageError::InvalidZkProof) && final(self).spec_entries() == old(self).spec_entries(),
            full_proof_valid(zk_value.validity_proof@, content_key(key@), zk_value.encrypted_data@) ==> {
                let pv = Some(converted_proof(zk_value.validity_proof@));
                match store_error(old(self).spec_entries(), old(self).spec_usage(), old(self).spec_max(),
                    content_key(key@), serialized@, pv, proof_accepted(pv, content_key(key@), serialized@,
                    old(self).spec_local_id(), nanos, zk_system_verdict), high_entropy, now) {
                    Some(e) => r == Err::<(), StorageError>(e) && final(self).spec_entries() == old(self).spec_entries(),
                    None => r is Ok && final(self).spec_entries() == entries_after_put(old(self).spec_entries(),
                        new_entry(content_key(key@), serialized@, pv, old(self).spec_local_id(), now)),
                }
            },
    {
        let key_str = Self::content_key(&key);
        if !verify_full_zk_proof(&zk_value.validity_proof, key_str.as_str(), zk_value.encrypted_data.as_slice()) {
            return Err(StorageError::InvalidZkProof);
        }
        let zk_proof = convert_to_zk_proof(&zk_value.validity_proof);
        self.store_at(key_str, serialized, Some(zk_proof), zk_system_verdict, high_entropy, now, nanos)
    }

    /// Add `node`, seen at time `now`, to the routing table (see
    /// `KademliaRouter::add_node_at`) and to the known nodes, where it
    /// replaces the node with its identifier.
    pub fn add_dht_node_at(&mut self, node: DhtNode, now: u64) -> (r: Result<(), StorageError>)
        requires
            old(self).wf(),
        ensures
            final(self).wf(),
            final(self).spec_entries() == old(self).spec_entries(),
            final(self).spec_max() == old(self).spec_max(),
            final(self).spec_local_id() == old(self).spec_local_id(),
            final(self).spec_router().spec_local_id() == old(self).spec_router().spec_local_id(),
            final(self).spec_router().spec_k() == old(self).spec_router().spec_k(),
            node@.id == old(self).spec_local_id() ==> r == Err::<(), StorageError>(StorageError::Routing(RoutingError::LocalNode))
                && final(self).spec_router().spec_table() == old(self).spec_router().spec_table()
                && final(self).spec_known() == old(self).spec_known(),
            node@.id != old(self).spec_local_id() ==> r is Ok
                && final(self).spec_router().spec_table() == table_after_add(old(self).spec_router().spec_table(),
                    old(self).spec_local_id(), old(self).spec_router().spec_k(), node@, now)
                && final(self).spec_known() == known_after_insert(old(self).spec_known(), node@),
    {
        let copy = node.duplicate();
        match self.router.add_node_at(copy, now) {
            Err(e) => {
                return Err(StorageError::Routing(e));
            },
            Ok(()) => {},
        }
        let ghost k = self.spec_known();
        let ghost r1 = self.spec_router();
        let mut i: usize = 0;
        while i < self.known_nodes.len()
            invariant
                self.wf(),
                self.spec_entries() == old(self).spec_entries(),
                self.spec_max() == old(self).spec_max(),
                self.spec_local_id() == old(self).spec_local_id(),
                self.spec_router() == r1,
                r1.spec_local_id() == old(self).spec_router().spec_local_id(),
                r1.spec_k() == old(self).spec_router().spec_k(),
                node@.id != old(self).spec_local_id(),
                r1.spec_table() == table_after_add(old(self).spec_router().spec_table(),
                    old(self).spec_local_id(), old(self).spec_router().spec_k(), node@, now),
                k == self.spec_known(),
                k == old(self).spec_known(),
                i <= k.len(),
                forall|j: int| 0 <= j < i ==> (#[trigger] k[j]).id != node@.id,
            decreases k.len() - i,
        {
            if self.known_nodes[i].id == node.id {
                let ghost nv = node@;
                proof {
                    assert(k[i as int].id == nv.id);
                    let c = choose|c: int| 0 <= c < k.len() && #[trigger] k[c].id == nv.id;
                    assert(k[c].id == nv.id);
                    if c != i {
                        assert(self.known_nodes@[c].id@ != self.known_nodes@[i as int].id@);
                    }
                }
                self.known_nodes.set(i, node);
                assert(self.spec_known() =~= known_after_insert(k, nv));
                assert forall|a: int, b: int| 0 <= a < self.known_nodes@.len() && 0 <= b < self.known_nodes@.len() && a != b
                    implies #[trigger] self.known_nodes@[a].id@ != #[trigger] self.known_nodes@[b].id@ by {
                    assert(self.spec_known()[a].id == self.known_nodes@[a].id@);
                    assert(self.spec_known()[b].id == self.known_nodes@[b].id@);
                    assert(k[a].id != k[b].id || a == i || b == i);
                }
                return Ok(());
            }
            i += 1;
        }
        let ghost nv = node@;
        self.known_nodes.push(node);
        assert(self.spec_known() =~= known_after_insert(k, nv));
        assert forall|a: int, b: int| 0 <= a < self.known_nodes@.len() && 0 <= b < self.known_nodes@.len() && a != b
            implies #[trigger] self.known_nodes@[a].id@ != #[trigger] self.known_nodes@[b].id@ by {
            assert(self.spec_known()[a].id == self.known_nodes@[a].id@);
            assert(self.spec_known()[b].id == self.known_nodes@[b].id@);
        }
        Ok(())
    }

    /// Add `node` at the current time (see `add_dht_node_at`). Fails,
    /// changing nothing, when the clock reads before the Unix epoch.
    pub fn add_dht_node(&mut self, node: DhtNode) -> (r: Result<(), StorageError>)
        requires
            old(self).wf(),
        ensures
            final(self).wf(),
            final(self).spec_entries() == old(self).spec_entries(),
            final(self).spec_max() == old(self).spec_max(),
            final(self).spec_local_id() == old(self).spec_local_id(),
            node@.id == old(self).spec_local_id() ==> r == Err::<(), StorageError>(StorageError::Routing(RoutingError::LocalNode))
                && final(self).spec_known() == old(self).spec_known(),
            r == Err::<(), StorageError>(StorageError::ClockBeforeEpoch) ==> final(self).spec_router().spec_table() == old(self).spec_router().spec_table()
                && final(self).spec_known() == old(self).spec_known(),
            r is Ok ==> exists|now: u64| final(self).spec_router().spec_table() == #[trigger] table_after_add(
                    old(self).spec_router().spec_table(), old(self).spec_local_id(), old(self).spec_router().spec_k(), node@, now)
                && final(self).spec_known() == known_after_insert(old(self).spec_known(), node@),
    {
        if node.id == self.local_node_id {
            return Err(StorageError::Routing(RoutingError::LocalNode));
        }
        match unix_time_secs() {
            Some(now) => self.add_dht_node_at(node, now),
            None => Err(StorageError::ClockBeforeEpoch),
        }
    }

    /// The known nodes.
    pub fn get_known_nodes(&self) -> (r: Vec<&DhtNode>)
        requires
            self.wf(),
        ensures
            r@.map_values(|n: &DhtNode| n@) == self.spec_known(),
    {
        let mut r: Vec<&DhtNode> = Vec::new();
        for i in 0..self.known_nodes.len()
            invariant
                r@.map_values(|n: &DhtNode| n@) == self.spec_known().take(i as int),
        {
            let ghost before = r@;
            r.push(&self.known_nodes[i]);
            assert(r@.map_values(|n: &DhtNode| n@) =~= before.map_values(|n: &DhtNode| n@).push(self.spec_known()[i as int]));
            assert(self.spec_known().take(i + 1) =~= self.spec_known().take(i as int).push(self.spec_known()[i as int]));
        }
        assert(self.spec_known().take(self.known_nodes@.len() as int) =~= self.spec_known());
        r
    }

    /// Statistics of the routing table.
    pub fn get_routing_stats(&self) -> (st: RoutingStats)
        requires
            self.wf(),
            total_entries(self.spec_router().spec_table()) <= usize::MAX,
        ensures
            st.total_nodes == total_entries(self.spec_router().spec_table()),
            st.non_empty_buckets == non_empty_count(self.spec_router().spec_table()),
            st.total_buckets == 160,
            st.full_buckets == full_count(self.spec_router().spec_table(), self.spec_router().spec_k()),
            st.k_value == self.spec_router().spec_k(),
    {
        self.router.get_stats()
    }

    /// The nodes of the routing table nearest to `target`, at most
    /// `min(count, 20)` (see `KademliaRouter::find_closest_nodes`).
    pub fn find_closest_nodes(&self, target: &NodeId, count: usize) -> (r: Vec<DhtNode>)
        requires
            self.wf(),
        ensures
            r@.map_values(|n: DhtNode| n@) == closest_nodes(self.spec_router().spec_table(),
                self.spec_router().spec_k(), target@, count as nat),
    {
        self.router.find_closest_nodes(target, count)
    }

/// The storage key of a content hash: its lowercase hexadecimal text.
    pub fn content_key(content_hash: &Hash256) -> (k: String)
        ensures
            k@ == content_key(content_hash@),
    {
        hex_encode(content_hash.as_bytes())
    }

    /// Store `data` under its content hash at time `now`, without a proof
    /// (see `store_at`).
    pub fn store_data_at(&mut self, content_hash: Hash256, data: Vec<u8>, high_entropy: bool, now: u64) -> (r: Result<(), StorageError>)
        requires
            old(self).wf(),
        ensures
            final(self).wf(),
            final(self).spec_max() == old(self).spec_max(),
            final(self).spec_local_id() == old(self).spec_local_id(),
            final(self).spec_router() == old(self).spec_router(),
            final(self).spec_known() == old(self).spec_known(),
            match store_error(old(self).spec_entries(), old(self).spec_usage(), old(self).spec_max(),
                content_key(content_hash@), data@, None, false, high_entropy, now) {
                Some(e) => r == Err::<(), StorageError>(e) && final(self).spec_entries() == old(self).spec_entries(),
                None => r is Ok && final(self).spec_entries() == entries_after_put(old(self).spec_entries(),
                    new_entry(content_key(content_hash@), data@, None, old(self).spec_local_id(), now)),
            },
    {
        let key = Self::content_key(&content_hash);
        self.store_at(key, data, None, false, high_entropy, now, 0)
    }

    /// Read the value stored under a content hash at time `now` (see `get_at`).
    pub fn retrieve_data_at(&mut self, content_hash: Hash256, now: u64) -> (r: Option<Vec<u8>>)
        requires
            old(self).wf(),
            forall|i: int| 0 <= i < old(self).spec_entries().len()
                && (#[trigger] old(self).spec_entries()[i]).key == content_key(content_hash@)
                ==> old(self).spec_entries()[i].metadata.access_count < u64::MAX,
        ensures
            final(self).wf(),
            final(self).spec_max() == old(self).spec_max(),
            final(self).spec_local_id() == old(self).spec_local_id(),
            final(self).spec_router() == old(self).spec_router(),
            final(self).spec_known() == old(self).spec_known(),
            match find_key(old(self).spec_entries(), content_key(content_hash@)) {
                None => r is None && final(self).spec_entries() == old(self).spec_entries(),
                Some(p) => if expired(old(self).spec_entries()[p], now) {
                    r is None && final(self).spec_entries() == old(self).spec_entries().remove(p)
                } else {
                    r matches Some(v) && v@ == old(self).spec_entries()[p].value
                        && final(self).spec_entries() == old(self).spec_entries().update(p, touched(old(self).spec_entries()[p], now))
                },
            },
    {
        let key = Self::content_key(&content_hash);
        self.get_at(key.as_str(), now)
    }

    /// Remove the value stored under a content hash; whether there was one.
    pub fn remove_data(&mut self, content_hash: Hash256) -> (r: bool)
        requires
            old(self).wf(),
        ensures
            final(self).wf(),
            final(self).spec_max() == old(self).spec_max(),
            final(self).spec_local_id() == old(self).spec_local_id(),
            final(self).spec_router() == old(self).spec_router(),
            final(self).spec_known() == old(self).spec_known(),
            match find_key(old(self).spec_entries(), content_key(content_hash@)) {
                None => !r && final(self).spec_entries() == old(self).spec_entries(),
                Some(p) => r && final(self).spec_entries() == old(self).spec_entries().remove(p),
            },
    {
        let key = Self::content_key(&content_hash);
        self.remove(key.as_str())
    }

    /// Apply a storage message received at time `now`: a STORE with a key
    /// and a value writes it without a proof; a FIND_VALUE with a key reads
    /// it; a FIND_NODE with a target looks up the 8 nearest known nodes;
    /// anything else is ignored. `high_entropy` tells whether a stored value
    /// looks encrypted.
    pub fn handle_storage_message(&mut self, message: &DhtMessage, high_entropy: bool, now: u64) -> (o: StorageMessageOutcome)
        requires
            old(self).wf(),
            forall|i: int| 0 <= i < old(self).spec_entries().len() && message.key is Some
                && (#[trigger] old(self).spec_entries()[i]).key == message.key.unwrap()@
                ==> old(self).spec_entries()[i].metadata.access_count < u64::MAX,
        ensures
            final(self).wf(),
            final(self).spec_max() == old(self).spec_max(),
            final(self).spec_local_id() == old(self).spec_local_id(),
            final(self).spec_router() == old(self).spec_router(),
            final(self).spec_known() == old(self).spec_known(),
            message.message_type == DhtMessageType::Store && message.key is Some && message.value is Some ==> {
                let key = message.key.unwrap()@;
                let value = message.value.unwrap()@;
                match store_error(old(self).spec_entries(), old(self).spec_usage(), old(self).spec_max(),
                    key, value, None, false, high_entropy, now) {
                    Some(e) => (o matches StorageMessageOutcome::StoreFailed(k, err) && k@ == key && err == e)
                        && final(self).spec_entries() == old(self).spec_entries(),
                    None => (o matches StorageMessageOutcome::Stored(k) && k@ == key)
                        && final(self).spec_entries() == entries_after_put(old(self).spec_entries(),
                            new_entry(key, value, None, old(self).spec_local_id(), now)),
                }
            },
            message.message_type == DhtMessageType::FindValue && message.key is Some ==> {
                let key = message.key.unwrap()@;
                match find_key(old(self).spec_entries(), key) {
                    None => (o matches StorageMessageOutcome::NotFound(k) && k@ == key)
                        && final(self).spec_entries() == old(self).spec_entries(),
                    Some(p) => if expired(old(self).spec_entries()[p], now) {
                        (o matches StorageMessageOutcome::NotFound(k) && k@ == key)
                            && final(self).spec_entries() == old(self).spec_entries().remove(p)
                    } else {
                        (o matches StorageMessageOutcome::Found(k) && k@ == key)
                            && final(self).spec_entries() == old(self).spec_entries().update(p, touched(old(self).spec_entries()[p], now))
                    },
                }
            },
            message.message_type == DhtMessageType::FindNode && message.target_id is Some ==>
                o == StorageMessageOutcome::ClosestNodes(closest_nodes(old(self).spec_router().spec_table(),
                    old(self).spec_router().spec_k(), message.target_id.unwrap()@, 8).len() as usize)
                && final(self).spec_entries() == old(self).spec_entries(),
            !(message.message_type == DhtMessageType::Store && message.key is Some && message.value is Some)
                && !(message.message_type == DhtMessageType::FindValue && message.key is Some)
                && !(message.message_type == DhtMessageType::FindNode && message.target_id is Some)
                ==> o == StorageMessageOutcome::Ignored && final(self).spec_entries() == old(self).spec_entries(),
    {
        match message.message_type {
            DhtMessageType::Store => {
                if let (Some(key), Some(value)) = (&message.key, &message.value) {
                    match self.store_at(key.clone(), copy_bytes(value), None, false, high_entropy, now, 0) {
                        Ok(()) => StorageMessageOutcome::Stored(key.clone()),
                        Err(e) => StorageMessageOutcome::StoreFailed(key.clone(), e),
                    }
                } else {
                    StorageMessageOutcome::Ignored
                }
            },
            DhtMessageType::FindValue => {
                if let Some(key) = &message.key {
                    match self.get_at(key.as_str(), now) {
                        Some(_) => StorageMessageOutcome::Found(key.clone()),
                        None => StorageMessageOutcome::NotFound(key.clone()),
                    }
                } else {
                    StorageMessageOutcome::Ignored
                }
            },
            DhtMessageType::FindNode => {
                if let Some(target_id) = &message.target_id {
                    let closest = self.router.find_closest_nodes(target_id, 8);
                    StorageMessageOutcome::ClosestNodes(closest.len())
                } else {
                    StorageMessageOutcome::Ignored
                }
            },
            _ => StorageMessageOutcome::Ignored,
        }
    }
}

} // verus!

verus! {

/// The store's usage is the total size of its values and stays within its
/// capacity; keys are distinct.
pub proof fn lemma_usage_accounting(s: &DhtStorage)
    requires
        s.wf(),
    ensures
        s.spec_usage() == values_size(s.spec_entries()),
        s.spec_usage() <= s.spec_max(),
        keys_unique(s.spec_entries()),
{
}

/// After a write of `value` under `key`, the key is held once, with that
/// value, and the new entry has no expiry, so a read at any later time
/// returns `value`.
pub proof fn lemma_store_then_get(
    s: Seq<StorageEntryView>,
    key: Seq<char>,
    value: Seq<u8>,
    attached: Option<ZkProofView>,
    local: Seq<u8>,
    now: u64,
    later: u64,
)
    requires
        keys_unique(s),
    ensures
        ({
            let t = entries_after_put(s, new_entry(key, value, attached, local, now));
            &&& keys_unique(t)
            &&& find_key(t, key) is Some
            &&& t[find_key(t, key).unwrap()].value == value
            &&& !expired(t[find_key(t, key).unwrap()], later)
        }),
{
    let e = new_entry(key, value, attached, local, now);
    let t = entries_after_put(s, e);
    match find_key(s, key) {
        Some(p) => {
            assert(s[p].key == key);
            assert forall|i: int, j: int| 0 <= i < t.len() && 0 <= j < t.len() && i != j
                implies #[trigger] t[i].key != #[trigger] t[j].key by {
                if i != p && j != p {
                    assert(s[i].key != s[j].key);
                } else if i == p {
                    assert(s[j].key != s[p].key);
                } else {
                    assert(s[i].key != s[p].key);
                }
            }
            lemma_find_key_at(t, key, p);
        },
        None => {
            assert forall|i: int, j: int| 0 <= i < t.len() && 0 <= j < t.len() && i != j
                implies #[trigger] t[i].key != #[trigger] t[j].key by {
                if i < s.len() && j < s.len() {
                    assert(s[i].key != s[j].key);
                } else if i < s.len() {
                    assert(t[i] == s[i]);
                } else {
                    assert(t[j] == s[j]);
                }
            }
            lemma_find_key_at(t, key, s.len() as int);
        },
    }
}

/// After the entry under `key` is removed, no entry has that key.
pub proof fn lemma_remove_then_absent(s: Seq<StorageEntryView>, key: Seq<char>)
    requires
        keys_unique(s),
    ensures
        match find_key(s, key) {
            Some(p) => find_key(s.remove(p), key) is None,
            None => true,
        },
{
    if let Some(p) = find_key(s, key) {
        let t = s.remove(p);
        if exists|i: int| 0 <= i < t.len() && #[trigger] t[i].key == key {
            let i = choose|i: int| 0 <= i < t.len() && #[trigger] t[i].key == key;
            let si = if i < p { i } else { i + 1 };
            assert(t[i] == s[si]);
            assert(s[si].key != s[p].key);
        }
    }
}

} // verus!

verus! {

/// A write under one key leaves the entry under any other key as it was.
pub proof fn lemma_store_keeps_other_keys(s: Seq<StorageEntryView>, e: StorageEntryView, other: Seq<char>)
    requires
        keys_unique(s),
        other != e.key,
    ensures
        ({
            let t = entries_after_put(s, e);
            &&& (find_key(t, other) is Some <==> find_key(s, other) is Some)
            &&& find_key(s, other) is Some ==> t[find_key(t, other).unwrap()] == s[find_key(s, other).unwrap()]
        }),
{
    let t = entries_after_put(s, e);
    let q = find_key(s, e.key);
    if let Some(p) = q {
        assert(s[p].key == e.key);
    }
    assert(keys_unique(t)) by {
        assert forall|i: int, j: int| 0 <= i < t.len() && 0 <= j < t.len() && i != j
            implies #[trigger] t[i].key != #[trigger] t[j].key by {
            match q {
                Some(p) => {
                    if i != p && j != p {
                        assert(s[i].key != s[j].key);
                    } else if i == p {
                        assert(s[j].key != s[p].key);
                    } else {
                        assert(s[i].key != s[p].key);
                    }
                },
                None => {
                    if i < s.len() && j < s.len() {
                        assert(s[i].key != s[j].key);
                    } else if i < s.len() {
                        assert(t[i] == s[i]);
                    } else {
                        assert(t[j] == s[j]);
                    }
                },
            }
        }
    }
    if let Some(m) = find_key(s, other) {
        assert(s[m].key == other);
        if let Some(p) = q {
            assert(m != p);
        }
        assert(t[m] == s[m]);
        lemma_find_key_at(t, other, m);
    } else {
        if exists|i: int| 0 <= i < t.len() && #[trigger] t[i].key == other {
            let i = choose|i: int| 0 <= i < t.len() && #[trigger] t[i].key == other;
            match q {
                Some(p) => {
                    assert(i != p);
                    assert(t[i] == s[i]);
                },
                None => {
                    if i < s.len() {
                        assert(t[i] == s[i]);
                    }
                },
            }
        }
    }
}

/// Cleaning up at time `now` keeps exactly the entries whose expiry has not
/// passed: every kept entry was stored before and has no expiry or an expiry
/// at or after `now`, every such entry is kept, and an entry whose expiry is
/// before `now` is gone. The time compared is the one given, unchanged.
pub proof fn lemma_cleanup_keeps_exactly_unexpired(s: Seq<StorageEntryView>, now: u64)
    ensures
        forall|i: int| 0 <= i < unexpired(s, now).len() ==> s.contains(#[trigger] unexpired(s, now)[i])
            && (unexpired(s, now)[i].expiry is None || now <= unexpired(s, now)[i].expiry->0),
        forall|i: int| 0 <= i < s.len() && ((#[trigger] s[i]).expiry is None || now <= s[i].expiry->0)
            ==> unexpired(s, now).contains(s[i]),
        forall|i: int| 0 <= i < s.len() && (#[trigger] s[i]).expiry is Some && s[i].expiry->0 < now
            ==> !unexpired(s, now).contains(s[i]),
    decreases s.len(),
{
    if s.len() > 0 {
        let s0 = s.drop_last();
        lemma_cleanup_keeps_exactly_unexpired(s0, now);
        let r0 = unexpired(s0, now);
        let r = unexpired(s, now);
        assert forall|i: int| 0 <= i < r.len() implies s.contains(#[trigger] r[i])
            && (r[i].expiry is None || now <= r[i].expiry->0) by {
            if i < r0.len() {
                assert(r[i] == r0[i]);
                assert(s0.contains(r0[i]));
                let j = choose|j: int| 0 <= j < s0.len() && s0[j] == r0[i];
                assert(s[j] == r[i]);
            } else {
                assert(r[i] == s[s.len() - 1]);
            }
        }
        assert forall|i: int| 0 <= i < s.len() && ((#[trigger] s[i]).expiry is None || now <= s[i].expiry->0)
            implies r.contains(s[i]) by {
            if i < s0.len() {
                assert(s0[i] == s[i]);
                assert(r0.contains(s0[i]));
                let j = choose|j: int| 0 <= j < r0.len() && r0[j] == s0[i];
                assert(r[j] == r0[j]);
            } else {
                assert(r[r.len() - 1] == s[i]);
            }
        }
        assert forall|i: int| 0 <= i < s.len() && (#[trigger] s[i]).expiry is Some && s[i].expiry->0 < now
            implies !r.contains(s[i]) by {
            if r.contains(s[i]) {
                let j = choose|j: int| 0 <= j < r.len() && r[j] == s[i];
            }
        }
    }
}

/// A read at time `now` of an entry with no expiry, or an expiry at or after
/// `now`, finds it unexpired; one with an expiry before `now` finds it
/// expired.
pub proof fn lemma_read_sees_expiry(e: StorageEntryView, now: u64)
    ensures
        e.expiry is None ==> !expired(e, now),
        e.expiry is Some && now <= e.expiry->0 ==> !expired(e, now),
        e.expiry is Some && e.expiry->0 < now ==> expired(e, now),
{
}

} // verus!
